//! What a package needs: all that its dependencies lead to, and what has to
//! be added to what is installed.

use vstd::prelude::*;
use crate::debversion::{debian_comparison, Comparison};
use crate::packages::{
    dependencies_view, dependency_view, AlternativeView, CatalogView, Dependency, Packages,
};
use crate::worklist::{
    absorb, begins_with, closed_under, edge, explore, in_range, lemma_absorb,
    lemma_closed_holds_reached, lemma_explore_all, lemma_reaches_self, lemma_tidy_len, reached_from,
    reaches, stays_in_range, tidy,
};

verus! {

/// A fault in the catalog that stops the planning.
#[derive(Clone, Copy, Debug, PartialEq, Eq, Structural)]
pub enum CatalogError {
    /// A choice between alternatives goes by their available versions, and
    /// the catalog holds none of this package.
    NoAvailableVersion { package_num: i32 },
}

impl CatalogView {
    /// The first alternative of each dependency of a package.
    pub open spec fn first_choices(self, num: i32) -> Seq<i32> {
        let deps = self.dependencies[num as int];
        Seq::new(deps.len(), |d: int| deps[d][0].package_num)
    }

    /// The graph in which a package leads to the first alternative of each of
    /// its dependencies.
    pub open spec fn first_choice_edges(self) -> spec_fn(i32) -> Result<Seq<i32>, CatalogError> {
        |num: i32| Ok(self.first_choices(num))
    }

    /// All that the dependencies of `root` lead to by first alternatives, each
    /// package once, in the order in which a breadth-first search meets them.
    pub open spec fn closure(self, root: i32) -> Seq<i32> {
        match explore(
            self.first_choice_edges(),
            absorb(Seq::empty(), self.first_choices(root)),
            0,
            self.len(),
        ) {
            Ok(order) => order,
            Err(_) => Seq::empty(),
        }
    }

    /// What `transitive_dep_solution` gives for a name.
    pub open spec fn transitive_deps(self, name: Seq<char>) -> Seq<i32> {
        match self.num_of(name) {
            Some(root) => self.closure(root),
            None => Seq::empty(),
        }
    }

    /// The place of the first alternative from `from` on of which no version is available.
    pub open spec fn first_unavailable(self, dep: Seq<AlternativeView>, from: int) -> Option<int>
        decreases dep.len() - from,
    {
        if from < 0 || from >= dep.len() {
            None
        } else if self.available[dep[from].package_num as int] is None {
            Some(from)
        } else {
            self.first_unavailable(dep, from + 1)
        }
    }

    /// The place, among the first `upto` alternatives, of the one whose
    /// available version is highest: the first alternative, unless a later one
    /// is greater than all before it.
    pub open spec fn highest_available(self, dep: Seq<AlternativeView>, upto: int) -> int
        decreases upto,
    {
        if upto <= 1 {
            0
        } else {
            let best = self.highest_available(dep, upto - 1);
            let candidate = self.available[dep[upto - 1].package_num as int].unwrap();
            let leader = self.available[dep[best].package_num as int].unwrap();
            if debian_comparison(candidate.parts, leader.parts) == Comparison::Greater {
                upto - 1
            } else {
                best
            }
        }
    }

    /// The alternative whose available version is highest, or the fault of
    /// the first alternative of which none is available.
    pub open spec fn pick_highest(self, dep: Seq<AlternativeView>) -> Result<i32, CatalogError> {
        match self.first_unavailable(dep, 0) {
            Some(i) => Err(CatalogError::NoAvailableVersion { package_num: dep[i].package_num }),
            None => Ok(dep[self.highest_available(dep, dep.len() as int)].package_num),
        }
    }

    /// The package to add for a dependency that is not satisfied: its only
    /// alternative; else the only one installed in a wrong version; else the
    /// one whose available version is highest.
    pub open spec fn choice(self, dep: Seq<AlternativeView>) -> Result<i32, CatalogError> {
        if dep.len() == 1 {
            Ok(dep[0].package_num)
        } else if self.wrong_version(dep).len() == 1 {
            Ok(self.wrong_version(dep)[0])
        } else {
            self.pick_highest(dep)
        }
    }

    /// The packages to add for those of `deps` that are not satisfied, in
    /// their order, or the first fault met.
    pub open spec fn targets(self, deps: Seq<Seq<AlternativeView>>) -> Result<Seq<i32>, CatalogError>
        decreases deps.len(),
    {
        if deps.len() == 0 {
            Ok(Seq::empty())
        } else {
            match self.targets(deps.drop_last()) {
                Err(e) => Err(e),
                Ok(before) => if self.is_satisfied(deps.last()) {
                    Ok(before)
                } else {
                    match self.choice(deps.last()) {
                        Err(e) => Err(e),
                        Ok(target) => Ok(before.push(target)),
                    }
                },
            }
        }
    }

    /// The graph in which a package leads to what is to be added for its
    /// dependencies that are not satisfied.
    pub open spec fn plan_edges(self) -> spec_fn(i32) -> Result<Seq<i32>, CatalogError> {
        |num: i32| self.targets(self.dependencies[num as int])
    }

    /// What has to be added so that `root` and all that is added have their
    /// dependencies satisfied, in the order in which a breadth-first search
    /// from `root` meets it; `root` itself is left out.
    pub open spec fn plan(self, root: i32) -> Result<Seq<i32>, CatalogError> {
        match explore(self.plan_edges(), seq![root], 0, self.len()) {
            Ok(order) => Ok(order.drop_first()),
            Err(e) => Err(e),
        }
    }

    /// What `compute_how_to_install` gives for a name.
    pub open spec fn install_plan(self, name: Seq<char>) -> Result<Seq<i32>, CatalogError> {
        match self.num_of(name) {
            Some(root) => self.plan(root),
            None => Ok(Seq::empty()),
        }
    }

    /// The first alternatives of a package's dependencies are packages of the catalog.
    pub proof fn lemma_first_choices_known(self, num: i32)
        requires
            self.wf(),
            self.knows(num),
        ensures
            in_range(self.first_choices(num), self.len()),
    {
        let deps = self.dependencies[num as int];
        assert(self.admits_all(deps));
        assert forall|d: int| 0 <= d < deps.len() implies 0 <= #[trigger] self.first_choices(num)[d]
            < self.len() by {
            assert(self.admits(deps[d]));
            assert(self.knows(deps[d][0].package_num));
        }
    }

    /// First alternatives lead from packages of the catalog to packages of the catalog.
    pub proof fn lemma_first_choice_edges_known(self)
        requires
            self.wf(),
        ensures
            stays_in_range(self.first_choice_edges(), self.len()),
    {
        let edges = self.first_choice_edges();
        assert forall|p: i32| 0 <= p < self.len() implies (#[trigger] edges(p) matches Ok(items)
            ==> in_range(items, self.len())) by {
            self.lemma_first_choices_known(p);
        }
    }

    /// The place that `highest_available` gives is one of the first `upto`.
    pub proof fn lemma_highest_available(self, dep: Seq<AlternativeView>, upto: int)
        requires
            upto >= 1,
        ensures
            0 <= self.highest_available(dep, upto) < upto,
        decreases upto,
    {
        if upto > 1 {
            self.lemma_highest_available(dep, upto - 1);
        }
    }

    /// What `first_unavailable` finds has no available version, and all
    /// before it have one; where it finds nothing, all have one.
    pub proof fn lemma_first_unavailable(self, dep: Seq<AlternativeView>, from: int)
        requires
            0 <= from,
        ensures
            match self.first_unavailable(dep, from) {
                Some(i) => {
                    &&& from <= i < dep.len()
                    &&& self.available[dep[i].package_num as int] is None
                    &&& forall|j: int|
                        from <= j < i ==> self.available[(#[trigger] dep[j]).package_num as int] is Some
                },
                None => forall|j: int|
                    from <= j < dep.len() ==> self.available[(#[trigger] dep[j]).package_num as int] is Some,
            },
        decreases dep.len() - from,
    {
        if from < dep.len() && self.available[dep[from].package_num as int] is Some {
            self.lemma_first_unavailable(dep, from + 1);
        }
    }

    /// What `pick_highest` gives is the package of an alternative: one
    /// without available version where it is a fault, and else one with,
    /// as all have one then.
    pub proof fn lemma_pick_highest(self, dep: Seq<AlternativeView>)
        requires
            dep.len() > 0,
        ensures
            match self.pick_highest(dep) {
                Ok(target) => {
                    &&& forall|a: int|
                        0 <= a < dep.len() ==> self.available[(#[trigger] dep[a]).package_num as int] is Some
                    &&& exists|a: int| 0 <= a < dep.len() && (#[trigger] dep[a]).package_num == target
                },
                Err(CatalogError::NoAvailableVersion { package_num }) => exists|a: int|
                    0 <= a < dep.len() && (#[trigger] dep[a]).package_num == package_num
                        && self.available[package_num as int] is None,
            },
    {
        self.lemma_first_unavailable(dep, 0);
        self.lemma_highest_available(dep, dep.len() as int);
        match self.first_unavailable(dep, 0) {
            Some(i) => {
                assert(dep[i].package_num == dep[i].package_num);
            },
            None => {
                let best = self.highest_available(dep, dep.len() as int);
                assert(dep[best].package_num == dep[best].package_num);
            },
        }
    }

    /// What is chosen for a dependency is the package of one of its alternatives.
    pub proof fn lemma_choice_known(self, dep: Seq<AlternativeView>)
        requires
            self.wf(),
            self.admits(dep),
        ensures
            self.choice(dep) matches Ok(target) ==> self.knows(target),
    {
        if dep.len() == 1 {
        } else if self.wrong_version(dep).len() == 1 {
            self.lemma_wrong_version(dep);
            let target = self.wrong_version(dep)[0];
            assert(self.wrong_in(dep, target));
        } else {
            self.lemma_highest_available(dep, dep.len() as int);
        }
    }

    /// What is to be added for dependencies of the catalog are packages of the catalog.
    pub proof fn lemma_targets_known(self, deps: Seq<Seq<AlternativeView>>)
        requires
            self.wf(),
            self.admits_all(deps),
        ensures
            self.targets(deps) matches Ok(items) ==> in_range(items, self.len()),
        decreases deps.len(),
    {
        if deps.len() > 0 {
            let front = deps.drop_last();
            assert forall|d: int| 0 <= d < front.len() implies self.admits(#[trigger] front[d]) by {
                assert(front[d] == deps[d]);
            }
            self.lemma_targets_known(front);
            assert(self.admits(deps[deps.len() - 1]));
            self.lemma_choice_known(deps.last());
        }
    }

    /// A fault among the first dependencies is the fault of them all.
    pub proof fn lemma_targets_fault(self, deps: Seq<Seq<AlternativeView>>, upto: int)
        requires
            0 <= upto <= deps.len(),
            self.targets(deps.take(upto)) is Err,
        ensures
            self.targets(deps) == self.targets(deps.take(upto)),
        decreases deps.len() - upto,
    {
        if upto < deps.len() {
            let longer = deps.take(upto + 1);
            assert(longer.drop_last() =~= deps.take(upto));
            self.lemma_targets_fault(deps, upto + 1);
        } else {
            assert(deps.take(upto) =~= deps);
        }
    }

    /// What is to be added for a package of the catalog are packages of the catalog.
    pub proof fn lemma_plan_edges_known(self)
        requires
            self.wf(),
        ensures
            stays_in_range(self.plan_edges(), self.len()),
    {
        let edges = self.plan_edges();
        assert forall|p: i32| 0 <= p < self.len() implies (#[trigger] edges(p) matches Ok(items)
            ==> in_range(items, self.len())) by {
            assert(self.admits_all(self.dependencies[p as int]));
            self.lemma_targets_known(self.dependencies[p as int]);
        }
    }
}

impl CatalogView {
    /// `root` needs `num`: first alternatives lead from a dependency of `root` to `num`.
    pub open spec fn needs(self, root: i32, num: i32) -> bool {
        reached_from(self.first_choice_edges(), self.first_choices(root), num)
    }

    /// Installing `root` leads to `num`: from `root`, steps from a package to
    /// what is to be added for one of its unsatisfied dependencies lead to `num`.
    pub open spec fn leads_to(self, root: i32, num: i32) -> bool {
        reaches(self.plan_edges(), root, num)
    }

    /// The closure of a package holds exactly what the package needs, each
    /// package once, and with a package what that package needs.
    pub proof fn lemma_closure(self, root: i32)
        requires
            self.wf(),
            self.knows(root),
        ensures
            tidy(self.closure(root), self.len()),
            closed_under(self.first_choice_edges(), self.closure(root)),
            forall|num: i32| #[trigger] self.closure(root).contains(num) <==> self.needs(root, num),
    {
        let edges = self.first_choice_edges();
        let choices = self.first_choices(root);
        let start = absorb(Seq::empty(), choices);
        self.lemma_first_choices_known(root);
        self.lemma_first_choice_edges_known();
        lemma_absorb(Seq::empty(), choices, self.len());
        lemma_explore_all(edges, start, self.len());
        match explore(edges, start, 0, self.len()) {
            Ok(order) => {
                assert forall|num: i32| reached_from(edges, start, num) <==> reached_from(
                    edges,
                    choices,
                    num,
                ) by {
                    if reached_from(edges, start, num) {
                        let i = choose|i: int| 0 <= i < start.len() && #[trigger] reaches(edges, start[i], num);
                        assert(start.contains(start[i]));
                        assert(!Seq::<i32>::empty().contains(start[i]));
                        assert(choices.contains(start[i]));
                        let j = choose|j: int| 0 <= j < choices.len() && choices[j] == start[i];
                        assert(reaches(edges, choices[j], num));
                    }
                    if reached_from(edges, choices, num) {
                        let j = choose|j: int|
                            0 <= j < choices.len() && #[trigger] reaches(edges, choices[j], num);
                        assert(choices.contains(choices[j]));
                        assert(start.contains(choices[j]));
                        let i = choose|i: int| 0 <= i < start.len() && start[i] == choices[j];
                        assert(reaches(edges, start[i], num));
                    }
                }
            },
            Err(e) => {
                let p = choose|p: i32|
                    reached_from(edges, start, p) && #[trigger] edges(p) == Err::<Seq<i32>, CatalogError>(e);
                assert(false);
            },
        }
    }

    /// A plan holds exactly what installing the package leads to, but for the
    /// package itself, each package once; with a package, it holds what is to
    /// be added for that package's unsatisfied dependencies. A fault is the
    /// fault of a package that installing the package leads to.
    pub proof fn lemma_plan(self, root: i32)
        requires
            self.wf(),
            self.knows(root),
        ensures
            self.plan(root) matches Ok(plan) ==> {
                &&& tidy(plan, self.len())
                &&& !plan.contains(root)
                &&& forall|num: i32|
                    #[trigger] plan.contains(num) <==> num != root && self.leads_to(root, num)
                &&& forall|a: i32, b: i32|
                    (a == root || plan.contains(a)) && #[trigger] edge(self.plan_edges(), a, b) ==> b
                        == root || plan.contains(b)
            },
            self.plan(root) matches Err(e) ==> exists|num: i32|
                self.leads_to(root, num) && #[trigger] self.targets(self.dependencies[num as int])
                    == Err::<Seq<i32>, CatalogError>(e),
    {
        let edges = self.plan_edges();
        let start = seq![root];
        self.lemma_plan_edges_known();
        lemma_explore_all(edges, start, self.len());
        assert forall|num: i32| reached_from(edges, start, num) <==> reaches(edges, root, num) by {
            if reached_from(edges, start, num) {
                let i = choose|i: int| 0 <= i < start.len() && #[trigger] reaches(edges, start[i], num);
            }
            if reaches(edges, root, num) {
                assert(reaches(edges, start[0], num));
            }
        }
        match explore(edges, start, 0, self.len()) {
            Ok(order) => {
                let plan = order.drop_first();
                assert(order[0] == start[0]);
                assert forall|num: i32| #[trigger] plan.contains(num) <==> num != root && order.contains(
                    num,
                ) by {
                    if plan.contains(num) {
                        let i = choose|i: int| 0 <= i < plan.len() && plan[i] == num;
                        assert(order[i + 1] == num);
                    }
                    if num != root && order.contains(num) {
                        let i = choose|i: int| 0 <= i < order.len() && order[i] == num;
                        assert(plan[i - 1] == num);
                    }
                }
                assert forall|i: int, j: int|
                    0 <= i < plan.len() && 0 <= j < plan.len() && i != j implies plan[i] != plan[j] by {
                    assert(plan[i] == order[i + 1] && plan[j] == order[j + 1]);
                }
                assert forall|i: int| 0 <= i < plan.len() implies 0 <= #[trigger] plan[i] < self.len() by {
                    assert(plan[i] == order[i + 1]);
                }
                assert(order.contains(root));
                assert forall|a: i32, b: i32|
                    (a == root || plan.contains(a)) && #[trigger] edge(edges, a, b) implies b == root
                    || plan.contains(b) by {
                    assert(order.contains(a));
                    assert(order.contains(b));
                }
            },
            Err(e) => {
                let p = choose|p: i32|
                    reached_from(edges, start, p) && #[trigger] edges(p) == Err::<Seq<i32>, CatalogError>(e);
                assert(self.leads_to(root, p));
                assert(self.targets(self.dependencies[p as int]) == Err::<Seq<i32>, CatalogError>(e));
            },
        }
    }

    /// The closure of a package in the closure of `root` adds nothing to the
    /// closure of `root`.
    pub proof fn law_closure_idempotent(self, root: i32, member: i32)
        requires
            self.wf(),
            self.knows(root),
            self.closure(root).contains(member),
        ensures
            forall|num: i32|
                #[trigger] self.closure(member).contains(num) ==> self.closure(root).contains(num),
    {
        let edges = self.first_choice_edges();
        self.lemma_closure(root);
        let i = choose|i: int| 0 <= i < self.closure(root).len() && self.closure(root)[i] == member;
        assert(self.knows(member));
        self.lemma_closure(member);
        assert forall|num: i32| #[trigger] self.closure(member).contains(num) implies self.closure(
            root,
        ).contains(num) by {
            assert(self.needs(member, num));
            let choices = self.first_choices(member);
            let j = choose|j: int| 0 <= j < choices.len() && #[trigger] reaches(edges, choices[j], num);
            assert(choices.contains(choices[j]));
            assert(edge(edges, member, choices[j]));
            lemma_closed_holds_reached(edges, self.closure(root), choices[j], num);
        }
    }

    /// What is in a plan for `root`, and is needed by `root` where first
    /// alternatives are followed, is in the closure of `root`.
    pub proof fn law_plan_within_closure(self, root: i32, num: i32)
        requires
            self.wf(),
            self.knows(root),
            self.plan(root) matches Ok(plan) && plan.contains(num),
            self.needs(root, num),
        ensures
            self.closure(root).contains(num),
    {
        self.lemma_closure(root);
    }

    /// A package without dependencies has an empty closure and an empty plan.
    pub proof fn law_no_dependencies(self, root: i32)
        requires
            self.wf(),
            self.knows(root),
            self.dependencies[root as int].len() == 0,
        ensures
            self.closure(root) == Seq::<i32>::empty(),
            self.plan(root) == Ok::<Seq<i32>, CatalogError>(Seq::empty()),
    {
        let none = Seq::<i32>::empty();
        assert(self.first_choices(root) =~= none);
        assert(absorb(none, none) == none);
        assert(explore(self.first_choice_edges(), none, 0, self.len()) == Ok::<
            Seq<i32>,
            CatalogError,
        >(none));
        let edges = self.plan_edges();
        let start = seq![root];
        assert(edges(root) == Ok::<Seq<i32>, CatalogError>(none));
        assert(absorb(start, none) == start);
        assert(explore(edges, start, 1, self.len()) == Ok::<Seq<i32>, CatalogError>(start));
        assert(explore(edges, start, 0, self.len()) == explore(edges, start, 1, self.len()));
        assert(start.drop_first() =~= none);
    }

    /// A plan for a package never holds the package itself.
    pub proof fn law_plan_excludes_root(self, root: i32)
        requires
            self.wf(),
            self.knows(root),
        ensures
            self.plan(root) matches Ok(plan) ==> !plan.contains(root),
    {
        self.lemma_plan(root);
    }
}

/// Two catalogs that hold the same have the same plan, or the same fault, for every name.
pub proof fn law_plan_deterministic(first: Packages, second: Packages, name: Seq<char>)
    requires
        first@ == second@,
    ensures
        first@.install_plan(name) == second@.install_plan(name),
{
}

/// Whether `order` holds `num`.
fn holds(order: &Vec<i32>, num: i32) -> (r: bool)
    ensures
        r == order@.contains(num),
{
    let mut i: usize = 0;
    while i < order.len()
        invariant
            i <= order.len(),
            forall|j: int| 0 <= j < i ==> order[j] != num,
        decreases order.len() - i,
    {
        if order[i] == num {
            return true;
        }
        i += 1;
    }
    false
}

impl Packages {
    /// Appends to `order` the first alternatives of the dependencies of a
    /// package, as far as `order` lacks them.
    fn absorb_first_choices(&self, num: i32, order: &mut Vec<i32>)
        requires
            self.wf(),
            self@.knows(num),
            tidy(old(order)@, self@.len()),
        ensures
            final(order)@ == absorb(old(order)@, self@.first_choices(num)),
            tidy(final(order)@, self@.len()),
            begins_with(final(order)@, old(order)@),
    {
        let deps = self.dependencies_of(num);
        let ghost choices = self@.first_choices(num);
        let ghost before = order@;
        let mut d: usize = 0;
        while d < deps.len()
            invariant
                self.wf(),
                self@.knows(num),
                d <= deps.len(),
                dependencies_view(deps@) == self@.dependencies[num as int],
                choices == self@.first_choices(num),
                order@ == absorb(before, choices.take(d as int)),
            decreases deps.len() - d,
        {
            let dep = &deps[d];
            proof {
                let views = self@.dependencies[num as int];
                assert(self@.admits_all(views));
                assert(self@.admits(views[d as int]));
                assert(views[d as int] == dependency_view(dep@));
                let upto = choices.take(d as int + 1);
                assert(upto.drop_last() =~= choices.take(d as int));
                assert(upto.last() == choices[d as int]);
            }
            let first = dep[0].package_num;
            if !holds(order, first) {
                order.push(first);
            }
            d += 1;
        }
        proof {
            assert(choices.take(d as int) =~= choices);
            self@.lemma_first_choices_known(num);
            lemma_absorb(before, choices, self@.len());
        }
    }

    /// The transitive dependencies of the package called `package_name`: all
    /// that its dependencies lead to where each dependency is met by its first
    /// alternative, whatever is installed. Nothing for a name that the catalog
    /// does not know.
    pub fn transitive_dep_solution(&self, package_name: &str) -> (r: Vec<i32>)
        requires
            self.wf(),
        ensures
            r@ == self@.transitive_deps(package_name@),
            r@.no_duplicates(),
            forall|num: i32|
                #[trigger] r@.contains(num) <==> (self@.num_of(package_name@) matches Some(root)
                    && self@.needs(root, num)),
    {
        let mut order: Vec<i32> = Vec::new();
        let root = match self.get_package_num(package_name) {
            Some(root) => root,
            None => {
                return order;
            },
        };
        proof {
            self@.lemma_closure(root);
        }
        let ghost edges = self@.first_choice_edges();
        let ghost n = self@.len();
        self.absorb_first_choices(root, &mut order);
        let ghost start = order@;
        let mut next: usize = 0;
        while next < order.len()
            invariant
                self.wf(),
                n == self@.len(),
                edges == self@.first_choice_edges(),
                tidy(order@, n),
                next <= order.len(),
                explore(edges, order@, next as int, n) == explore(edges, start, 0, n),
            decreases n - next,
        {
            proof {
                lemma_tidy_len(order@, n);
            }
            let num = order[next];
            self.absorb_first_choices(num, &mut order);
            next += 1;
        }
        order
    }

    /// The package, among the alternatives of `dd`, whose available version
    /// is highest; of several that are highest, the first.
    pub fn highest_available_alternative(&self, dd: &Dependency) -> (r: Result<i32, CatalogError>)
        requires
            self.wf(),
            self@.admits(dependency_view(dd@)),
        ensures
            r == self@.pick_highest(dependency_view(dd@)),
            r matches Ok(target) ==> self@.knows(target) && self@.available[target as int] is Some,
            r matches Err(CatalogError::NoAvailableVersion { package_num }) ==> self@.knows(package_num)
                && self@.available[package_num as int] is None,
    {
        let ghost dep = dependency_view(dd@);
        proof {
            self@.lemma_pick_highest(dep);
        }
        let mut best: usize = 0;
        let mut leader = match self.available_version(dd[0].package_num) {
            Some(version) => version,
            None => {
                return Err(CatalogError::NoAvailableVersion { package_num: dd[0].package_num });
            },
        };
        let mut i: usize = 1;
        while i < dd.len()
            invariant
                self.wf(),
                dep == dependency_view(dd@),
                self@.admits(dep),
                1 <= i <= dd.len(),
                best < i,
                best == self@.highest_available(dep, i as int),
                self@.first_unavailable(dep, 0) == self@.first_unavailable(dep, i as int),
                Some(leader@) == self@.available[dep[best as int].package_num as int],
            decreases dd.len() - i,
        {
            assert(self@.knows(dep[i as int].package_num));
            let candidate = match self.available_version(dd[i].package_num) {
                Some(version) => version,
                None => {
                    return Err(CatalogError::NoAvailableVersion { package_num: dd[i].package_num });
                },
            };
            if candidate.compare(leader) == Comparison::Greater {
                best = i;
                leader = candidate;
            }
            i += 1;
        }
        Ok(dd[best].package_num)
    }

    /// The package to add for `dd`, which is not satisfied.
    pub fn choose_alternative(&self, dd: &Dependency) -> (r: Result<i32, CatalogError>)
        requires
            self.wf(),
            self@.admits(dependency_view(dd@)),
            !self@.is_satisfied(dependency_view(dd@)),
        ensures
            r == self@.choice(dependency_view(dd@)),
            r matches Ok(target) ==> self@.knows(target),
    {
        proof {
            self@.lemma_choice_known(dependency_view(dd@));
        }
        if dd.len() == 1 {
            return Ok(dd[0].package_num);
        }
        let wrong = self.wrong_version_packages(dd);
        if wrong.len() == 1 {
            Ok(wrong[0])
        } else {
            self.highest_available_alternative(dd)
        }
    }

    /// Appends to `order` what is to be added for the dependencies of a
    /// package that are not satisfied, as far as `order` lacks it.
    fn absorb_targets(&self, num: i32, order: &mut Vec<i32>) -> (r: Result<(), CatalogError>)
        requires
            self.wf(),
            self@.knows(num),
            tidy(old(order)@, self@.len()),
        ensures
            match self@.targets(self@.dependencies[num as int]) {
                Ok(items) => {
                    &&& r is Ok
                    &&& final(order)@ == absorb(old(order)@, items)
                    &&& tidy(final(order)@, self@.len())
                    &&& begins_with(final(order)@, old(order)@)
                },
                Err(e) => r == Err::<(), CatalogError>(e),
            },
    {
        let deps = self.dependencies_of(num);
        let ghost views = self@.dependencies[num as int];
        let ghost before = order@;
        let mut d: usize = 0;
        while d < deps.len()
            invariant
                self.wf(),
                self@.knows(num),
                d <= deps.len(),
                views == self@.dependencies[num as int],
                dependencies_view(deps@) == views,
                self@.targets(views.take(d as int)) matches Ok(items) && order@ == absorb(before, items),
            decreases deps.len() - d,
        {
            let dep = &deps[d];
            proof {
                assert(self@.admits_all(views));
                assert(self@.admits(views[d as int]));
                assert(views[d as int] == dependency_view(dep@));
                let upto = views.take(d as int + 1);
                assert(upto.drop_last() =~= views.take(d as int));
                assert(upto.last() == views[d as int]);
            }
            let ghost items = self@.targets(views.take(d as int)).unwrap();
            if self.satisfying_package(dep).is_none() {
                match self.choose_alternative(dep) {
                    Ok(target) => {
                        proof {
                            assert(items.push(target).drop_last() =~= items);
                            assert(items.push(target).last() == target);
                        }
                        if !holds(order, target) {
                            order.push(target);
                        }
                    },
                    Err(e) => {
                        proof {
                            self@.lemma_targets_fault(views, d as int + 1);
                        }
                        return Err(e);
                    },
                }
            }
            d += 1;
        }
        proof {
            assert(views.take(d as int) =~= views);
            assert(self@.admits_all(views));
            self@.lemma_targets_known(views);
            lemma_absorb(before, self@.targets(views).unwrap(), self@.len());
        }
        Ok(())
    }

    /// What has to be installed so that the package called `package_name`
    /// has its dependencies satisfied, and so has all that is installed for
    /// it: the packages to add, the nearest first, without the package
    /// itself. Nothing for a name that the catalog does not know.
    pub fn compute_how_to_install(&self, package_name: &str) -> (r: Result<Vec<i32>, CatalogError>)
        requires
            self.wf(),
        ensures
            match r {
                Ok(plan) => self@.install_plan(package_name@) == Ok::<Seq<i32>, CatalogError>(plan@),
                Err(e) => self@.install_plan(package_name@) == Err::<Seq<i32>, CatalogError>(e),
            },
            r matches Ok(plan) ==> plan@.no_duplicates() && forall|num: i32|
                #[trigger] plan@.contains(num) <==> (self@.num_of(package_name@) matches Some(root)
                    && num != root && self@.leads_to(root, num)),
    {
        let mut order: Vec<i32> = Vec::new();
        let root = match self.get_package_num(package_name) {
            Some(root) => root,
            None => {
                return Ok(order);
            },
        };
        proof {
            self@.lemma_plan(root);
        }
        let ghost edges = self@.plan_edges();
        let ghost n = self@.len();
        order.push(root);
        let ghost start = order@;
        assert(start =~= seq![root]);
        let mut next: usize = 0;
        while next < order.len()
            invariant
                self.wf(),
                n == self@.len(),
                edges == self@.plan_edges(),
                self@.num_of(package_name@) == Some(root),
                start == seq![root],
                tidy(order@, n),
                next <= order.len(),
                order.len() >= 1,
                explore(edges, order@, next as int, n) == explore(edges, start, 0, n),
            decreases n - next,
        {
            proof {
                lemma_tidy_len(order@, n);
            }
            let num = order[next];
            let ghost reached = order@;
            match self.absorb_targets(num, &mut order) {
                Ok(()) => {},
                Err(e) => {
                    assert(edges(num) == Err::<Seq<i32>, CatalogError>(e));
                    assert(explore(edges, reached, next as int, n) == Err::<Seq<i32>, CatalogError>(e));
                    return Err(e);
                },
            }
            next += 1;
        }
        order.remove(0);
        Ok(order)
    }
}

} // verus!
