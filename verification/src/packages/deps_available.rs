//! Whether what is installed satisfies a dependency.

use vstd::prelude::*;
use vstd::string::*;
use crate::debversion::{debian_comparison, relation_holds};
use crate::packages::{
    dependencies_view, dependency_view, str_view, AlternativeView, CatalogView, Dependency, Packages,
    RelVersionedPackageNum,
};

verus! {

impl CatalogView {
    /// Some version of the package is installed.
    pub open spec fn is_installed(self, num: i32) -> bool {
        self.knows(num) && self.installed[num as int] is Some
    }

    /// The alternative's package is installed, in a version that stands in the
    /// demanded relation to the required one, if one is demanded.
    pub open spec fn alternative_met(self, a: AlternativeView) -> bool {
        self.knows(a.package_num) && match self.installed[a.package_num as int] {
            Some(installed) => match a.rel_version {
                Some((rel, required)) => relation_holds(
                    rel,
                    debian_comparison(installed.parts, required.parts),
                ),
                None => true,
            },
            None => false,
        }
    }

    /// The alternative's package is installed, but not in a version that meets it.
    pub open spec fn alternative_wrong(self, a: AlternativeView) -> bool {
        self.is_installed(a.package_num) && !self.alternative_met(a)
    }

    /// The place of the first alternative from `from` on that is met.
    pub open spec fn first_met(self, dep: Seq<AlternativeView>, from: int) -> Option<int>
        decreases dep.len() - from,
    {
        if from < 0 || from >= dep.len() {
            None
        } else if self.alternative_met(dep[from]) {
            Some(from)
        } else {
            self.first_met(dep, from + 1)
        }
    }

    /// The package of the first alternative that is met.
    pub open spec fn satisfier(self, dep: Seq<AlternativeView>) -> Option<i32> {
        match self.first_met(dep, 0) {
            Some(i) => Some(dep[i].package_num),
            None => None,
        }
    }

    /// Some alternative is met.
    pub open spec fn is_satisfied(self, dep: Seq<AlternativeView>) -> bool {
        self.first_met(dep, 0) is Some
    }

    /// The packages of the alternatives that are installed in a wrong version,
    /// in the order of the alternatives.
    pub open spec fn wrong_version(self, dep: Seq<AlternativeView>) -> Seq<i32>
        decreases dep.len(),
    {
        if dep.len() == 0 {
            Seq::empty()
        } else {
            let before = self.wrong_version(dep.drop_last());
            if self.alternative_wrong(dep.last()) {
                before.push(dep.last().package_num)
            } else {
                before
            }
        }
    }

    /// An alternative as a text: the package's name, and in brackets the
    /// relation and the version, if it has them.
    pub open spec fn alternative_text(self, a: AlternativeView) -> Seq<char> {
        self.names[a.package_num as int] + match a.rel_version {
            Some((rel, version)) => " ("@ + rel.symbol_of() + " "@ + version.text + ")"@,
            None => Seq::empty(),
        }
    }

    /// The first `upto` alternatives of a dependency as a text, with ` | ` between them.
    pub open spec fn dependency_text(self, dep: Seq<AlternativeView>, upto: int) -> Seq<char>
        decreases upto,
    {
        if upto <= 0 {
            Seq::empty()
        } else if upto == 1 {
            self.alternative_text(dep[0])
        } else {
            self.dependency_text(dep, upto - 1) + " | "@ + self.alternative_text(dep[upto - 1])
        }
    }

    /// The name of a package, if there is a package.
    pub open spec fn name_of(self, num: Option<i32>) -> Option<Seq<char>> {
        match num {
            Some(n) => Some(self.names[n as int]),
            None => None,
        }
    }

    /// What `first_met` finds is met, and nothing before it is; where it
    /// finds nothing, nothing is met.
    pub proof fn lemma_first_met(self, dep: Seq<AlternativeView>, from: int)
        requires
            0 <= from,
        ensures
            match self.first_met(dep, from) {
                Some(i) => {
                    &&& from <= i < dep.len()
                    &&& self.alternative_met(dep[i])
                    &&& forall|j: int| from <= j < i ==> !self.alternative_met(#[trigger] dep[j])
                },
                None => forall|j: int| from <= j < dep.len() ==> !self.alternative_met(#[trigger] dep[j]),
            },
        decreases dep.len() - from,
    {
        if from < dep.len() && !self.alternative_met(dep[from]) {
            self.lemma_first_met(dep, from + 1);
        }
    }

    /// `num` is the package of an alternative of `dep` that is installed in a wrong version.
    pub open spec fn wrong_in(self, dep: Seq<AlternativeView>, num: i32) -> bool {
        exists|a: int|
            0 <= a < dep.len() && self.alternative_wrong(#[trigger] dep[a]) && dep[a].package_num == num
    }

    /// Every package that `wrong_version` gives is that of an alternative of
    /// the dependency, installed in a wrong version.
    pub proof fn lemma_wrong_version(self, dep: Seq<AlternativeView>)
        ensures
            self.wrong_version(dep).len() <= dep.len(),
            forall|k: int|
                0 <= k < self.wrong_version(dep).len() ==> self.wrong_in(
                    dep,
                    #[trigger] self.wrong_version(dep)[k],
                ),
        decreases dep.len(),
    {
        if dep.len() > 0 {
            let front = dep.drop_last();
            self.lemma_wrong_version(front);
            let before = self.wrong_version(front);
            let all = self.wrong_version(dep);
            assert forall|k: int| 0 <= k < all.len() implies self.wrong_in(dep, #[trigger] all[k]) by {
                if k < before.len() {
                    assert(self.wrong_in(front, before[k]));
                    let a = choose|a: int|
                        0 <= a < front.len() && self.alternative_wrong(#[trigger] front[a])
                            && front[a].package_num == before[k];
                    assert(dep[a] == front[a]);
                } else {
                    assert(dep[dep.len() - 1] == dep.last());
                }
            }
        }
    }
}

impl Packages {
    /// Whether what is installed meets one alternative.
    pub fn alternative_is_met(&self, alternative: &RelVersionedPackageNum) -> (r: bool)
        requires
            self.wf(),
        ensures
            r == self@.alternative_met(alternative@),
    {
        if !self.knows(alternative.package_num) {
            return false;
        }
        match self.installed_version(alternative.package_num) {
            None => false,
            Some(installed) => match &alternative.rel_version {
                None => true,
                Some((rel, required)) => installed.satisfies(*rel, required),
            },
        }
    }

    /// A dependency as a text, such as `a (>= 1.0) | b`.
    pub fn dep2str(&self, dd: &Dependency) -> (r: String)
        requires
            self.wf(),
            self@.admits(dependency_view(dd@)),
        ensures
            r@ == self@.dependency_text(dependency_view(dd@), dd.len() as int),
    {
        let ghost dep = dependency_view(dd@);
        let mut text = String::new();
        let mut i: usize = 0;
        while i < dd.len()
            invariant
                self.wf(),
                dep == dependency_view(dd@),
                self@.admits(dep),
                i <= dd.len(),
                text@ == self@.dependency_text(dep, i as int),
            decreases dd.len() - i,
        {
            if i > 0 {
                text.append(" | ");
            }
            let alternative = &dd[i];
            assert(self@.knows(dep[i as int].package_num));
            let ghost before = text@;
            text.append(self.names[alternative.package_num as usize].as_str());
            match &alternative.rel_version {
                Some((rel, version)) => {
                    text.append(" (");
                    text.append(rel.symbol());
                    text.append(" ");
                    text.append(version.as_str());
                    text.append(")");
                },
                None => {},
            }
            assert(text@ =~= before + self@.alternative_text(dep[i as int]));
            assert(before =~= Seq::<char>::empty() + before);
            i += 1;
        }
        text
    }

    /// Whether some version of the package is installed.
    pub fn is_installed(&self, package_num: i32) -> (r: bool)
        requires
            self.wf(),
        ensures
            r == self@.is_installed(package_num),
    {
        self.knows(package_num) && self.installed_version(package_num).is_some()
    }

    /// The number of the package that satisfies `dd`: that of the first
    /// alternative that what is installed meets.
    pub fn satisfying_package(&self, dd: &Dependency) -> (r: Option<i32>)
        requires
            self.wf(),
        ensures
            r == self@.satisfier(dependency_view(dd@)),
            r matches Some(num) ==> self@.is_installed(num),
    {
        let ghost dep = dependency_view(dd@);
        let mut i: usize = 0;
        while i < dd.len()
            invariant
                self.wf(),
                i <= dd.len(),
                dep == dependency_view(dd@),
                self@.first_met(dep, 0) == self@.first_met(dep, i as int),
            decreases dd.len() - i,
        {
            if self.alternative_is_met(&dd[i]) {
                assert(self@.alternative_met(dep[i as int]));
                return Some(dd[i].package_num);
            }
            assert(!self@.alternative_met(dep[i as int]));
            i += 1;
        }
        None
    }

    /// The name of the package that satisfies `dd`, or `None` if what is
    /// installed does not satisfy it. The first alternative that is met wins.
    pub fn dep_is_satisfied(&self, dd: &Dependency) -> (r: Option<&str>)
        requires
            self.wf(),
        ensures
            str_view(r) == self@.name_of(self@.satisfier(dependency_view(dd@))),
    {
        match self.satisfying_package(dd) {
            Some(num) => self.get_package_name(num),
            None => None,
        }
    }

    /// The numbers of the packages that would satisfy `dd` but for their
    /// version, in the order of the alternatives.
    pub fn wrong_version_packages(&self, dd: &Dependency) -> (r: Vec<i32>)
        requires
            self.wf(),
            !self@.is_satisfied(dependency_view(dd@)),
        ensures
            r@ == self@.wrong_version(dependency_view(dd@)),
            forall|k: int| 0 <= k < r.len() ==> self@.knows(#[trigger] r[k]),
    {
        let ghost dep = dependency_view(dd@);
        let mut result: Vec<i32> = Vec::new();
        let mut i: usize = 0;
        proof {
            self@.lemma_first_met(dep, 0);
        }
        while i < dd.len()
            invariant
                self.wf(),
                i <= dd.len(),
                dep == dependency_view(dd@),
                forall|j: int| 0 <= j < dep.len() ==> !self@.alternative_met(#[trigger] dep[j]),
                result@ == self@.wrong_version(dep.take(i as int)),
                forall|k: int| 0 <= k < result.len() ==> self@.knows(#[trigger] result[k]),
            decreases dd.len() - i,
        {
            proof {
                let upto = dep.take(i as int + 1);
                assert(upto.drop_last() =~= dep.take(i as int));
                assert(upto.last() == dep[i as int]);
            }
            if self.is_installed(dd[i].package_num) {
                result.push(dd[i].package_num);
            }
            i += 1;
        }
        assert(dep.take(i as int) =~= dep);
        result
    }

    /// The names of the packages that would satisfy `dd` but for their
    /// version, in the order of the alternatives. `dd` must not be satisfied.
    pub fn dep_satisfied_by_wrong_version(&self, dd: &Dependency) -> (r: Vec<&str>)
        requires
            self.wf(),
            !self@.is_satisfied(dependency_view(dd@)),
        ensures
            r.len() == self@.wrong_version(dependency_view(dd@)).len(),
            forall|k: int|
                0 <= k < r.len() ==> (#[trigger] r[k])@ == self@.names[self@.wrong_version(
                    dependency_view(dd@),
                )[k] as int],
    {
        let nums = self.wrong_version_packages(dd);
        let mut names: Vec<&str> = Vec::new();
        let mut k: usize = 0;
        while k < nums.len()
            invariant
                self.wf(),
                k <= nums.len(),
                names.len() == k,
                forall|j: int| 0 <= j < nums.len() ==> self@.knows(#[trigger] nums[j]),
                forall|j: int| 0 <= j < k ==> (#[trigger] names[j])@ == self@.names[nums[j] as int],
            decreases nums.len() - k,
        {
            match self.get_package_name(nums[k]) {
                Some(name) => {
                    names.push(name);
                },
                None => {},
            }
            k += 1;
        }
        names
    }

    /// For each dependency of the package called `package_name`, the number of
    /// the package that satisfies it, if what is installed does. `None` if
    /// the catalog knows no such package.
    pub fn deps_available(&self, package_name: &str) -> (r: Option<Vec<Option<i32>>>)
        requires
            self.wf(),
        ensures
            match self@.num_of(package_name@) {
                Some(num) => {
                    &&& r matches Some(found)
                    &&& found.len() == self@.dependencies[num as int].len()
                    &&& forall|d: int|
                        0 <= d < found.len() ==> #[trigger] found[d] == self@.satisfier(
                            self@.dependencies[num as int][d],
                        )
                },
                None => r is None,
            },
    {
        let num = match self.get_package_num(package_name) {
            Some(num) => num,
            None => {
                return None;
            },
        };
        let deps = self.dependencies_of(num);
        let ghost views = dependencies_view(deps@);
        let mut found: Vec<Option<i32>> = Vec::new();
        let mut d: usize = 0;
        while d < deps.len()
            invariant
                self.wf(),
                d <= deps.len(),
                found.len() == d,
                views == dependencies_view(deps@),
                forall|k: int| 0 <= k < d ==> #[trigger] found[k] == self@.satisfier(views[k]),
            decreases deps.len() - d,
        {
            let by = self.satisfying_package(&deps[d]);
            found.push(by);
            d += 1;
        }
        Some(found)
    }
}

} // verus!
