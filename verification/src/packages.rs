//! The catalog of packages: their names and numbers, what is installed and
//! available, their checksums and their dependencies.

use vstd::prelude::*;
use vstd::string::*;
use crate::debversion::{DebianVersionNum, VersionRelation, VersionView};
use crate::packages::async_fns::{AsyncState, AsyncStateView, default_server};

pub mod async_fns;
pub mod deps_available;
pub mod parsers;
pub mod solvers;

verus! {

/// One alternative of a dependency: a package, and perhaps a relation that its
/// installed version must have to a required version.
pub struct RelVersionedPackageNum {
    pub package_num: i32,
    pub rel_version: Option<(VersionRelation, DebianVersionNum)>,
}

/// Alternatives of which any one satisfies the dependency, first choice first.
pub type Dependency = Vec<RelVersionedPackageNum>;

/// An alternative as the contracts see it.
pub struct AlternativeView {
    pub package_num: i32,
    pub rel_version: Option<(VersionRelation, VersionView)>,
}

impl View for RelVersionedPackageNum {
    type V = AlternativeView;

    open spec fn view(&self) -> AlternativeView {
        AlternativeView {
            package_num: self.package_num,
            rel_version: match self.rel_version {
                Some((rel, version)) => Some((rel, version@)),
                None => None,
            },
        }
    }
}

/// A dependency as the contracts see it.
pub open spec fn dependency_view(dep: Seq<RelVersionedPackageNum>) -> Seq<AlternativeView> {
    Seq::new(dep.len(), |i: int| dep[i]@)
}

/// The dependencies of one package as the contracts see it.
pub open spec fn dependencies_view(deps: Seq<Dependency>) -> Seq<Seq<AlternativeView>> {
    Seq::new(deps.len(), |i: int| dependency_view(deps[i]@))
}

/// A version that may be missing, as the contracts see it.
pub open spec fn version_view(version: Option<DebianVersionNum>) -> Option<VersionView> {
    match version {
        Some(v) => Some(v@),
        None => None,
    }
}

/// A text that may be missing, as the contracts see it.
pub open spec fn text_view(text: Option<String>) -> Option<Seq<char>> {
    match text {
        Some(t) => Some(t@),
        None => None,
    }
}

/// A borrowed version that may be missing, as the contracts see it.
pub open spec fn version_ref_view(version: Option<&DebianVersionNum>) -> Option<VersionView> {
    match version {
        Some(v) => Some(v@),
        None => None,
    }
}

/// A borrowed text that may be missing, as the contracts see it.
pub open spec fn str_view(text: Option<&str>) -> Option<Seq<char>> {
    match text {
        Some(t) => Some(t@),
        None => None,
    }
}

/// How many of the first `upto` entries are there.
pub open spec fn count_present<T>(entries: Seq<Option<T>>, upto: int) -> int
    decreases upto,
{
    if upto <= 0 {
        0
    } else {
        count_present(entries, upto - 1) + if entries[upto - 1] is Some {
            1int
        } else {
            0int
        }
    }
}

/// The catalog as the contracts see it. A package's number is its place in
/// each of the five sequences.
pub struct CatalogView {
    pub names: Seq<Seq<char>>,
    pub installed: Seq<Option<VersionView>>,
    pub available: Seq<Option<VersionView>>,
    pub md5sums: Seq<Option<Seq<char>>>,
    pub dependencies: Seq<Seq<Seq<AlternativeView>>>,
}

impl CatalogView {
    /// How many packages the catalog knows.
    pub open spec fn len(self) -> int {
        self.names.len() as int
    }

    /// `num` is the number of a package of the catalog.
    pub open spec fn knows(self, num: i32) -> bool {
        0 <= num < self.len()
    }

    /// Every alternative of `dep` names a package of the catalog, and there is
    /// at least one.
    pub open spec fn admits(self, dep: Seq<AlternativeView>) -> bool {
        dep.len() > 0 && forall|a: int| 0 <= a < dep.len() ==> self.knows(#[trigger] dep[a].package_num)
    }

    /// Every dependency of `deps` is admitted.
    pub open spec fn admits_all(self, deps: Seq<Seq<AlternativeView>>) -> bool {
        forall|d: int| 0 <= d < deps.len() ==> self.admits(#[trigger] deps[d])
    }

    /// No two packages share a name, each package has an entry of every kind,
    /// and every alternative of every dependency names a package of the catalog.
    pub open spec fn wf(self) -> bool {
        &&& self.names.len() <= i32::MAX
        &&& self.installed.len() == self.names.len()
        &&& self.available.len() == self.names.len()
        &&& self.md5sums.len() == self.names.len()
        &&& self.dependencies.len() == self.names.len()
        &&& self.names.no_duplicates()
        &&& forall|p: int| 0 <= p < self.dependencies.len() ==> self.admits_all(#[trigger] self.dependencies[p])
    }

    /// The number of the package called `name`, if there is one.
    pub open spec fn num_of(self, name: Seq<char>) -> Option<i32> {
        if self.names.contains(name) {
            Some(self.names.index_of(name) as i32)
        } else {
            None
        }
    }

    /// The version installed of the package called `name`, if there is any.
    pub open spec fn installed_of(self, name: Seq<char>) -> Option<VersionView> {
        match self.num_of(name) {
            Some(num) => self.installed[num as int],
            None => None,
        }
    }

    /// The version available of the package called `name`, if there is any.
    pub open spec fn available_of(self, name: Seq<char>) -> Option<VersionView> {
        match self.num_of(name) {
            Some(num) => self.available[num as int],
            None => None,
        }
    }

    /// The checksum of the package called `name`, if the catalog holds one.
    pub open spec fn md5sum_of(self, name: Seq<char>) -> Option<Seq<char>> {
        match self.num_of(name) {
            Some(num) => self.md5sums[num as int],
            None => None,
        }
    }

    /// The catalog after a package called `name` was added, with nothing known of it.
    pub open spec fn with_package(self, name: Seq<char>) -> CatalogView {
        CatalogView {
            names: self.names.push(name),
            installed: self.installed.push(None),
            available: self.available.push(None),
            md5sums: self.md5sums.push(None),
            dependencies: self.dependencies.push(Seq::empty()),
        }
    }
}

/// The catalog and the state of the checksum verification.
pub struct Packages {
    pub(crate) names: Vec<String>,
    pub(crate) installed_debvers: Vec<Option<DebianVersionNum>>,
    pub(crate) available_debvers: Vec<Option<DebianVersionNum>>,
    pub(crate) md5sums: Vec<Option<String>>,
    pub(crate) dependencies: Vec<Vec<Dependency>>,
    pub(crate) async_state: AsyncState,
}

impl View for Packages {
    type V = CatalogView;

    open(crate) spec fn view(&self) -> CatalogView {
        CatalogView {
            names: Seq::new(self.names.len() as nat, |i: int| self.names[i]@),
            installed: Seq::new(
                self.installed_debvers.len() as nat,
                |i: int| version_view(self.installed_debvers[i]),
            ),
            available: Seq::new(
                self.available_debvers.len() as nat,
                |i: int| version_view(self.available_debvers[i]),
            ),
            md5sums: Seq::new(self.md5sums.len() as nat, |i: int| text_view(self.md5sums[i])),
            dependencies: Seq::new(
                self.dependencies.len() as nat,
                |i: int| dependencies_view(self.dependencies[i]@),
            ),
        }
    }
}

impl Packages {
    /// The catalog is well formed.
    pub open spec fn wf(&self) -> bool {
        self@.wf()
    }

    /// The state of the checksum verification.
    pub open(crate) spec fn engine(&self) -> AsyncStateView {
        self.async_state@
    }

    /// An empty catalog, with no verification under way.
    pub fn new() -> (r: Packages)
        ensures
            r.wf(),
            r@.len() == 0,
            r.engine().server == default_server(),
            r.engine().pending.len() == 0,
    {
        Packages {
            names: Vec::new(),
            installed_debvers: Vec::new(),
            available_debvers: Vec::new(),
            md5sums: Vec::new(),
            dependencies: Vec::new(),
            async_state: AsyncState::new(),
        }
    }

    /// The number of the package called `package_name`, if the catalog knows it.
    pub fn get_package_num(&self, package_name: &str) -> (r: Option<i32>)
        requires
            self.wf(),
        ensures
            r == self@.num_of(package_name@),
            r matches Some(num) ==> self@.knows(num) && self@.names[num as int] == package_name@,
    {
        let wanted = String::from_str(package_name);
        let mut i: usize = 0;
        while i < self.names.len()
            invariant
                self.wf(),
                i <= self.names.len(),
                wanted@ == package_name@,
                forall|j: int| 0 <= j < i ==> self@.names[j] != package_name@,
            decreases self.names.len() - i,
        {
            if self.names[i] == wanted {
                assert(self@.names[i as int] == package_name@);
                return Some(i as i32);
            }
            i += 1;
        }
        None
    }

    /// Whether the catalog knows a package called `package_name`.
    pub fn package_exists(&self, package_name: &str) -> (r: bool)
        requires
            self.wf(),
        ensures
            r == self@.num_of(package_name@).is_some(),
    {
        self.get_package_num(package_name).is_some()
    }

    /// How many packages the catalog knows.
    pub fn len(&self) -> (r: usize)
        ensures
            r == self@.len(),
    {
        self.names.len()
    }

    /// Whether `package_num` is the number of a package of the catalog.
    pub fn knows(&self, package_num: i32) -> (r: bool)
        ensures
            r == self@.knows(package_num),
    {
        0 <= package_num && (package_num as usize) < self.names.len()
    }

    /// The name of the package with the number `package_num`.
    pub fn get_package_name(&self, package_num: i32) -> (r: Option<&str>)
        ensures
            match r {
                Some(name) => self@.knows(package_num) && name@ == self@.names[package_num as int],
                None => !self@.knows(package_num),
            },
    {
        if self.knows(package_num) {
            Some(self.names[package_num as usize].as_str())
        } else {
            None
        }
    }
}

impl Packages {
    /// The version installed of the package with the number `package_num`.
    pub fn installed_version(&self, package_num: i32) -> (r: Option<&DebianVersionNum>)
        requires
            self.wf(),
            self@.knows(package_num),
        ensures
            version_ref_view(r) == self@.installed[package_num as int],
    {
        self.installed_debvers[package_num as usize].as_ref()
    }

    /// The version available of the package with the number `package_num`.
    pub fn available_version(&self, package_num: i32) -> (r: Option<&DebianVersionNum>)
        requires
            self.wf(),
            self@.knows(package_num),
        ensures
            version_ref_view(r) == self@.available[package_num as int],
    {
        self.available_debvers[package_num as usize].as_ref()
    }

    /// The dependencies of the package with the number `package_num`.
    pub fn dependencies_of(&self, package_num: i32) -> (r: &Vec<Dependency>)
        requires
            self.wf(),
            self@.knows(package_num),
        ensures
            dependencies_view(r@) == self@.dependencies[package_num as int],
    {
        &self.dependencies[package_num as usize]
    }

    /// Of how many packages a version is installed.
    pub fn installed_count(&self) -> (r: usize)
        requires
            self.wf(),
        ensures
            r == count_present(self@.installed, self@.len()),
    {
        let mut count: usize = 0;
        let mut i: usize = 0;
        while i < self.installed_debvers.len()
            invariant
                self.wf(),
                i <= self.installed_debvers.len(),
                count <= i,
                count == count_present(self@.installed, i as int),
            decreases self.installed_debvers.len() - i,
        {
            if self.installed_debvers[i].is_some() {
                count += 1;
            }
            i += 1;
        }
        count
    }

    /// Of how many packages a version is available.
    pub fn available_count(&self) -> (r: usize)
        requires
            self.wf(),
        ensures
            r == count_present(self@.available, self@.len()),
    {
        let mut count: usize = 0;
        let mut i: usize = 0;
        while i < self.available_debvers.len()
            invariant
                self.wf(),
                i <= self.available_debvers.len(),
                count <= i,
                count == count_present(self@.available, i as int),
            decreases self.available_debvers.len() - i,
        {
            if self.available_debvers[i].is_some() {
                count += 1;
            }
            i += 1;
        }
        count
    }

    /// The version installed of the package called `package_name`.
    pub fn get_installed_debver(&self, package_name: &str) -> (r: Option<&DebianVersionNum>)
        requires
            self.wf(),
        ensures
            version_ref_view(r) == self@.installed_of(package_name@),
    {
        match self.get_package_num(package_name) {
            Some(num) => self.installed_version(num),
            None => None,
        }
    }

    /// The version available of the package called `package_name`.
    pub fn get_available_debver(&self, package_name: &str) -> (r: Option<&DebianVersionNum>)
        requires
            self.wf(),
        ensures
            version_ref_view(r) == self@.available_of(package_name@),
    {
        match self.get_package_num(package_name) {
            Some(num) => self.available_version(num),
            None => None,
        }
    }

    /// The checksum of the package called `package_name`.
    pub fn get_md5sum(&self, package_name: &str) -> (r: Option<&str>)
        requires
            self.wf(),
        ensures
            str_view(r) == self@.md5sum_of(package_name@),
    {
        match self.get_package_num(package_name) {
            Some(num) => match &self.md5sums[num as usize] {
                Some(md5sum) => Some(md5sum.as_str()),
                None => None,
            },
            None => None,
        }
    }
}

impl Packages {
    /// The number of the package called `package_name`, which is added to the
    /// catalog, with nothing known of it, if it was not there.
    pub fn get_package_num_inserting(&mut self, package_name: &str) -> (r: i32)
        requires
            old(self).wf(),
            old(self)@.num_of(package_name@) is None ==> old(self)@.len() < i32::MAX,
        ensures
            final(self).wf(),
            final(self).engine() == old(self).engine(),
            final(self)@.num_of(package_name@) == Some(r),
            match old(self)@.num_of(package_name@) {
                Some(num) => r == num && final(self)@ == old(self)@,
                None => r == old(self)@.len() && final(self)@ == old(self)@.with_package(
                    package_name@,
                ),
            },
    {
        match self.get_package_num(package_name) {
            Some(num) => num,
            None => {
                let num = self.names.len() as i32;
                self.names.push(String::from_str(package_name));
                self.installed_debvers.push(None);
                self.available_debvers.push(None);
                self.md5sums.push(None);
                self.dependencies.push(Vec::new());
                proof {
                    let before = old(self)@;
                    let after = self@;
                    let grown = before.with_package(package_name@);
                    assert(after.names =~= grown.names);
                    assert(after.installed =~= grown.installed);
                    assert(after.available =~= grown.available);
                    assert(after.md5sums =~= grown.md5sums);
                    assert(dependencies_view(Seq::<Dependency>::empty()) =~= Seq::empty());
                    assert(after.dependencies =~= grown.dependencies);
                    assert(after.names.no_duplicates()) by {
                        assert forall|i: int, j: int|
                            0 <= i < after.names.len() && 0 <= j < after.names.len() && i
                                != j implies after.names[i] != after.names[j] by {
                            if i < before.names.len() {
                                assert(before.names.contains(after.names[i]));
                            }
                            if j < before.names.len() {
                                assert(before.names.contains(after.names[j]));
                            }
                        }
                    }
                    assert forall|p: int| 0 <= p < after.dependencies.len() implies after.admits_all(
                        #[trigger] after.dependencies[p],
                    ) by {
                        if p < before.dependencies.len() {
                            assert(before.admits_all(before.dependencies[p]));
                            let deps = after.dependencies[p];
                            assert forall|d: int| 0 <= d < deps.len() implies after.admits(
                                #[trigger] deps[d],
                            ) by {
                                assert(before.admits(deps[d]));
                            }
                        }
                    }
                    assert(after.names[num as int] == package_name@);
                }
                num
            },
        }
    }

    /// Records `version` as the installed version of a package.
    pub fn insert_installed_debver(&mut self, package_num: i32, version: DebianVersionNum)
        requires
            old(self).wf(),
            old(self)@.knows(package_num),
        ensures
            final(self).wf(),
            final(self).engine() == old(self).engine(),
            final(self)@ == (CatalogView {
                installed: old(self)@.installed.update(package_num as int, Some(version@)),
                ..old(self)@
            }),
    {
        self.installed_debvers.set(package_num as usize, Some(version));
        assert(self@.installed =~= old(self)@.installed.update(package_num as int, Some(version@)));
    }

    /// Records `version` as the available version of a package.
    pub fn insert_available_debver(&mut self, package_num: i32, version: DebianVersionNum)
        requires
            old(self).wf(),
            old(self)@.knows(package_num),
        ensures
            final(self).wf(),
            final(self).engine() == old(self).engine(),
            final(self)@ == (CatalogView {
                available: old(self)@.available.update(package_num as int, Some(version@)),
                ..old(self)@
            }),
    {
        self.available_debvers.set(package_num as usize, Some(version));
        assert(self@.available =~= old(self)@.available.update(package_num as int, Some(version@)));
    }

    /// Records `md5sum` as the checksum of a package.
    pub fn insert_md5sum(&mut self, package_num: i32, md5sum: &str)
        requires
            old(self).wf(),
            old(self)@.knows(package_num),
        ensures
            final(self).wf(),
            final(self).engine() == old(self).engine(),
            final(self)@ == (CatalogView {
                md5sums: old(self)@.md5sums.update(package_num as int, Some(md5sum@)),
                ..old(self)@
            }),
    {
        self.md5sums.set(package_num as usize, Some(String::from_str(md5sum)));
        assert(self@.md5sums =~= old(self)@.md5sums.update(package_num as int, Some(md5sum@)));
    }

    /// Whether every alternative of every dependency of `deps` names a package
    /// of the catalog, and every dependency has an alternative.
    pub fn admits(&self, deps: &Vec<Dependency>) -> (r: bool)
        requires
            self.wf(),
        ensures
            r == self@.admits_all(dependencies_view(deps@)),
    {
        let ghost views = dependencies_view(deps@);
        let mut d: usize = 0;
        while d < deps.len()
            invariant
                self.wf(),
                d <= deps.len(),
                views == dependencies_view(deps@),
                forall|k: int| 0 <= k < d ==> self@.admits(#[trigger] views[k]),
            decreases deps.len() - d,
        {
            let dep = &deps[d];
            let ghost view = views[d as int];
            if dep.len() == 0 {
                assert(!self@.admits(views[d as int]));
                return false;
            }
            let mut a: usize = 0;
            while a < dep.len()
                invariant
                    self.wf(),
                    a <= dep.len(),
                    d < deps.len(),
                    views == dependencies_view(deps@),
                    view == views[d as int],
                    view == dependency_view(dep@),
                    forall|k: int| 0 <= k < a ==> self@.knows(#[trigger] view[k].package_num),
                decreases dep.len() - a,
            {
                if !self.knows(dep[a].package_num) {
                    assert(!self@.knows(view[a as int].package_num));
                    assert(!self@.admits(views[d as int]));
                    return false;
                }
                a += 1;
            }
            d += 1;
        }
        true
    }

    /// Records `deps` as the dependencies of a package, in place of those it had.
    pub fn insert_dependencies(&mut self, package_num: i32, deps: Vec<Dependency>)
        requires
            old(self).wf(),
            old(self)@.knows(package_num),
            old(self)@.admits_all(dependencies_view(deps@)),
        ensures
            final(self).wf(),
            final(self).engine() == old(self).engine(),
            final(self)@ == (CatalogView {
                dependencies: old(self)@.dependencies.update(
                    package_num as int,
                    dependencies_view(deps@),
                ),
                ..old(self)@
            }),
    {
        let ghost view = dependencies_view(deps@);
        self.dependencies.set(package_num as usize, deps);
        assert(self@.dependencies =~= old(self)@.dependencies.update(package_num as int, view));
    }
}

} // verus!
