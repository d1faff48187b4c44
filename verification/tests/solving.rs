use rpkg::debversion::{DebianVersionNum, VersionRelation};
use rpkg::packages::solvers::CatalogError;
use rpkg::packages::{Dependency, RelVersionedPackageNum};
use rpkg::Packages;

fn v(text: &str) -> DebianVersionNum {
    DebianVersionNum::parse(text).unwrap()
}

fn any(packages: &mut Packages, name: &str) -> RelVersionedPackageNum {
    RelVersionedPackageNum { package_num: packages.get_package_num_inserting(name), rel_version: None }
}

fn at_least(packages: &mut Packages, name: &str, version: &str) -> RelVersionedPackageNum {
    RelVersionedPackageNum {
        package_num: packages.get_package_num_inserting(name),
        rel_version: Some((VersionRelation::GreaterOrEqual, v(version))),
    }
}

fn install(packages: &mut Packages, name: &str, version: &str) {
    let num = packages.get_package_num_inserting(name);
    packages.insert_installed_debver(num, v(version));
}

fn offer(packages: &mut Packages, name: &str, version: &str) {
    let num = packages.get_package_num_inserting(name);
    packages.insert_available_debver(num, v(version));
}

fn depend(packages: &mut Packages, name: &str, deps: Vec<Dependency>) {
    let num = packages.get_package_num_inserting(name);
    assert!(packages.admits(&deps));
    packages.insert_dependencies(num, deps);
}

fn num(packages: &Packages, name: &str) -> i32 {
    packages.get_package_num(name).unwrap()
}

#[test]
fn first_met_alternative_satisfies() {
    let mut p = Packages::new();
    let dep = vec![at_least(&mut p, "a", "2.0"), any(&mut p, "b")];
    install(&mut p, "a", "1.0");
    install(&mut p, "b", "3.0");
    assert_eq!(p.dep_is_satisfied(&dep), Some("b"));
    assert_eq!(p.satisfying_package(&dep), Some(num(&p, "b")));
}

#[test]
fn first_match_wins_over_later_matches() {
    let mut p = Packages::new();
    let dep = vec![any(&mut p, "a"), any(&mut p, "b")];
    install(&mut p, "a", "1.0");
    install(&mut p, "b", "3.0");
    assert_eq!(p.dep_is_satisfied(&dep), Some("a"));
}

#[test]
fn packages_not_installed_are_skipped() {
    let mut p = Packages::new();
    let dep = vec![any(&mut p, "a"), at_least(&mut p, "b", "1.0")];
    assert_eq!(p.dep_is_satisfied(&dep), None);
    install(&mut p, "b", "1.0");
    assert_eq!(p.dep_is_satisfied(&dep), Some("b"));
}

#[test]
fn wrong_version_names_the_installed_alternative() {
    let mut p = Packages::new();
    let dep = vec![at_least(&mut p, "a", "2.0"), any(&mut p, "b")];
    install(&mut p, "a", "1.0");
    assert_eq!(p.dep_is_satisfied(&dep), None);
    assert_eq!(p.dep_satisfied_by_wrong_version(&dep), vec!["a"]);
    assert_eq!(p.wrong_version_packages(&dep), vec![num(&p, "a")]);
}

#[test]
fn wrong_version_keeps_the_listed_order() {
    let mut p = Packages::new();
    let dep =
        vec![at_least(&mut p, "c", "5"), any(&mut p, "x"), at_least(&mut p, "a", "2.0")];
    install(&mut p, "a", "1.0");
    install(&mut p, "c", "4");
    assert_eq!(p.dep_satisfied_by_wrong_version(&dep), vec!["c", "a"]);
}

#[test]
fn closure_follows_first_alternatives_only() {
    let mut p = Packages::new();
    let d1 = vec![any(&mut p, "a"), any(&mut p, "b")];
    let d2 = vec![any(&mut p, "c")];
    depend(&mut p, "root", vec![d1, d2]);
    let d3 = vec![any(&mut p, "d"), any(&mut p, "e")];
    depend(&mut p, "a", vec![d3]);
    let d4 = vec![any(&mut p, "f")];
    depend(&mut p, "b", vec![d4]);
    let expected = vec![num(&p, "a"), num(&p, "c"), num(&p, "d")];
    assert_eq!(p.transitive_dep_solution("root"), expected);
}

#[test]
fn closure_ignores_what_is_installed() {
    let mut p = Packages::new();
    let d1 = vec![any(&mut p, "a")];
    depend(&mut p, "root", vec![d1]);
    install(&mut p, "a", "1.0");
    assert_eq!(p.transitive_dep_solution("root"), vec![num(&p, "a")]);
}

#[test]
fn closure_holds_each_package_once() {
    let mut p = Packages::new();
    let d1 = vec![any(&mut p, "a")];
    let d2 = vec![any(&mut p, "a")];
    let d3 = vec![any(&mut p, "b")];
    depend(&mut p, "root", vec![d1, d2, d3]);
    let d4 = vec![any(&mut p, "c")];
    depend(&mut p, "a", vec![d4]);
    let d5 = vec![any(&mut p, "c")];
    let d6 = vec![any(&mut p, "a")];
    depend(&mut p, "b", vec![d5, d6]);
    let expected = vec![num(&p, "a"), num(&p, "b"), num(&p, "c")];
    assert_eq!(p.transitive_dep_solution("root"), expected);
}

#[test]
fn closure_of_a_cycle_holds_the_root() {
    let mut p = Packages::new();
    let d1 = vec![any(&mut p, "a")];
    depend(&mut p, "root", vec![d1]);
    let d2 = vec![any(&mut p, "root")];
    depend(&mut p, "a", vec![d2]);
    assert_eq!(p.transitive_dep_solution("root"), vec![num(&p, "a"), num(&p, "root")]);
}

#[test]
fn closure_of_a_member_adds_nothing() {
    let mut p = Packages::new();
    let d1 = vec![any(&mut p, "a")];
    depend(&mut p, "root", vec![d1]);
    let d2 = vec![any(&mut p, "b")];
    depend(&mut p, "a", vec![d2]);
    let d3 = vec![any(&mut p, "c")];
    depend(&mut p, "b", vec![d3]);
    let whole = p.transitive_dep_solution("root");
    for name in ["a", "b", "c"] {
        for member in p.transitive_dep_solution(name) {
            assert!(whole.contains(&member));
        }
    }
}

#[test]
fn no_dependencies_give_empty_closure_and_plan() {
    let mut p = Packages::new();
    p.get_package_num_inserting("lonely");
    assert_eq!(p.transitive_dep_solution("lonely"), Vec::<i32>::new());
    assert_eq!(p.compute_how_to_install("lonely"), Ok(vec![]));
}

#[test]
fn unknown_root_gives_empty_closure_and_plan() {
    let p = Packages::new();
    assert_eq!(p.transitive_dep_solution("nowhere"), Vec::<i32>::new());
    assert_eq!(p.compute_how_to_install("nowhere"), Ok(vec![]));
}

#[test]
fn plan_picks_the_highest_available_version() {
    let mut p = Packages::new();
    let dep = vec![any(&mut p, "x"), any(&mut p, "y"), any(&mut p, "z")];
    depend(&mut p, "root", vec![dep]);
    offer(&mut p, "x", "1.0");
    offer(&mut p, "y", "2.5");
    offer(&mut p, "z", "2.0");
    assert_eq!(p.compute_how_to_install("root"), Ok(vec![num(&p, "y")]));
}

#[test]
fn plan_breaks_ties_by_listed_order() {
    let mut p = Packages::new();
    let dep = vec![any(&mut p, "x"), any(&mut p, "y"), any(&mut p, "z")];
    let again = vec![any(&mut p, "x"), any(&mut p, "y"), any(&mut p, "z")];
    depend(&mut p, "root", vec![again]);
    offer(&mut p, "x", "1.0");
    offer(&mut p, "y", "2.0");
    offer(&mut p, "z", "2.0");
    assert_eq!(p.highest_available_alternative(&dep), Ok(num(&p, "y")));
    assert_eq!(p.compute_how_to_install("root"), Ok(vec![num(&p, "y")]));
}

#[test]
fn plan_upgrades_the_one_installed_alternative() {
    let mut p = Packages::new();
    let dep = vec![at_least(&mut p, "x", "2.0"), any(&mut p, "y")];
    let same = vec![at_least(&mut p, "x", "2.0"), any(&mut p, "y")];
    depend(&mut p, "root", vec![dep]);
    install(&mut p, "x", "1.0");
    offer(&mut p, "x", "2.0");
    offer(&mut p, "y", "9.0");
    assert_eq!(p.dep_satisfied_by_wrong_version(&same), vec!["x"]);
    assert_eq!(p.compute_how_to_install("root"), Ok(vec![num(&p, "x")]));
}

#[test]
fn plan_with_two_wrong_versions_goes_by_available_versions() {
    let mut p = Packages::new();
    let dep = vec![
        at_least(&mut p, "x", "2.0"),
        at_least(&mut p, "y", "2.0"),
        any(&mut p, "z"),
    ];
    depend(&mut p, "root", vec![dep]);
    install(&mut p, "x", "1.0");
    install(&mut p, "y", "1.0");
    offer(&mut p, "x", "2.0");
    offer(&mut p, "y", "2.1");
    offer(&mut p, "z", "3.0");
    assert_eq!(p.compute_how_to_install("root"), Ok(vec![num(&p, "z")]));
}

#[test]
fn plan_skips_satisfied_dependencies() {
    let mut p = Packages::new();
    let d1 = vec![any(&mut p, "a")];
    let d2 = vec![any(&mut p, "b")];
    depend(&mut p, "root", vec![d1, d2]);
    install(&mut p, "a", "1.0");
    assert_eq!(p.compute_how_to_install("root"), Ok(vec![num(&p, "b")]));
}

#[test]
fn plan_is_breadth_first_without_repeats_and_without_the_root() {
    let mut p = Packages::new();
    let d1 = vec![any(&mut p, "a")];
    let d2 = vec![any(&mut p, "b")];
    depend(&mut p, "root", vec![d1, d2]);
    let d3 = vec![any(&mut p, "c")];
    let d4 = vec![any(&mut p, "b")];
    depend(&mut p, "a", vec![d3, d4]);
    let d5 = vec![any(&mut p, "root")];
    let d6 = vec![any(&mut p, "d")];
    depend(&mut p, "b", vec![d5, d6]);
    let plan = p.compute_how_to_install("root").unwrap();
    assert_eq!(plan, vec![num(&p, "a"), num(&p, "b"), num(&p, "c"), num(&p, "d")]);
    assert!(!plan.contains(&num(&p, "root")));
}

#[test]
fn plan_is_the_same_when_asked_twice() {
    let mut p = Packages::new();
    let dep = vec![any(&mut p, "x"), any(&mut p, "y")];
    depend(&mut p, "root", vec![dep]);
    offer(&mut p, "x", "1.0");
    offer(&mut p, "y", "1.0-1");
    let first = p.compute_how_to_install("root");
    let second = p.compute_how_to_install("root");
    assert_eq!(first, second);
    assert_eq!(first, Ok(vec![num(&p, "y")]));
}

#[test]
fn plan_members_on_first_alternatives_are_in_the_closure() {
    let mut p = Packages::new();
    let d1 = vec![any(&mut p, "a")];
    let d2 = vec![any(&mut p, "x"), any(&mut p, "y")];
    depend(&mut p, "root", vec![d1, d2]);
    offer(&mut p, "x", "1.0");
    offer(&mut p, "y", "2.0");
    let plan = p.compute_how_to_install("root").unwrap();
    let closure = p.transitive_dep_solution("root");
    assert_eq!(plan, vec![num(&p, "a"), num(&p, "y")]);
    assert_eq!(closure, vec![num(&p, "a"), num(&p, "x")]);
    assert!(closure.contains(&plan[0]));
}

#[test]
fn plan_fails_where_no_version_is_available() {
    let mut p = Packages::new();
    let dep = vec![any(&mut p, "x"), any(&mut p, "y")];
    depend(&mut p, "root", vec![dep]);
    offer(&mut p, "x", "1.0");
    assert_eq!(
        p.compute_how_to_install("root"),
        Err(CatalogError::NoAvailableVersion { package_num: num(&p, "y") })
    );
}

#[test]
fn a_single_alternative_needs_no_available_version() {
    let mut p = Packages::new();
    let dep = vec![any(&mut p, "x")];
    depend(&mut p, "root", vec![dep]);
    assert_eq!(p.compute_how_to_install("root"), Ok(vec![num(&p, "x")]));
}

#[test]
fn dependencies_on_unknown_packages_are_not_admitted() {
    let mut p = Packages::new();
    p.get_package_num_inserting("root");
    let stranger = vec![RelVersionedPackageNum { package_num: 7, rel_version: None }];
    assert!(!p.admits(&vec![stranger]));
    assert!(!p.admits(&vec![vec![]]));
    let known = vec![RelVersionedPackageNum { package_num: 0, rel_version: None }];
    assert!(p.admits(&vec![known]));
}

#[test]
fn names_and_numbers_go_both_ways() {
    let mut p = Packages::new();
    let a = p.get_package_num_inserting("a");
    let b = p.get_package_num_inserting("b");
    assert_eq!((a, b), (0, 1));
    assert_eq!(p.get_package_num_inserting("a"), 0);
    assert_eq!(p.len(), 2);
    assert_eq!(p.get_package_name(1), Some("b"));
    assert_eq!(p.get_package_name(2), None);
    assert_eq!(p.get_package_name(-1), None);
    assert_eq!(p.get_package_num("b"), Some(1));
    assert_eq!(p.get_package_num("c"), None);
    assert!(p.package_exists("a"));
    assert!(!p.package_exists("c"));
}

#[test]
fn deps_available_reports_each_dependency() {
    let mut p = Packages::new();
    let d1 = vec![any(&mut p, "a")];
    let d2 = vec![at_least(&mut p, "b", "2.0"), any(&mut p, "c")];
    depend(&mut p, "root", vec![d1, d2]);
    install(&mut p, "b", "1.0");
    install(&mut p, "c", "0.1");
    assert_eq!(p.deps_available("root"), Some(vec![None, Some(num(&p, "c"))]));
    assert_eq!(p.deps_available("nowhere"), None);
    assert_eq!(p.get_installed_debver("c").map(|v| v.as_str()), Some("0.1"));
    assert_eq!(p.get_installed_debver("a").map(|v| v.as_str()), None);
}

#[test]
fn a_dependency_is_written_as_it_is_read() {
    let mut p = Packages::new();
    let dep = vec![at_least(&mut p, "a", "2.0"), any(&mut p, "b")];
    assert_eq!(p.dep2str(&dep), "a (>= 2.0) | b");
    let single = vec![any(&mut p, "b")];
    assert_eq!(p.dep2str(&single), "b");
}
