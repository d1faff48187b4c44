use rpkg::debversion::VersionRelation;
use rpkg::packages::parsers::{
    alternative_from_groups, key_value_from_groups, read_dependencies, read_dependency, ParseError,
    ParseFailure, Source,
};
use rpkg::Packages;

fn lines(text: &[&str]) -> Vec<String> {
    text.iter().map(|line| line.to_string()).collect()
}

fn group(text: &str) -> Option<String> {
    Some(text.to_string())
}

#[test]
fn installed_file_gives_names_and_versions() {
    let mut p = Packages::new();
    let file = lines(&[
        "Package: adduser",
        "Status: install ok installed",
        "Version: 3.118",
        "",
        "Package: libc6",
        "Version: 2.31-13+deb11u2",
    ]);
    assert_eq!(p.parse_installed(&file), Ok(()));
    assert_eq!(p.len(), 2);
    assert_eq!(p.installed_count(), 2);
    assert_eq!(p.available_count(), 0);
    assert_eq!(p.get_package_num("adduser"), Some(0));
    assert_eq!(p.get_package_num("libc6"), Some(1));
    assert_eq!(p.get_installed_debver("adduser").map(|v| v.as_str()), Some("3.118"));
    assert_eq!(p.get_installed_debver("libc6").map(|v| v.as_str()), Some("2.31-13+deb11u2"));
    assert!(p.get_available_debver("libc6").is_none());
}

#[test]
fn version_values_are_trimmed() {
    let mut p = Packages::new();
    assert_eq!(p.parse_installed(&lines(&["Package: a", "Version:   1.0-1 \t"])), Ok(()));
    assert_eq!(p.get_installed_debver("a").map(|v| v.as_str()), Some("1.0-1"));
}

#[test]
fn installed_file_passes_over_checksums_and_dependencies() {
    let mut p = Packages::new();
    let file = lines(&["Package: a", "MD5sum: 00ff", "Depends: b, c (>= 1_0)", "Version: 1"]);
    assert_eq!(p.parse_installed(&file), Ok(()));
    assert_eq!(p.len(), 1);
    assert_eq!(p.get_md5sum("a"), None);
    assert_eq!(p.dependencies_of(0).len(), 0);
}

#[test]
fn packages_file_gives_versions_checksums_and_dependencies() {
    let mut p = Packages::new();
    let file = lines(&[
        "Package: app",
        "Version: 1:2.0-1",
        "Installed-Size: 12",
        "MD5sum: d41d8cd98f00b204e9800998ecf8427e",
        "Depends: libc6 (>= 2.14), foo | bar (<< 3.0~rc1), app-data (= 1:2.0-1)",
        "Description: something: with a colon",
        " continuation",
        "",
        "Package: foo",
        "Version: 0.9",
    ]);
    assert_eq!(p.parse_packages(&file), Ok(()));
    let names = ["app", "libc6", "foo", "bar", "app-data"];
    for (num, name) in names.iter().enumerate() {
        assert_eq!(p.get_package_num(name), Some(num as i32));
    }
    assert_eq!(p.len(), 5);
    assert_eq!(p.available_count(), 2);
    assert_eq!(p.installed_count(), 0);
    assert_eq!(p.get_available_debver("app").map(|v| v.as_str()), Some("1:2.0-1"));
    assert_eq!(p.get_available_debver("foo").map(|v| v.as_str()), Some("0.9"));
    assert_eq!(p.get_md5sum("app"), Some("d41d8cd98f00b204e9800998ecf8427e"));
    assert_eq!(p.get_md5sum("foo"), None);

    let deps = p.dependencies_of(0);
    assert_eq!(deps.len(), 3);
    assert_eq!(deps[0].len(), 1);
    assert_eq!(deps[0][0].package_num, 1);
    let (rel, version) = deps[0][0].rel_version.as_ref().unwrap();
    assert_eq!((*rel, version.as_str()), (VersionRelation::GreaterOrEqual, "2.14"));
    assert_eq!(deps[1].len(), 2);
    assert_eq!(deps[1][0].package_num, 2);
    assert!(deps[1][0].rel_version.is_none());
    assert_eq!(deps[1][1].package_num, 3);
    let (rel, version) = deps[1][1].rel_version.as_ref().unwrap();
    assert_eq!((*rel, version.as_str()), (VersionRelation::StrictlyLess, "3.0~rc1"));
    assert_eq!(deps[2][0].package_num, 4);
    let (rel, version) = deps[2][0].rel_version.as_ref().unwrap();
    assert_eq!((*rel, version.as_str()), (VersionRelation::Equal, "1:2.0-1"));
    assert_eq!(p.dependencies_of(2).len(), 0);
}

#[test]
fn a_parsed_catalog_can_be_solved() {
    let mut p = Packages::new();
    let available = lines(&[
        "Package: root",
        "Version: 1.0",
        "Depends: x | y | z, w (>= 2.0)",
        "Package: x",
        "Version: 1.0",
        "Package: y",
        "Version: 2.5",
        "Package: z",
        "Version: 2.0",
        "Package: w",
        "Version: 2.0",
    ]);
    assert_eq!(p.parse_packages(&available), Ok(()));
    assert_eq!(p.parse_installed(&lines(&["Package: w", "Version: 1.9"])), Ok(()));
    let num = |name: &str| p.get_package_num(name).unwrap();
    assert_eq!(p.compute_how_to_install("root"), Ok(vec![num("y"), num("w")]));
    assert_eq!(p.transitive_dep_solution("root"), vec![num("x"), num("w")]);
    assert_eq!(p.deps_available("root"), Some(vec![None, None]));
}

#[test]
fn a_later_depends_line_replaces_the_earlier() {
    let mut p = Packages::new();
    let file = lines(&["Package: a", "Depends: b", "Depends: c, d"]);
    assert_eq!(p.parse_packages(&file), Ok(()));
    let deps = p.dependencies_of(0);
    assert_eq!(deps.len(), 2);
    assert_eq!(deps[0][0].package_num, p.get_package_num("c").unwrap());
}

#[test]
fn malformed_version_fails_at_its_line() {
    let mut p = Packages::new();
    let file = lines(&["Package: a", "Version: 1.0", "Package: b", "Version: not a version"]);
    assert_eq!(
        p.parse_packages(&file),
        Err(ParseFailure { line: 3, error: ParseError::MalformedVersion })
    );
    assert_eq!(p.len(), 2);
    assert_eq!(p.get_available_debver("a").map(|v| v.as_str()), Some("1.0"));
    assert!(p.get_available_debver("b").is_none());
}

#[test]
fn a_line_that_fails_leaves_no_trace() {
    let mut p = Packages::new();
    let file = lines(&["Package: a", "Depends: fresh, other (>= 1_0)"]);
    assert_eq!(
        p.parse_packages(&file),
        Err(ParseFailure { line: 1, error: ParseError::MalformedVersion })
    );
    assert_eq!(p.len(), 1);
    assert_eq!(p.get_package_num("fresh"), None);
    assert_eq!(p.dependencies_of(0).len(), 0);
}

#[test]
fn unknown_relation_is_refused() {
    let mut p = Packages::new();
    assert_eq!(
        p.parse_packages(&lines(&["Package: a", "Depends: b (=> 1.0)"])),
        Err(ParseFailure { line: 1, error: ParseError::UnknownRelation })
    );
    assert_eq!(read_dependency("b (< 1.0)").err(), Some(ParseError::UnknownRelation));
}

#[test]
fn a_dependency_without_package_is_refused() {
    let mut p = Packages::new();
    assert_eq!(
        p.parse_packages(&lines(&["Package: a", "Depends: b, , c"])),
        Err(ParseFailure { line: 1, error: ParseError::EmptyDependency })
    );
    assert_eq!(read_dependency("").err(), Some(ParseError::EmptyDependency));
    assert_eq!(read_dependency(" | ").err(), Some(ParseError::EmptyDependency));
    assert_eq!(read_dependencies("a,").err(), Some(ParseError::EmptyDependency));
}

#[test]
fn a_field_before_any_package_is_refused() {
    let mut p = Packages::new();
    assert_eq!(
        p.parse_installed(&lines(&["Version: 1.0"])),
        Err(ParseFailure { line: 0, error: ParseError::FieldBeforePackage })
    );
    let mut q = Packages::new();
    assert_eq!(
        q.parse_packages(&lines(&["Origin: x", "MD5sum: 00"])),
        Err(ParseFailure { line: 1, error: ParseError::FieldBeforePackage })
    );
    let mut r = Packages::new();
    assert_eq!(r.parse_installed(&lines(&["MD5sum: 00", "no field here"])), Ok(()));
}

#[test]
fn fields_are_taken_one_by_one() {
    let mut p = Packages::new();
    let current = p.note_field(Source::Available, None, "Package", "a");
    assert_eq!(current, Ok(Some(0)));
    assert_eq!(p.note_field(Source::Available, Some(0), "MD5sum", "abc"), Ok(Some(0)));
    assert_eq!(p.note_field(Source::Installed, Some(0), "MD5sum", "def"), Ok(Some(0)));
    assert_eq!(p.get_md5sum("a"), Some("abc"));
    assert_eq!(p.note_field(Source::Installed, Some(0), "Version", " 2 "), Ok(Some(0)));
    assert_eq!(p.get_installed_debver("a").map(|v| v.as_str()), Some("2"));
    assert_eq!(p.note_field(Source::Available, Some(0), "Package", "a"), Ok(Some(0)));
    assert_eq!(p.note_field(Source::Available, Some(0), "Package", "b"), Ok(Some(1)));
    assert_eq!(p.note_field(Source::Available, Some(1), "Other", "x"), Ok(Some(1)));
    assert_eq!(p.note_line(Source::Available, Some(1), "Version: 3"), Ok(Some(1)));
    assert_eq!(p.note_line(Source::Available, Some(1), "nothing to see"), Ok(Some(1)));
    assert_eq!(p.get_available_debver("b").map(|v| v.as_str()), Some("3"));
}

#[test]
fn one_dependency_is_read_from_its_text() {
    let dep = read_dependency("libfoo1 (>= 1.2-3) | libfoo-compat | c++ (>> 0)").unwrap();
    assert_eq!(dep.len(), 3);
    assert_eq!(dep[0].name, "libfoo1");
    let (rel, version) = dep[0].rel_version.as_ref().unwrap();
    assert_eq!((*rel, version.as_str()), (VersionRelation::GreaterOrEqual, "1.2-3"));
    assert_eq!(dep[1].name, "libfoo-compat");
    assert!(dep[1].rel_version.is_none());
    assert_eq!(dep[2].name, "c++");
    let (rel, version) = dep[2].rel_version.as_ref().unwrap();
    assert_eq!((*rel, version.as_str()), (VersionRelation::StrictlyGreater, "0"));
}

#[test]
fn dependencies_are_split_at_commas() {
    let deps = read_dependencies("a, b | c,d").unwrap();
    assert_eq!(deps.len(), 3);
    assert_eq!(deps[1].len(), 2);
    assert_eq!(deps[1][1].name, "c");
    assert_eq!(deps[2][0].name, "d");
}

#[test]
fn groups_stand_for_keys_values_and_alternatives() {
    let line = vec![group("k: v"), group("k"), group("k"), group("v")];
    assert_eq!(key_value_from_groups(&line), Some(("k", "v")));
    assert_eq!(key_value_from_groups(&line[..3].to_vec()), None);
    let bare = vec![group("a"), group("a"), group("a"), None, None, None, None, None];
    let found = alternative_from_groups(&bare).unwrap().unwrap();
    assert_eq!(found.name, "a");
    assert!(found.rel_version.is_none());
    let short = vec![group("a"), group("a")];
    assert!(alternative_from_groups(&short).unwrap().is_none());
    let nameless = vec![group("a"), None, None, None, None, None, None, None];
    assert!(alternative_from_groups(&nameless).unwrap().is_none());
    let versioned = vec![
        group("a (<= 1)"),
        group("a"),
        group("a"),
        group(" (<= 1)"),
        group("<="),
        group("<"),
        group("="),
        group("1"),
    ];
    let found = alternative_from_groups(&versioned).unwrap().unwrap();
    let (rel, version) = found.rel_version.as_ref().unwrap();
    assert_eq!((*rel, version.as_str()), (VersionRelation::LessOrEqual, "1"));
    let mut no_version = versioned.clone();
    no_version[7] = None;
    assert_eq!(alternative_from_groups(&no_version).err(), Some(ParseError::MalformedVersion));
}
