//! Reading the catalog from the lines of package control files.
//!
//! A line that holds `key: value` sets a field of the package that the last
//! `Package` line named. Other lines are passed over.

use vstd::prelude::*;
use vstd::string::*;
use crate::debversion::{debian_version_parts, DebianVersionNum, VersionRelation, VersionView};
use crate::packages::{
    dependencies_view, dependency_view, text_view, AlternativeView, CatalogView, Dependency, Packages,
    RelVersionedPackageNum,
};

verus! {

/// The pattern of a line that sets a field.
pub const KEYVAL_REGEX: &'static str = r"(?P<key>(\w|-)+): (?P<value>.+)";

/// The pattern of one alternative of a dependency: a package, and perhaps a
/// relation and a version in brackets.
pub const PKGNAME_AND_VERSION_REGEX: &'static str =
    r"(?P<pkg>(\w|\.|\+|-)+)( \((?P<op>(<|=|>)(<|=|>)?) (?P<ver>.*)\))?";

/// Why a line could not be taken into the catalog.
#[derive(Clone, Copy, Debug, PartialEq, Eq, Structural)]
pub enum ParseError {
    /// The catalog cannot number more packages.
    CatalogFull,
    /// A version is no Debian version.
    MalformedVersion,
    /// A relation is none of `<<`, `<=`, `=`, `>=`, `>>`.
    UnknownRelation,
    /// A dependency names no package.
    EmptyDependency,
    /// A field came before any `Package` line.
    FieldBeforePackage,
}

/// The line that could not be taken, counted from 0, and why.
#[derive(Clone, Copy, Debug, PartialEq, Eq, Structural)]
pub struct ParseFailure {
    pub line: usize,
    pub error: ParseError,
}

/// What `regex` captures of `text` with `pattern`: `None` where the pattern
/// is refused or matches nowhere; else, for each group of the pattern, the
/// whole match being the first, the text it took part with, if it took part.
pub uninterp spec fn regex_groups(pattern: Seq<char>, text: Seq<char>) -> Option<Seq<Option<Seq<char>>>>;

/// What std's `str::trim` leaves of a text.
pub uninterp spec fn trimmed(text: Seq<char>) -> Seq<char>;

/// The pieces between the occurrences of `separator` in `text`: one more
/// than there are occurrences, none holding the separator.
pub open spec fn split_seq(text: Seq<char>, separator: char) -> Seq<Seq<char>>
    decreases text.len(),
{
    if text.len() == 0 {
        seq![Seq::empty()]
    } else {
        let before = split_seq(text.drop_last(), separator);
        if text.last() == separator {
            before.push(Seq::empty())
        } else {
            before.update(before.len() - 1, before.last().push(text.last()))
        }
    }
}

/// Texts as the contracts see them.
pub open spec fn texts_view(texts: Seq<String>) -> Seq<Seq<char>> {
    Seq::new(texts.len(), |i: int| texts[i]@)
}

/// Captured groups as the contracts see them.
pub open spec fn groups_view(groups: Seq<Option<String>>) -> Seq<Option<Seq<char>>> {
    Seq::new(groups.len(), |i: int| text_view(groups[i]))
}

/// The outcome of a search as the contracts see it.
pub open spec fn captures_view(captures: Option<Vec<Option<String>>>) -> Option<Seq<Option<Seq<char>>>> {
    match captures {
        Some(groups) => Some(groups_view(groups@)),
        None => None,
    }
}

/// Compiles `pattern` with `regex::Regex::new`, searches `text` with
/// `Regex::captures`, and hands out the text of each group. Claimed: the
/// outcome is a function of pattern and text.
#[verifier::external_body]
fn regex_captures(pattern: &str, text: &str) -> (r: Option<Vec<Option<String>>>)
    ensures
        captures_view(r) == regex_groups(pattern@, text@),
{
    let found = regex::Regex::new(pattern).ok()?.captures(text)?;
    Some(found.iter().map(|group| group.map(|m| m.as_str().to_string())).collect())
}

/// Splits with std's `str::split` at a character, which yields the pieces
/// between the character's occurrences, empty ones too.
#[verifier::external_body]
fn split_on(text: &str, separator: char) -> (r: Vec<String>)
    ensures
        texts_view(r@) == split_seq(text@, separator),
{
    text.split(separator).map(|piece| piece.to_string()).collect()
}

/// Trims with std's `str::trim`, which drops white space at both ends.
/// Claimed: what is left is a function of the text.
#[verifier::external_body]
fn trim(text: &str) -> (r: &str)
    ensures
        r@ == trimmed(text@),
{
    text.trim()
}

/// An alternative as it was read: the package by its name.
pub struct ParsedAlternative {
    pub name: String,
    pub rel_version: Option<(VersionRelation, DebianVersionNum)>,
}

/// An alternative as it was read as the contracts see it.
pub struct ParsedAlternativeView {
    pub name: Seq<char>,
    pub rel_version: Option<(VersionRelation, VersionView)>,
}

impl View for ParsedAlternative {
    type V = ParsedAlternativeView;

    open spec fn view(&self) -> ParsedAlternativeView {
        ParsedAlternativeView {
            name: self.name@,
            rel_version: match self.rel_version {
                Some((rel, version)) => Some((rel, version@)),
                None => None,
            },
        }
    }
}

/// A dependency as it was read, as the contracts see it.
pub open spec fn parsed_view(dep: Seq<ParsedAlternative>) -> Seq<ParsedAlternativeView> {
    Seq::new(dep.len(), |i: int| dep[i]@)
}

/// Dependencies as they were read, as the contracts see them.
pub open spec fn parsed_all_view(deps: Seq<Vec<ParsedAlternative>>) -> Seq<Seq<ParsedAlternativeView>> {
    Seq::new(deps.len(), |i: int| parsed_view(deps[i]@))
}

/// The key and the value of a line, if its captured groups hold both.
pub open spec fn key_value_of(groups: Seq<Option<Seq<char>>>) -> Option<(Seq<char>, Seq<char>)> {
    if groups.len() < 4 {
        None
    } else {
        match (groups[1], groups[3]) {
            (Some(key), Some(value)) => Some((key, value)),
            _ => None,
        }
    }
}

/// The key and the value of a line that sets a field.
pub open spec fn key_value(line: Seq<char>) -> Option<(Seq<char>, Seq<char>)> {
    match regex_groups(KEYVAL_REGEX@, line) {
        Some(groups) => key_value_of(groups),
        None => None,
    }
}

/// The version that a text stands for.
pub open spec fn version_of(text: Seq<char>) -> Option<VersionView> {
    match debian_version_parts(text) {
        Some(parts) => Some(VersionView { text, parts }),
        None => None,
    }
}

/// The alternative that captured groups stand for: the package's name is
/// the second group, the relation the fifth, the version the eighth. `None`
/// where they name no package.
pub open spec fn alternative_of(groups: Seq<Option<Seq<char>>>) -> Result<
    Option<ParsedAlternativeView>,
    ParseError,
> {
    if groups.len() < 8 {
        Ok(None)
    } else {
        match groups[1] {
            None => Ok(None),
            Some(name) => match groups[4] {
                None => Ok(Some(ParsedAlternativeView { name, rel_version: None })),
                Some(symbol) => match VersionRelation::of_symbol(symbol) {
                    None => Err(ParseError::UnknownRelation),
                    Some(rel) => match groups[7] {
                        None => Err(ParseError::MalformedVersion),
                        Some(text) => match version_of(text) {
                            None => Err(ParseError::MalformedVersion),
                            Some(version) => Ok(
                                Some(ParsedAlternativeView { name, rel_version: Some((rel, version)) }),
                            ),
                        },
                    },
                },
            },
        }
    }
}

/// The alternative that a text stands for, `None` where it names no package.
pub open spec fn alternative_text(text: Seq<char>) -> Result<Option<ParsedAlternativeView>, ParseError> {
    match regex_groups(PKGNAME_AND_VERSION_REGEX@, text) {
        Some(groups) => alternative_of(groups),
        None => Ok(None),
    }
}

/// The alternatives that the first `upto` of `pieces` stand for.
pub open spec fn alternatives_of(pieces: Seq<Seq<char>>, upto: int) -> Result<
    Seq<ParsedAlternativeView>,
    ParseError,
>
    decreases upto,
{
    if upto <= 0 {
        Ok(Seq::empty())
    } else {
        match alternatives_of(pieces, upto - 1) {
            Err(e) => Err(e),
            Ok(before) => match alternative_text(pieces[upto - 1]) {
                Err(e) => Err(e),
                Ok(None) => Ok(before),
                Ok(Some(alternative)) => Ok(before.push(alternative)),
            },
        }
    }
}

/// The dependency that a text stands for: its alternatives stand between `|`.
pub open spec fn dependency_of(text: Seq<char>) -> Result<Seq<ParsedAlternativeView>, ParseError> {
    let pieces = split_seq(text, '|');
    match alternatives_of(pieces, pieces.len() as int) {
        Err(e) => Err(e),
        Ok(alternatives) => if alternatives.len() == 0 {
            Err(ParseError::EmptyDependency)
        } else {
            Ok(alternatives)
        },
    }
}

/// The dependencies that the first `upto` of `pieces` stand for.
pub open spec fn dependencies_upto(pieces: Seq<Seq<char>>, upto: int) -> Result<
    Seq<Seq<ParsedAlternativeView>>,
    ParseError,
>
    decreases upto,
{
    if upto <= 0 {
        Ok(Seq::empty())
    } else {
        match dependencies_upto(pieces, upto - 1) {
            Err(e) => Err(e),
            Ok(before) => match dependency_of(pieces[upto - 1]) {
                Err(e) => Err(e),
                Ok(dep) => Ok(before.push(dep)),
            },
        }
    }
}

/// The dependencies that the value of a `Depends` field stands for: they
/// stand between commas.
pub open spec fn dependencies_of(value: Seq<char>) -> Result<Seq<Seq<ParsedAlternativeView>>, ParseError> {
    let pieces = split_seq(value, ',');
    dependencies_upto(pieces, pieces.len() as int)
}

/// The key and the value that the groups captured of a line hold.
pub fn key_value_from_groups(groups: &Vec<Option<String>>) -> (r: Option<(&str, &str)>)
    ensures
        match key_value_of(groups_view(groups@)) {
            Some((key, value)) => r matches Some(found) && found.0@ == key && found.1@ == value,
            None => r is None,
        },
{
    if groups.len() < 4 {
        return None;
    }
    match (&groups[1], &groups[3]) {
        (Some(key), Some(value)) => Some((key.as_str(), value.as_str())),
        _ => None,
    }
}

/// The alternative that the groups captured of a text stand for.
pub fn alternative_from_groups(groups: &Vec<Option<String>>) -> (r: Result<
    Option<ParsedAlternative>,
    ParseError,
>)
    ensures
        match alternative_of(groups_view(groups@)) {
            Ok(Some(alternative)) => r matches Ok(Some(found)) && found@ == alternative,
            Ok(None) => r matches Ok(None),
            Err(e) => r matches Err(found) && found == e,
        },
{
    if groups.len() < 8 {
        return Ok(None);
    }
    let name = match &groups[1] {
        Some(name) => name.clone(),
        None => {
            return Ok(None);
        },
    };
    let symbol = match &groups[4] {
        Some(symbol) => symbol,
        None => {
            return Ok(Some(ParsedAlternative { name, rel_version: None }));
        },
    };
    let rel = match VersionRelation::parse(symbol.as_str()) {
        Some(rel) => rel,
        None => {
            return Err(ParseError::UnknownRelation);
        },
    };
    let text = match &groups[7] {
        Some(text) => text,
        None => {
            return Err(ParseError::MalformedVersion);
        },
    };
    match DebianVersionNum::parse(text.as_str()) {
        Some(version) => Ok(Some(ParsedAlternative { name, rel_version: Some((rel, version)) })),
        None => Err(ParseError::MalformedVersion),
    }
}

/// Reads one dependency: alternatives between `|`, each a package's name,
/// and perhaps a relation and a version in brackets.
pub fn read_dependency(text: &str) -> (r: Result<Vec<ParsedAlternative>, ParseError>)
    ensures
        match dependency_of(text@) {
            Ok(dep) => r matches Ok(found) && parsed_view(found@) == dep,
            Err(e) => r matches Err(found) && found == e,
        },
{
    let pieces = split_on(text, '|');
    let ghost views = texts_view(pieces@);
    let mut alternatives: Vec<ParsedAlternative> = Vec::new();
    let mut i: usize = 0;
    while i < pieces.len()
        invariant
            i <= pieces.len(),
            views == texts_view(pieces@),
            views == split_seq(text@, '|'),
            alternatives_of(views, i as int) matches Ok(before) && parsed_view(alternatives@) == before,
        decreases pieces.len() - i,
    {
        let found = match regex_captures(PKGNAME_AND_VERSION_REGEX, pieces[i].as_str()) {
            Some(groups) => alternative_from_groups(&groups),
            None => Ok(None),
        };
        match found {
            Ok(Some(alternative)) => {
                let ghost before = parsed_view(alternatives@);
                alternatives.push(alternative);
                assert(parsed_view(alternatives@) =~= before.push(alternative@));
            },
            Ok(None) => {},
            Err(e) => {
                proof {
                    lemma_alternatives_fault(views, i as int + 1);
                }
                return Err(e);
            },
        }
        i += 1;
    }
    if alternatives.len() == 0 {
        Err(ParseError::EmptyDependency)
    } else {
        Ok(alternatives)
    }
}

/// Reads the value of a `Depends` field: dependencies between commas.
pub fn read_dependencies(value: &str) -> (r: Result<Vec<Vec<ParsedAlternative>>, ParseError>)
    ensures
        match dependencies_of(value@) {
            Ok(deps) => r matches Ok(found) && parsed_all_view(found@) == deps,
            Err(e) => r matches Err(found) && found == e,
        },
{
    let pieces = split_on(value, ',');
    let ghost views = texts_view(pieces@);
    let mut deps: Vec<Vec<ParsedAlternative>> = Vec::new();
    let mut i: usize = 0;
    while i < pieces.len()
        invariant
            i <= pieces.len(),
            views == texts_view(pieces@),
            views == split_seq(value@, ','),
            dependencies_upto(views, i as int) matches Ok(before) && parsed_all_view(deps@) == before,
        decreases pieces.len() - i,
    {
        match read_dependency(pieces[i].as_str()) {
            Ok(dep) => {
                let ghost before = parsed_all_view(deps@);
                let ghost view = parsed_view(dep@);
                deps.push(dep);
                assert(parsed_all_view(deps@) =~= before.push(view));
            },
            Err(e) => {
                proof {
                    lemma_dependencies_fault(views, i as int + 1);
                }
                return Err(e);
            },
        }
        i += 1;
    }
    Ok(deps)
}

/// A fault among the first alternatives is the fault of them all.
pub proof fn lemma_alternatives_fault(pieces: Seq<Seq<char>>, upto: int)
    requires
        0 <= upto <= pieces.len(),
        alternatives_of(pieces, upto) is Err,
    ensures
        alternatives_of(pieces, pieces.len() as int) == alternatives_of(pieces, upto),
    decreases pieces.len() - upto,
{
    if upto < pieces.len() {
        lemma_alternatives_fault(pieces, upto + 1);
    }
}

/// A fault among the first dependencies is the fault of them all.
pub proof fn lemma_dependencies_fault(pieces: Seq<Seq<char>>, upto: int)
    requires
        0 <= upto <= pieces.len(),
        dependencies_upto(pieces, upto) is Err,
    ensures
        dependencies_upto(pieces, pieces.len() as int) == dependencies_upto(pieces, upto),
    decreases pieces.len() - upto,
{
    if upto < pieces.len() {
        lemma_dependencies_fault(pieces, upto + 1);
    }
}

/// The file that lines come from.
#[derive(Clone, Copy, Debug, PartialEq, Eq, Structural)]
pub enum Source {
    /// The packages that are installed: `Version` is the installed version.
    Installed,
    /// The packages that can be had: `Version` is the available version, and
    /// `MD5sum` and `Depends` are read too.
    Available,
}

/// How many alternatives the first `upto` dependencies have together.
pub open spec fn total_alternatives(deps: Seq<Seq<ParsedAlternativeView>>, upto: int) -> int
    decreases upto,
{
    if upto <= 0 {
        0
    } else {
        total_alternatives(deps, upto - 1) + deps[upto - 1].len()
    }
}

impl CatalogView {
    /// The catalog with a package called `name`, added if it was not there.
    pub open spec fn with_name(self, name: Seq<char>) -> CatalogView {
        if self.names.contains(name) {
            self
        } else {
            self.with_package(name)
        }
    }

    /// The catalog with the packages that the first `upto` alternatives
    /// name, and the alternatives with the packages' numbers.
    pub open spec fn with_alternatives(self, dep: Seq<ParsedAlternativeView>, upto: int) -> (
        CatalogView,
        Seq<AlternativeView>,
    )
        decreases upto,
    {
        if upto <= 0 {
            (self, Seq::empty())
        } else {
            let (before, numbered) = self.with_alternatives(dep, upto - 1);
            let grown = before.with_name(dep[upto - 1].name);
            (
                grown,
                numbered.push(
                    AlternativeView {
                        package_num: grown.num_of(dep[upto - 1].name).unwrap(),
                        rel_version: dep[upto - 1].rel_version,
                    },
                ),
            )
        }
    }

    /// The catalog with the packages that the first `upto` dependencies
    /// name, and the dependencies with the packages' numbers.
    pub open spec fn with_dependencies(self, deps: Seq<Seq<ParsedAlternativeView>>, upto: int) -> (
        CatalogView,
        Seq<Seq<AlternativeView>>,
    )
        decreases upto,
    {
        if upto <= 0 {
            (self, Seq::empty())
        } else {
            let (before, numbered) = self.with_dependencies(deps, upto - 1);
            let (grown, dep) = before.with_alternatives(deps[upto - 1], deps[upto - 1].len() as int);
            (grown, numbered.push(dep))
        }
    }

    /// The catalog after a `Package` line, and the number of the package named.
    pub open spec fn package_named(self, name: Seq<char>) -> Result<(CatalogView, Option<i32>), ParseError> {
        match self.num_of(name) {
            Some(num) => Ok((self, Some(num))),
            None => if self.len() >= i32::MAX {
                Err(ParseError::CatalogFull)
            } else {
                Ok((self.with_package(name), Some(self.len() as i32)))
            },
        }
    }

    /// The catalog after a `Depends` field of the package `num`.
    pub open spec fn depends_set(self, num: i32, value: Seq<char>) -> Result<CatalogView, ParseError> {
        match dependencies_of(value) {
            Err(e) => Err(e),
            Ok(deps) => if self.len() + total_alternatives(deps, deps.len() as int) > i32::MAX {
                Err(ParseError::CatalogFull)
            } else {
                let (grown, numbered) = self.with_dependencies(deps, deps.len() as int);
                Ok(CatalogView { dependencies: grown.dependencies.update(num as int, numbered), ..grown })
            },
        }
    }

    /// The catalog after a field of the package `num` but `Package`.
    pub open spec fn field_set(self, source: Source, num: i32, key: Seq<char>, value: Seq<char>) -> Result<
        CatalogView,
        ParseError,
    > {
        if key == "Version"@ {
            match version_of(trimmed(value)) {
                None => Err(ParseError::MalformedVersion),
                Some(version) => Ok(
                    match source {
                        Source::Installed => CatalogView {
                            installed: self.installed.update(num as int, Some(version)),
                            ..self
                        },
                        Source::Available => CatalogView {
                            available: self.available.update(num as int, Some(version)),
                            ..self
                        },
                    },
                ),
            }
        } else if source == Source::Available && key == "MD5sum"@ {
            Ok(CatalogView { md5sums: self.md5sums.update(num as int, Some(value)), ..self })
        } else if source == Source::Available && key == "Depends"@ {
            self.depends_set(num, value)
        } else {
            Ok(self)
        }
    }

    /// Whether a file of this kind reads the field.
    pub open spec fn reads(source: Source, key: Seq<char>) -> bool {
        ||| key == "Version"@
        ||| source == Source::Available && key == "MD5sum"@
        ||| source == Source::Available && key == "Depends"@
    }

    /// The catalog and the current package after a field, where `current`
    /// is the package that the last `Package` line named.
    pub open spec fn after_field(
        self,
        source: Source,
        current: Option<i32>,
        key: Seq<char>,
        value: Seq<char>,
    ) -> Result<(CatalogView, Option<i32>), ParseError> {
        if key == "Package"@ {
            self.package_named(value)
        } else if Self::reads(source, key) {
            match current {
                None => Err(ParseError::FieldBeforePackage),
                Some(num) => match self.field_set(source, num, key, value) {
                    Ok(catalog) => Ok((catalog, current)),
                    Err(e) => Err(e),
                },
            }
        } else {
            Ok((self, current))
        }
    }

    /// The catalog and the current package after a line.
    pub open spec fn after_line(self, source: Source, current: Option<i32>, line: Seq<char>) -> Result<
        (CatalogView, Option<i32>),
        ParseError,
    > {
        match key_value(line) {
            Some((key, value)) => self.after_field(source, current, key, value),
            None => Ok((self, current)),
        }
    }

    /// The catalog and the current package after the first `upto` lines,
    /// or the first line that could not be taken.
    pub open spec fn after_lines(self, source: Source, lines: Seq<Seq<char>>, upto: int) -> Result<
        (CatalogView, Option<i32>),
        ParseFailure,
    >
        decreases upto,
    {
        if upto <= 0 {
            Ok((self, None))
        } else {
            match self.after_lines(source, lines, upto - 1) {
                Err(failure) => Err(failure),
                Ok((catalog, current)) => match catalog.after_line(source, current, lines[upto - 1]) {
                    Ok(state) => Ok(state),
                    Err(error) => Err(ParseFailure { line: (upto - 1) as usize, error }),
                },
            }
        }
    }

    /// A failure among the first lines is the failure of them all.
    pub proof fn lemma_lines_failure(self, source: Source, lines: Seq<Seq<char>>, upto: int)
        requires
            0 <= upto <= lines.len(),
            self.after_lines(source, lines, upto) is Err,
        ensures
            self.after_lines(source, lines, lines.len() as int) == self.after_lines(source, lines, upto),
        decreases lines.len() - upto,
    {
        if upto < lines.len() {
            self.lemma_lines_failure(source, lines, upto + 1);
        }
    }
}

/// Whether two texts are the same.
fn same_text(a: &str, b: &str) -> (r: bool)
    ensures
        r == (a@ == b@),
{
    String::from_str(a) == String::from_str(b)
}

impl Packages {
    /// Gives each alternative of `dep` its package's number; a package that
    /// the catalog did not know is added.
    pub fn number_dependency(&mut self, dep: &Vec<ParsedAlternative>) -> (r: Dependency)
        requires
            old(self).wf(),
            old(self)@.len() + dep.len() <= i32::MAX,
        ensures
            final(self).wf(),
            final(self).engine() == old(self).engine(),
            (final(self)@, dependency_view(r@)) == old(self)@.with_alternatives(
                parsed_view(dep@),
                dep.len() as int,
            ),
            r.len() == dep.len(),
            old(self)@.len() <= final(self)@.len() <= old(self)@.len() + dep.len(),
            forall|a: int| 0 <= a < r.len() ==> final(self)@.knows(#[trigger] r[a].package_num),
    {
        let ghost parsed = parsed_view(dep@);
        let ghost start = self@;
        let mut numbered: Dependency = Vec::new();
        let mut i: usize = 0;
        while i < dep.len()
            invariant
                self.wf(),
                self.engine() == old(self).engine(),
                start == old(self)@,
                parsed == parsed_view(dep@),
                i <= dep.len(),
                numbered.len() == i,
                start.len() <= self@.len() <= start.len() + i,
                start.len() + dep.len() <= i32::MAX,
                (self@, dependency_view(numbered@)) == start.with_alternatives(parsed, i as int),
                forall|a: int| 0 <= a < numbered.len() ==> self@.knows(#[trigger] numbered[a].package_num),
            decreases dep.len() - i,
        {
            let ghost before = dependency_view(numbered@);
            let package_num = self.get_package_num_inserting(dep[i].name.as_str());
            let rel_version = match &dep[i].rel_version {
                Some((rel, version)) => Some((*rel, version.duplicate())),
                None => None,
            };
            let alternative = RelVersionedPackageNum { package_num, rel_version };
            numbered.push(alternative);
            proof {
                assert(alternative@.rel_version == parsed[i as int].rel_version);
                assert(dependency_view(numbered@) =~= before.push(alternative@));
            }
            i += 1;
        }
        numbered
    }

    /// Gives each alternative of each dependency its package's number; a
    /// package that the catalog did not know is added.
    pub fn number_dependencies(&mut self, deps: &Vec<Vec<ParsedAlternative>>) -> (r: Vec<Dependency>)
        requires
            old(self).wf(),
            old(self)@.len() + total_alternatives(parsed_all_view(deps@), deps.len() as int) <= i32::MAX,
            forall|d: int| 0 <= d < deps.len() ==> (#[trigger] deps[d]).len() > 0,
        ensures
            final(self).wf(),
            final(self).engine() == old(self).engine(),
            (final(self)@, dependencies_view(r@)) == old(self)@.with_dependencies(
                parsed_all_view(deps@),
                deps.len() as int,
            ),
            old(self)@.len() <= final(self)@.len(),
            final(self)@.admits_all(dependencies_view(r@)),
    {
        let ghost parsed = parsed_all_view(deps@);
        let ghost start = self@;
        let ghost total = total_alternatives(parsed, deps.len() as int);
        let mut numbered: Vec<Dependency> = Vec::new();
        let mut i: usize = 0;
        while i < deps.len()
            invariant
                self.wf(),
                self.engine() == old(self).engine(),
                start == old(self)@,
                parsed == parsed_all_view(deps@),
                total == total_alternatives(parsed, deps.len() as int),
                i <= deps.len(),
                numbered.len() == i,
                start.len() <= self@.len() <= start.len() + total_alternatives(parsed, i as int),
                start.len() + total <= i32::MAX,
                forall|d: int| 0 <= d < deps.len() ==> (#[trigger] deps[d]).len() > 0,
                (self@, dependencies_view(numbered@)) == start.with_dependencies(parsed, i as int),
                self@.admits_all(dependencies_view(numbered@)),
            decreases deps.len() - i,
        {
            let ghost before = dependencies_view(numbered@);
            let ghost catalog = self@;
            proof {
                lemma_total_grows(parsed, i as int + 1, deps.len() as int);
                assert(parsed[i as int].len() == deps[i as int].len());
            }
            let dep = self.number_dependency(&deps[i]);
            let ghost view = dependency_view(dep@);
            numbered.push(dep);
            proof {
                assert(dependencies_view(numbered@) =~= before.push(view));
                assert forall|d: int| 0 <= d < numbered.len() implies self@.admits(
                    #[trigger] dependencies_view(numbered@)[d],
                ) by {
                    if d < i {
                        assert(catalog.admits(before[d]));
                        assert(dependencies_view(numbered@)[d] == before[d]);
                    } else {
                        assert(dependencies_view(numbered@)[d] == view);
                    }
                }
            }
            i += 1;
        }
        numbered
    }

    /// Whether the catalog can number a package for every alternative of `deps`.
    pub fn has_room_for(&self, deps: &Vec<Vec<ParsedAlternative>>) -> (r: bool)
        requires
            self.wf(),
        ensures
            r == (self@.len() + total_alternatives(parsed_all_view(deps@), deps.len() as int) <= i32::MAX),
    {
        let ghost parsed = parsed_all_view(deps@);
        let mut room: usize = 0x7fff_ffff - self.len();
        let mut i: usize = 0;
        while i < deps.len()
            invariant
                self.wf(),
                parsed == parsed_all_view(deps@),
                i <= deps.len(),
                room == i32::MAX - self@.len() - total_alternatives(parsed, i as int),
            decreases deps.len() - i,
        {
            proof {
                lemma_total_grows(parsed, i as int + 1, deps.len() as int);
                assert(parsed[i as int].len() == deps[i as int].len());
            }
            if deps[i].len() > room {
                return false;
            }
            room -= deps[i].len();
            i += 1;
        }
        true
    }
}

/// The more dependencies, the more alternatives.
pub proof fn lemma_total_grows(deps: Seq<Seq<ParsedAlternativeView>>, upto: int, later: int)
    requires
        0 <= upto <= later,
    ensures
        0 <= total_alternatives(deps, upto) <= total_alternatives(deps, later),
    decreases later,
{
    if upto < later {
        lemma_total_grows(deps, upto, later - 1);
    } else if upto > 0 {
        lemma_total_grows(deps, upto - 1, later - 1);
    }
}

/// Every dependency that was read has an alternative.
pub proof fn lemma_dependencies_not_empty(pieces: Seq<Seq<char>>, upto: int)
    ensures
        dependencies_upto(pieces, upto) matches Ok(deps) ==> forall|d: int|
            0 <= d < deps.len() ==> (#[trigger] deps[d]).len() > 0,
    decreases upto,
{
    if upto > 0 {
        lemma_dependencies_not_empty(pieces, upto - 1);
    }
}

impl Packages {
    /// Takes one field into the catalog, where `current` is the package that
    /// the last `Package` line named. It hands out the package that is
    /// current afterwards. A field that cannot be taken leaves the catalog
    /// as it was.
    pub fn note_field(&mut self, source: Source, current: Option<i32>, key: &str, value: &str) -> (r:
        Result<Option<i32>, ParseError>)
        requires
            old(self).wf(),
            current matches Some(num) ==> old(self)@.knows(num),
        ensures
            final(self).wf(),
            final(self).engine() == old(self).engine(),
            match old(self)@.after_field(source, current, key@, value@) {
                Ok((catalog, now)) => {
                    &&& r == Ok::<Option<i32>, ParseError>(now)
                    &&& final(self)@ == catalog
                    &&& now matches Some(num) ==> catalog.knows(num)
                },
                Err(e) => r == Err::<Option<i32>, ParseError>(e) && final(self)@ == old(self)@,
            },
    {
        if same_text(key, "Package") {
            if self.get_package_num(value).is_none() && self.len() >= 0x7fff_ffff {
                return Err(ParseError::CatalogFull);
            }
            let num = self.get_package_num_inserting(value);
            return Ok(Some(num));
        }
        let is_version = same_text(key, "Version");
        let is_md5sum = source == Source::Available && same_text(key, "MD5sum");
        let is_depends = source == Source::Available && same_text(key, "Depends");
        if !is_version && !is_md5sum && !is_depends {
            return Ok(current);
        }
        let num = match current {
            Some(num) => num,
            None => {
                return Err(ParseError::FieldBeforePackage);
            },
        };
        if is_version {
            let version = match DebianVersionNum::parse(trim(value)) {
                Some(version) => version,
                None => {
                    return Err(ParseError::MalformedVersion);
                },
            };
            match source {
                Source::Installed => self.insert_installed_debver(num, version),
                Source::Available => self.insert_available_debver(num, version),
            }
        } else if is_md5sum {
            self.insert_md5sum(num, value);
        } else {
            let deps = match read_dependencies(value) {
                Ok(deps) => deps,
                Err(e) => {
                    return Err(e);
                },
            };
            if !self.has_room_for(&deps) {
                return Err(ParseError::CatalogFull);
            }
            proof {
                let pieces = split_seq(value@, ',');
                lemma_dependencies_not_empty(pieces, pieces.len() as int);
                assert forall|d: int| 0 <= d < deps.len() implies (#[trigger] deps[d]).len() > 0 by {
                    assert(parsed_all_view(deps@)[d].len() == deps[d].len());
                }
            }
            let numbered = self.number_dependencies(&deps);
            self.insert_dependencies(num, numbered);
        }
        Ok(current)
    }

    /// Takes one line into the catalog. A line that sets no field is passed over.
    pub fn note_line(&mut self, source: Source, current: Option<i32>, line: &str) -> (r: Result<
        Option<i32>,
        ParseError,
    >)
        requires
            old(self).wf(),
            current matches Some(num) ==> old(self)@.knows(num),
        ensures
            final(self).wf(),
            final(self).engine() == old(self).engine(),
            match old(self)@.after_line(source, current, line@) {
                Ok((catalog, now)) => {
                    &&& r == Ok::<Option<i32>, ParseError>(now)
                    &&& final(self)@ == catalog
                    &&& now matches Some(num) ==> catalog.knows(num)
                },
                Err(e) => r == Err::<Option<i32>, ParseError>(e) && final(self)@ == old(self)@,
            },
    {
        match regex_captures(KEYVAL_REGEX, line) {
            Some(groups) => match key_value_from_groups(&groups) {
                Some((key, value)) => self.note_field(source, current, key, value),
                None => Ok(current),
            },
            None => Ok(current),
        }
    }

    /// Takes the lines of a file into the catalog, one after the other, up
    /// to the first that cannot be taken.
    pub fn parse_lines(&mut self, source: Source, lines: &Vec<String>) -> (r: Result<(), ParseFailure>)
        requires
            old(self).wf(),
        ensures
            final(self).wf(),
            final(self).engine() == old(self).engine(),
            match old(self)@.after_lines(source, texts_view(lines@), lines.len() as int) {
                Ok((catalog, _)) => r is Ok && final(self)@ == catalog,
                Err(failure) => {
                    &&& r == Err::<(), ParseFailure>(failure)
                    &&& failure.line < lines.len()
                    &&& old(self)@.after_lines(source, texts_view(lines@), failure.line as int) matches Ok(
                        (catalog, _),
                    ) && final(self)@ == catalog
                },
            },
    {
        let ghost texts = texts_view(lines@);
        let ghost start = self@;
        let mut current: Option<i32> = None;
        let mut i: usize = 0;
        while i < lines.len()
            invariant
                self.wf(),
                self.engine() == old(self).engine(),
                start == old(self)@,
                texts == texts_view(lines@),
                i <= lines.len(),
                current matches Some(num) ==> self@.knows(num),
                start.after_lines(source, texts, i as int) == Ok::<(CatalogView, Option<i32>), ParseFailure>(
                    (self@, current),
                ),
            decreases lines.len() - i,
        {
            match self.note_line(source, current, lines[i].as_str()) {
                Ok(now) => {
                    current = now;
                },
                Err(error) => {
                    proof {
                        start.lemma_lines_failure(source, texts, i as int + 1);
                    }
                    return Err(ParseFailure { line: i, error });
                },
            }
            i += 1;
        }
        Ok(())
    }

    /// Takes the lines of the file of installed packages: each package's
    /// name and installed version.
    pub fn parse_installed(&mut self, lines: &Vec<String>) -> (r: Result<(), ParseFailure>)
        requires
            old(self).wf(),
        ensures
            final(self).wf(),
            final(self).engine() == old(self).engine(),
            match old(self)@.after_lines(Source::Installed, texts_view(lines@), lines.len() as int) {
                Ok((catalog, _)) => r is Ok && final(self)@ == catalog,
                Err(failure) => {
                    &&& r == Err::<(), ParseFailure>(failure)
                    &&& failure.line < lines.len()
                    &&& old(self)@.after_lines(
                        Source::Installed,
                        texts_view(lines@),
                        failure.line as int,
                    ) matches Ok((catalog, _)) && final(self)@ == catalog
                },
            },
    {
        self.parse_lines(Source::Installed, lines)
    }

    /// Takes the lines of the file of available packages: each package's
    /// name, available version, checksum and dependencies.
    pub fn parse_packages(&mut self, lines: &Vec<String>) -> (r: Result<(), ParseFailure>)
        requires
            old(self).wf(),
        ensures
            final(self).wf(),
            final(self).engine() == old(self).engine(),
            match old(self)@.after_lines(Source::Available, texts_view(lines@), lines.len() as int) {
                Ok((catalog, _)) => r is Ok && final(self)@ == catalog,
                Err(failure) => {
                    &&& r == Err::<(), ParseFailure>(failure)
                    &&& failure.line < lines.len()
                    &&& old(self)@.after_lines(
                        Source::Available,
                        texts_view(lines@),
                        failure.line as int,
                    ) matches Ok((catalog, _)) && final(self)@ == catalog
                },
            },
    {
        self.parse_lines(Source::Available, lines)
    }
}

} // verus!
