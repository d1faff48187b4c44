//! Debian version numbers and the relations a dependency may place on them.

use vstd::prelude::*;
use vstd::string::*;

verus! {

/// How two versions stand to each other.
#[derive(Clone, Copy, Debug, PartialEq, Eq, Structural)]
pub enum Comparison {
    Less,
    Equal,
    Greater,
}

/// The relation a dependency demands between the installed and the required version.
#[derive(Clone, Copy, Debug, PartialEq, Eq, Structural)]
pub enum VersionRelation {
    StrictlyLess,
    LessOrEqual,
    Equal,
    GreaterOrEqual,
    StrictlyGreater,
}

/// The three parts of a version: epoch, upstream version, Debian revision.
pub type Parts = (Option<u32>, Seq<char>, Option<Seq<char>>);

/// The parts that `debversion` reads out of a version string, `None` where it
/// rejects the string.
pub uninterp spec fn debian_version_parts(text: Seq<char>) -> Option<Parts>;

/// The order in which `debversion` puts two versions, given by their parts.
pub uninterp spec fn debian_comparison(a: Parts, b: Parts) -> Comparison;

/// Whether an installed version that compares as `c` to the required one meets `rel`.
pub open spec fn relation_holds(rel: VersionRelation, c: Comparison) -> bool {
    match rel {
        VersionRelation::StrictlyLess => c == Comparison::Less,
        VersionRelation::LessOrEqual => c != Comparison::Greater,
        VersionRelation::Equal => c == Comparison::Equal,
        VersionRelation::GreaterOrEqual => c != Comparison::Less,
        VersionRelation::StrictlyGreater => c == Comparison::Greater,
    }
}

/// A revision that may be missing, as the contracts see it.
pub open spec fn revision_view(revision: Option<String>) -> Option<Seq<char>> {
    match revision {
        Some(r) => Some(r@),
        None => None,
    }
}

/// A parsed Debian version number. It keeps the text it was read from.
pub struct DebianVersionNum {
    text: String,
    epoch: Option<u32>,
    upstream: String,
    revision: Option<String>,
}

/// A version as the contracts see it: its text and the parts read from it.
pub struct VersionView {
    pub text: Seq<char>,
    pub parts: Parts,
}

impl View for DebianVersionNum {
    type V = VersionView;

    closed spec fn view(&self) -> VersionView {
        VersionView {
            text: self.text@,
            parts: (self.epoch, self.upstream@, revision_view(self.revision)),
        }
    }
}

impl VersionView {
    /// The parts are those that the text parses to.
    pub open spec fn wf(self) -> bool {
        debian_version_parts(self.text) == Some(self.parts)
    }
}

/// Parses `text` with `debversion`'s `FromStr` for `Version` and hands out the
/// three fields of the result. Claimed: the fields are a function of the text.
#[verifier::external_body]
fn parse_parts(text: &str) -> (r: Option<(Option<u32>, String, Option<String>)>)
    ensures
        match r {
            Some(p) => debian_version_parts(text@) == Some((p.0, p.1@, revision_view(p.2))),
            None => debian_version_parts(text@) is None,
        },
{
    match text.parse::<::debversion::Version>() {
        Ok(v) => Some((v.epoch, v.upstream_version, v.debian_revision)),
        Err(_) => None,
    }
}

/// Compares two versions with `debversion`'s `Ord` for `Version`. Claimed: the
/// result is a function of the two versions' parts. Both must be parts that a
/// text parsed to, on which the comparison is known to return.
#[verifier::external_body]
fn compare_parts(a: &DebianVersionNum, b: &DebianVersionNum) -> (r: Comparison)
    requires
        a@.wf(),
        b@.wf(),
    ensures
        r == debian_comparison(a@.parts, b@.parts),
{
    let left = ::debversion::Version {
        epoch: a.epoch,
        upstream_version: a.upstream.clone(),
        debian_revision: a.revision.clone(),
    };
    let right = ::debversion::Version {
        epoch: b.epoch,
        upstream_version: b.upstream.clone(),
        debian_revision: b.revision.clone(),
    };
    match left.cmp(&right) {
        std::cmp::Ordering::Less => Comparison::Less,
        std::cmp::Ordering::Equal => Comparison::Equal,
        std::cmp::Ordering::Greater => Comparison::Greater,
    }
}

impl DebianVersionNum {
    #[verifier::type_invariant]
    spec fn inv(&self) -> bool {
        self@.wf()
    }

    /// Reads a version from its text; `None` where the text is no Debian version.
    pub fn parse(text: &str) -> (r: Option<DebianVersionNum>)
        ensures
            r is Some <==> debian_version_parts(text@) is Some,
            r matches Some(v) ==> v@.text == text@ && v@.wf(),
    {
        match parse_parts(text) {
            Some((epoch, upstream, revision)) => Some(
                DebianVersionNum { text: String::from_str(text), epoch, upstream, revision },
            ),
            None => None,
        }
    }

    /// The text this version was read from.
    pub fn as_str(&self) -> (r: &str)
        ensures
            r@ == self@.text,
    {
        self.text.as_str()
    }

    /// A second copy of this version.
    pub fn duplicate(&self) -> (r: DebianVersionNum)
        ensures
            r@ == self@,
    {
        proof {
            use_type_invariant(self);
        }
        DebianVersionNum {
            text: self.text.clone(),
            epoch: self.epoch,
            upstream: self.upstream.clone(),
            revision: match &self.revision {
                Some(revision) => Some(revision.clone()),
                None => None,
            },
        }
    }

    /// Where `self` stands relative to `other` in Debian's order of versions.
    pub fn compare(&self, other: &DebianVersionNum) -> (r: Comparison)
        ensures
            r == debian_comparison(self@.parts, other@.parts),
    {
        proof {
            use_type_invariant(self);
            use_type_invariant(other);
        }
        compare_parts(self, other)
    }

    /// Whether `self`, as the installed version, stands in relation `rel` to `required`.
    pub fn satisfies(&self, rel: VersionRelation, required: &DebianVersionNum) -> (r: bool)
        ensures
            r == relation_holds(rel, debian_comparison(self@.parts, required@.parts)),
    {
        let c = self.compare(required);
        match rel {
            VersionRelation::StrictlyLess => c == Comparison::Less,
            VersionRelation::LessOrEqual => c != Comparison::Greater,
            VersionRelation::Equal => c == Comparison::Equal,
            VersionRelation::GreaterOrEqual => c != Comparison::Less,
            VersionRelation::StrictlyGreater => c == Comparison::Greater,
        }
    }
}

impl VersionRelation {
    /// The relation that a symbol stands for.
    pub open spec fn of_symbol(symbol: Seq<char>) -> Option<VersionRelation> {
        if symbol == "<<"@ {
            Some(VersionRelation::StrictlyLess)
        } else if symbol == "<="@ {
            Some(VersionRelation::LessOrEqual)
        } else if symbol == "="@ {
            Some(VersionRelation::Equal)
        } else if symbol == ">="@ {
            Some(VersionRelation::GreaterOrEqual)
        } else if symbol == ">>"@ {
            Some(VersionRelation::StrictlyGreater)
        } else {
            None
        }
    }

    /// The symbol that stands for a relation.
    pub open spec fn symbol_of(self) -> Seq<char> {
        match self {
            VersionRelation::StrictlyLess => "<<"@,
            VersionRelation::LessOrEqual => "<="@,
            VersionRelation::Equal => "="@,
            VersionRelation::GreaterOrEqual => ">="@,
            VersionRelation::StrictlyGreater => ">>"@,
        }
    }

    /// The symbol that stands for this relation.
    pub fn symbol(&self) -> (r: &'static str)
        ensures
            r@ == self.symbol_of(),
            Self::of_symbol(r@) == Some(*self),
    {
        proof {
            self.lemma_symbol_round_trip();
        }
        match self {
            VersionRelation::StrictlyLess => "<<",
            VersionRelation::LessOrEqual => "<=",
            VersionRelation::Equal => "=",
            VersionRelation::GreaterOrEqual => ">=",
            VersionRelation::StrictlyGreater => ">>",
        }
    }

    /// A relation's symbol is read as that relation.
    pub proof fn lemma_symbol_round_trip(self)
        ensures
            Self::of_symbol(self.symbol_of()) == Some(self),
    {
        reveal_strlit("<<");
        reveal_strlit("<=");
        reveal_strlit("=");
        reveal_strlit(">=");
        reveal_strlit(">>");
        assert("<<"@[1] != "<="@[1]);
        assert("<<"@.len() != "="@.len());
        assert("<<"@[0] != ">="@[0]);
        assert("<<"@[0] != ">>"@[0]);
        assert("<="@.len() != "="@.len());
        assert("<="@[0] != ">="@[0]);
        assert("<="@[0] != ">>"@[0]);
        assert("="@.len() != ">="@.len());
        assert("="@.len() != ">>"@.len());
        assert(">="@[1] != ">>"@[1]);
    }

    /// Reads a relation from its symbol, one of `<<`, `<=`, `=`, `>=`, `>>`.
    pub fn parse(symbol: &str) -> (r: Option<VersionRelation>)
        ensures
            r == Self::of_symbol(symbol@),
    {
        let symbol = String::from_str(symbol);
        if symbol == String::from_str("<<") {
            Some(VersionRelation::StrictlyLess)
        } else if symbol == String::from_str("<=") {
            Some(VersionRelation::LessOrEqual)
        } else if symbol == String::from_str("=") {
            Some(VersionRelation::Equal)
        } else if symbol == String::from_str(">=") {
            Some(VersionRelation::GreaterOrEqual)
        } else if symbol == String::from_str(">>") {
            Some(VersionRelation::StrictlyGreater)
        } else {
            None
        }
    }
}

} // verus!
