//! Semantic versions: what a version text stands for, and which of two
//! versions is the newer one.

use vstd::prelude::*;
use crate::text::text_lt;

verus! {

/// One dot-separated part of a pre-release tag.
pub enum Identifier {
    /// A part made of digits only, by its value.
    Numeric(u64),
    /// Any other part, as written.
    AlphaNumeric(String),
}

/// The model of an [`Identifier`].
pub enum IdentifierView {
    Numeric(nat),
    AlphaNumeric(Seq<char>),
}

/// A semantic version. Build metadata plays no part in precedence and is not
/// kept.
pub struct SemVer {
    pub major: u64,
    pub minor: u64,
    pub patch: u64,
    pub pre_release: Vec<Identifier>,
}

/// The model of a [`SemVer`].
pub struct SemVerView {
    pub major: nat,
    pub minor: nat,
    pub patch: nat,
    pub pre_release: Seq<IdentifierView>,
}

impl View for Identifier {
    type V = IdentifierView;

    open spec fn view(&self) -> IdentifierView {
        match self {
            Identifier::Numeric(n) => IdentifierView::Numeric(*n as nat),
            Identifier::AlphaNumeric(s) => IdentifierView::AlphaNumeric(s@),
        }
    }
}

impl View for SemVer {
    type V = SemVerView;

    open spec fn view(&self) -> SemVerView {
        SemVerView {
            major: self.major as nat,
            minor: self.minor as nat,
            patch: self.patch as nat,
            pre_release: Seq::new(self.pre_release@.len(), |i: int| self.pre_release@[i]@),
        }
    }
}

/// The version `major.minor.patch` without a pre-release tag.
pub open spec fn plain_version(major: nat, minor: nat, patch: nat) -> SemVerView {
    SemVerView { major, minor, patch, pre_release: Seq::empty() }
}

/// The model of an optional version.
pub open spec fn optional_view(v: Option<SemVer>) -> Option<SemVerView> {
    match v {
        Some(v) => Some(v@),
        None => None,
    }
}

/// What a text stands for as a semantic version, where it is one.
pub uninterp spec fn parsed_semver(text: Seq<char>) -> Option<SemVerView>;

/// The version that `text` stands for, or `fallback` where it stands for none.
pub open spec fn parsed_or(text: Seq<char>, fallback: SemVerView) -> SemVerView {
    match parsed_semver(text) {
        Some(v) => v,
        None => fallback,
    }
}

/// Precedence of single pre-release parts: numeric parts rank below all
/// others and among themselves by value; the others rank in byte order.
pub open spec fn identifier_gt(a: IdentifierView, b: IdentifierView) -> bool {
    match (a, b) {
        (IdentifierView::Numeric(x), IdentifierView::Numeric(y)) => x > y,
        (IdentifierView::Numeric(_), IdentifierView::AlphaNumeric(_)) => false,
        (IdentifierView::AlphaNumeric(_), IdentifierView::Numeric(_)) => true,
        (IdentifierView::AlphaNumeric(s), IdentifierView::AlphaNumeric(t)) => text_lt(t, s),
    }
}

/// Precedence of pre-release tags: the first differing part decides, and a
/// tag ranks above each of its proper prefixes.
pub open spec fn identifiers_gt(a: Seq<IdentifierView>, b: Seq<IdentifierView>) -> bool
    decreases a.len(),
{
    if a.len() == 0 {
        false
    } else if b.len() == 0 {
        true
    } else if a[0] == b[0] {
        identifiers_gt(a.drop_first(), b.drop_first())
    } else {
        identifier_gt(a[0], b[0])
    }
}

/// `a` has strictly higher precedence than `b`: by major, minor and patch
/// number in turn; with these equal, a version without a pre-release tag
/// ranks above one with a tag, and two tags rank by [`identifiers_gt`].
pub open spec fn newer(a: SemVerView, b: SemVerView) -> bool {
    if a.major != b.major {
        a.major > b.major
    } else if a.minor != b.minor {
        a.minor > b.minor
    } else if a.patch != b.patch {
        a.patch > b.patch
    } else if a.pre_release.len() == 0 {
        b.pre_release.len() > 0
    } else if b.pre_release.len() == 0 {
        false
    } else {
        identifiers_gt(a.pre_release, b.pre_release)
    }
}

/// No tag ranks above itself.
pub proof fn lemma_identifiers_gt_irreflexive(a: Seq<IdentifierView>)
    ensures
        !identifiers_gt(a, a),
    decreases a.len(),
{
    if a.len() > 0 {
        lemma_identifiers_gt_irreflexive(a.drop_first());
    }
}

/// No version is newer than itself.
pub proof fn lemma_newer_irreflexive(a: SemVerView)
    ensures
        !newer(a, a),
{
    lemma_identifiers_gt_irreflexive(a.pre_release);
}

/// Calls `node_semver::Version::parse` and copies the numbers and the
/// pre-release parts of what it returns. Trusted: a text that the parser
/// accepts gives the version named by [`parsed_semver`], any other text gives
/// `None`; the parser's result depends on the text alone.
#[verifier::external_body]
pub(crate) fn parse_version(text: &str) -> (r: Option<SemVer>)
    ensures
        optional_view(r) == parsed_semver(text@),
{
    match node_semver::Version::parse(text) {
        Ok(v) => Some(SemVer {
            major: v.major,
            minor: v.minor,
            patch: v.patch,
            pre_release: v.pre_release.into_iter().map(|part| match part {
                node_semver::Identifier::Numeric(n) => Identifier::Numeric(n),
                node_semver::Identifier::AlphaNumeric(s) => Identifier::AlphaNumeric(s),
            }).collect(),
        }),
        Err(_) => None,
    }
}

/// Compares with `>`, the order that node_semver gives its `Version`s, on
/// versions that hold the numbers and the pre-release parts of `a` and `b`.
/// Trusted: the outcome is the precedence [`newer`]. That order goes by major,
/// minor and patch number in turn; with these equal, by whether there is a
/// pre-release tag; and between two tags by the order of the lists of their
/// parts, in which a numeric part comes before any other, numeric parts go by
/// value and the others as strings.
#[verifier::external_body]
pub(crate) fn outranks(a: &SemVer, b: &SemVer) -> (r: bool)
    ensures
        r == newer(a@, b@),
{
    let outside = |v: &SemVer| node_semver::Version {
        major: v.major,
        minor: v.minor,
        patch: v.patch,
        build: Vec::new(),
        pre_release: v.pre_release.iter().map(|part| match part {
            Identifier::Numeric(n) => node_semver::Identifier::Numeric(*n),
            Identifier::AlphaNumeric(s) => node_semver::Identifier::AlphaNumeric(s.clone()),
        }).collect(),
    };
    outside(a) > outside(b)
}

impl SemVer {
    /// The version `major.minor.patch`.
    pub fn new(major: u64, minor: u64, patch: u64) -> (r: SemVer)
        ensures
            r@ == plain_version(major as nat, minor as nat, patch as nat),
    {
        let r = SemVer { major, minor, patch, pre_release: Vec::new() };
        proof {
            assert(r@.pre_release =~= Seq::empty());
        }
        r
    }

    /// Reads `text` as a version and falls back on `fallback` where it is none.
    pub fn parse_or(text: &str, fallback: SemVer) -> (r: SemVer)
        ensures
            r@ == parsed_or(text@, fallback@),
    {
        match parse_version(text) {
            Some(v) => v,
            None => fallback,
        }
    }
}

} // verus!
