//! Semantic versions and version requirements, as the `semver` crate reads
//! them, and the precedence order that SemVer 2.0 defines on them.
use std::cmp::Ordering;
use vstd::prelude::*;

verus! {

#[verifier::external_type_specification]
#[verifier::external_body]
pub struct ExSemverVersion(semver::Version);

#[verifier::external_type_specification]
#[verifier::external_body]
pub struct ExSemverVersionReq(semver::VersionReq);

/// The parts of a version that take part in precedence.
pub ghost struct VersionModel {
    pub major: u64,
    pub minor: u64,
    pub patch: u64,
    pub pre: Seq<char>,
}

/// What `semver::Version::parse` yields for a text: its numbers and its
/// pre-release text, or nothing where the text is no valid version.
pub uninterp spec fn semver_parse(text: Seq<char>) -> Option<VersionModel>;

/// Whether `semver::VersionReq::parse` accepts a text.
pub uninterp spec fn semver_requirement_valid(text: Seq<char>) -> bool;

/// Whether the requirement written as `requirement` matches the version written
/// as `version`, as `semver::VersionReq::matches` decides it.
pub uninterp spec fn semver_matches(requirement: Seq<char>, version: Seq<char>) -> bool;

/// A version parsed from a text, kept together with that text.
pub struct ParsedVersion {
    major: u64,
    minor: u64,
    patch: u64,
    pre: String,
    text: String,
    parsed: semver::Version,
}

impl View for ParsedVersion {
    type V = VersionModel;

    closed spec fn view(&self) -> VersionModel {
        VersionModel { major: self.major, minor: self.minor, patch: self.patch, pre: self.pre@ }
    }
}

impl ParsedVersion {
    /// The text the version was parsed from.
    pub closed spec fn source(&self) -> Seq<char> {
        self.text@
    }
}

/// A version requirement parsed from a text, kept together with that text.
pub struct Requirement {
    text: String,
    parsed: semver::VersionReq,
}

impl Requirement {
    /// The text the requirement was parsed from.
    pub closed spec fn source(&self) -> Seq<char> {
        self.text@
    }
}

/// Relies on `semver::Version::parse`: the numbers and pre-release it reads.
#[verifier::external_body]
pub(crate) fn parse_version(text: &str) -> (r: Option<ParsedVersion>)
    ensures
        r.is_some() == semver_parse(text@).is_some(),
        r.is_some() ==> semver_parse(text@) == Some(r.unwrap()@) && r.unwrap().source() == text@,
{
    match semver::Version::parse(text) {
        Ok(v) => Some(ParsedVersion {
            major: v.major,
            minor: v.minor,
            patch: v.patch,
            pre: v.pre.as_str().to_string(),
            text: text.to_string(),
            parsed: v,
        }),
        Err(_) => None,
    }
}

/// Relies on `semver::VersionReq::parse`: whether the text is a requirement.
#[verifier::external_body]
pub(crate) fn parse_requirement(text: &str) -> (r: Option<Requirement>)
    ensures
        r.is_some() == semver_requirement_valid(text@),
        r.is_some() ==> r.unwrap().source() == text@,
{
    match semver::VersionReq::parse(text) {
        Ok(parsed) => Some(Requirement { text: text.to_string(), parsed }),
        Err(_) => None,
    }
}

/// Relies on `semver::VersionReq::matches`.
#[verifier::external_body]
pub(crate) fn requirement_matches(req: &Requirement, v: &ParsedVersion) -> (r: bool)
    ensures
        r == semver_matches(req.source(), v.source()),
{
    req.parsed.matches(&v.parsed)
}

/// Relies on `semver::Version::cmp_precedence`, which orders by major, minor
/// and patch and then by pre-release, as the SemVer precedence rules say.
#[verifier::external_body]
pub(crate) fn cmp_precedence(a: &ParsedVersion, b: &ParsedVersion) -> (r: Ordering)
    ensures
        r == precedence(a@, b@),
{
    a.parsed.cmp_precedence(&b.parsed)
}

pub open spec fn reversed(o: Ordering) -> Ordering {
    match o {
        Ordering::Less => Ordering::Greater,
        Ordering::Equal => Ordering::Equal,
        Ordering::Greater => Ordering::Less,
    }
}

pub open spec fn cmp_nat(a: int, b: int) -> Ordering {
    if a < b {
        Ordering::Less
    } else if a > b {
        Ordering::Greater
    } else {
        Ordering::Equal
    }
}

/// Character-wise order of two texts from position `i` on; a proper prefix
/// comes first.
pub open spec fn chars_cmp(a: Seq<char>, b: Seq<char>, i: int) -> Ordering
    decreases a.len() - i,
{
    if i < 0 || i >= a.len() {
        if i >= 0 && i < b.len() {
            Ordering::Less
        } else {
            Ordering::Equal
        }
    } else if i >= b.len() {
        Ordering::Greater
    } else if a[i] != b[i] {
        cmp_nat(a[i] as int, b[i] as int)
    } else {
        chars_cmp(a, b, i + 1)
    }
}

/// The dot-separated identifiers of a pre-release text.
pub open spec fn split_dots(s: Seq<char>) -> Seq<Seq<char>>
    decreases s.len(),
{
    if s.len() == 0 {
        seq![Seq::empty()]
    } else {
        let init = split_dots(s.drop_last());
        if s.last() == '.' {
            init.push(Seq::empty())
        } else {
            init.update(init.len() - 1, init.last().push(s.last()))
        }
    }
}

pub open spec fn is_numeric(id: Seq<char>) -> bool {
    forall|k: int| 0 <= k < id.len() ==> '0' <= #[trigger] id[k] <= '9'
}

/// Order of two pre-release identifiers: numeric ones by value (shorter
/// first, as they carry no leading zeros), before all others, which go in
/// character order.
pub open spec fn ident_cmp(a: Seq<char>, b: Seq<char>) -> Ordering {
    if is_numeric(a) && is_numeric(b) {
        if a.len() != b.len() {
            cmp_nat(a.len() as int, b.len() as int)
        } else {
            chars_cmp(a, b, 0)
        }
    } else if is_numeric(a) {
        Ordering::Less
    } else if is_numeric(b) {
        Ordering::Greater
    } else {
        chars_cmp(a, b, 0)
    }
}

/// Identifier-wise order from position `i` on; a proper prefix comes first.
pub open spec fn idents_cmp(a: Seq<Seq<char>>, b: Seq<Seq<char>>, i: int) -> Ordering
    decreases a.len() - i,
{
    if i < 0 || i >= a.len() {
        if i >= 0 && i < b.len() {
            Ordering::Less
        } else {
            Ordering::Equal
        }
    } else if i >= b.len() {
        Ordering::Greater
    } else if ident_cmp(a[i], b[i]) != Ordering::Equal {
        ident_cmp(a[i], b[i])
    } else {
        idents_cmp(a, b, i + 1)
    }
}

/// Order of pre-release texts: a release (empty text) comes after every
/// pre-release of the same numbers.
pub open spec fn prerelease_cmp(a: Seq<char>, b: Seq<char>) -> Ordering {
    if a.len() == 0 {
        if b.len() == 0 {
            Ordering::Equal
        } else {
            Ordering::Greater
        }
    } else if b.len() == 0 {
        Ordering::Less
    } else {
        idents_cmp(split_dots(a), split_dots(b), 0)
    }
}

/// SemVer precedence: major, minor, patch, then pre-release; build metadata
/// plays no part.
pub open spec fn precedence(a: VersionModel, b: VersionModel) -> Ordering {
    if a.major != b.major {
        cmp_nat(a.major as int, b.major as int)
    } else if a.minor != b.minor {
        cmp_nat(a.minor as int, b.minor as int)
    } else if a.patch != b.patch {
        cmp_nat(a.patch as int, b.patch as int)
    } else {
        prerelease_cmp(a.pre, b.pre)
    }
}

pub(crate) proof fn lemma_chars_antisym(a: Seq<char>, b: Seq<char>, i: int)
    ensures
        chars_cmp(a, b, i) == reversed(chars_cmp(b, a, i)),
    decreases a.len() - i,
{
    if 0 <= i < a.len() && i < b.len() && a[i] == b[i] {
        lemma_chars_antisym(a, b, i + 1);
    }
}

pub(crate) proof fn lemma_chars_trans(a: Seq<char>, b: Seq<char>, c: Seq<char>, i: int)
    requires
        chars_cmp(a, b, i) != Ordering::Greater,
        chars_cmp(b, c, i) != Ordering::Greater,
    ensures
        chars_cmp(a, c, i) != Ordering::Greater,
        chars_cmp(a, c, i) == Ordering::Equal ==> chars_cmp(a, b, i) == Ordering::Equal
            && chars_cmp(b, c, i) == Ordering::Equal,
    decreases a.len() - i,
{
    if 0 <= i < a.len() && i < b.len() && i < c.len() && a[i] == b[i] && b[i] == c[i] {
        lemma_chars_trans(a, b, c, i + 1);
    }
}

pub(crate) proof fn lemma_chars_equal(a: Seq<char>, b: Seq<char>, i: int)
    requires
        0 <= i,
        chars_cmp(a, b, i) == Ordering::Equal,
    ensures
        a.len() == b.len() || (i >= a.len() && i >= b.len()),
        forall|k: int| i <= k < a.len() ==> a[k] == b[k],
    decreases a.len() - i,
{
    if i < a.len() {
        lemma_chars_equal(a, b, i + 1);
    }
}

proof fn lemma_ident_antisym(a: Seq<char>, b: Seq<char>)
    ensures
        ident_cmp(a, b) == reversed(ident_cmp(b, a)),
{
    lemma_chars_antisym(a, b, 0);
}

proof fn lemma_ident_equal(a: Seq<char>, b: Seq<char>)
    requires
        ident_cmp(a, b) == Ordering::Equal,
    ensures
        a == b,
{
    lemma_chars_equal(a, b, 0);
    if a.len() != b.len() {
        assert(is_numeric(a) && is_numeric(b));
    }
    assert(a =~= b);
}

proof fn lemma_ident_trans(a: Seq<char>, b: Seq<char>, c: Seq<char>)
    requires
        ident_cmp(a, b) != Ordering::Greater,
        ident_cmp(b, c) != Ordering::Greater,
    ensures
        ident_cmp(a, c) != Ordering::Greater,
        ident_cmp(a, c) == Ordering::Equal ==> ident_cmp(a, b) == Ordering::Equal
            && ident_cmp(b, c) == Ordering::Equal,
{
    if ident_cmp(a, b) == Ordering::Equal {
        lemma_ident_equal(a, b);
    } else if ident_cmp(b, c) == Ordering::Equal {
        lemma_ident_equal(b, c);
    } else {
        if chars_cmp(a, b, 0) != Ordering::Greater && chars_cmp(b, c, 0) != Ordering::Greater {
            lemma_chars_trans(a, b, c, 0);
        }
        if ident_cmp(a, c) == Ordering::Equal {
            lemma_ident_equal(a, c);
            lemma_ident_antisym(a, b);
        }
    }
}

proof fn lemma_idents_antisym(a: Seq<Seq<char>>, b: Seq<Seq<char>>, i: int)
    ensures
        idents_cmp(a, b, i) == reversed(idents_cmp(b, a, i)),
    decreases a.len() - i,
{
    if 0 <= i < a.len() && i < b.len() {
        lemma_ident_antisym(a[i], b[i]);
        lemma_idents_antisym(a, b, i + 1);
    }
}

proof fn lemma_idents_trans(a: Seq<Seq<char>>, b: Seq<Seq<char>>, c: Seq<Seq<char>>, i: int)
    requires
        idents_cmp(a, b, i) != Ordering::Greater,
        idents_cmp(b, c, i) != Ordering::Greater,
    ensures
        idents_cmp(a, c, i) != Ordering::Greater,
        idents_cmp(a, c, i) == Ordering::Equal ==> idents_cmp(a, b, i) == Ordering::Equal
            && idents_cmp(b, c, i) == Ordering::Equal,
    decreases a.len() - i,
{
    if 0 <= i < a.len() && i < b.len() && i < c.len() {
        lemma_ident_antisym(a[i], b[i]);
        lemma_ident_antisym(b[i], c[i]);
        lemma_ident_antisym(a[i], c[i]);
        if ident_cmp(a[i], b[i]) == Ordering::Equal {
            lemma_ident_equal(a[i], b[i]);
        }
        if ident_cmp(b[i], c[i]) == Ordering::Equal {
            lemma_ident_equal(b[i], c[i]);
        }
        lemma_ident_trans(a[i], b[i], c[i]);
        if ident_cmp(a[i], b[i]) == Ordering::Equal && ident_cmp(b[i], c[i]) == Ordering::Equal {
            lemma_idents_trans(a, b, c, i + 1);
        }
    }
}

proof fn lemma_prerelease_antisym(a: Seq<char>, b: Seq<char>)
    ensures
        prerelease_cmp(a, b) == reversed(prerelease_cmp(b, a)),
{
    lemma_idents_antisym(split_dots(a), split_dots(b), 0);
}

proof fn lemma_prerelease_trans(a: Seq<char>, b: Seq<char>, c: Seq<char>)
    requires
        prerelease_cmp(a, b) != Ordering::Greater,
        prerelease_cmp(b, c) != Ordering::Greater,
    ensures
        prerelease_cmp(a, c) != Ordering::Greater,
        prerelease_cmp(a, c) == Ordering::Equal ==> prerelease_cmp(a, b) == Ordering::Equal
            && prerelease_cmp(b, c) == Ordering::Equal,
{
    if a.len() != 0 && b.len() != 0 && c.len() != 0 {
        lemma_idents_trans(split_dots(a), split_dots(b), split_dots(c), 0);
    }
}

/// Precedence is antisymmetric: swapping the operands reverses the result.
pub proof fn lemma_precedence_antisym(a: VersionModel, b: VersionModel)
    ensures
        precedence(a, b) == reversed(precedence(b, a)),
{
    lemma_prerelease_antisym(a.pre, b.pre);
}

/// Precedence is transitive, and a chain of two comparisons ends in `Equal`
/// only where both of its links do.
pub proof fn lemma_precedence_trans(a: VersionModel, b: VersionModel, c: VersionModel)
    requires
        precedence(a, b) != Ordering::Greater,
        precedence(b, c) != Ordering::Greater,
    ensures
        precedence(a, c) != Ordering::Greater,
        precedence(a, c) == Ordering::Equal ==> precedence(a, b) == Ordering::Equal
            && precedence(b, c) == Ordering::Equal,
{
    if a.major == b.major && b.major == c.major && a.minor == b.minor && b.minor == c.minor
        && a.patch == b.patch && b.patch == c.patch {
        lemma_prerelease_trans(a.pre, b.pre, c.pre);
    }
}

} // verus!
