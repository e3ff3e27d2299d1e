//! Requirements on versions.

use vstd::prelude::*;

use crate::plain::Plain;
use crate::text;
use crate::version;
use crate::version::{Identifier, Version, VersionView};

verus! {

/// A requirement on the version of a package.
#[derive(Debug)]
pub struct VersionReq {
    kind: VersionReqKind,
}

#[derive(Debug)]
enum VersionReqKind {
    /// One version and no other.
    Exact(Version),
    /// A requirement that was read: as it was written, and in its plain form.
    Parsed { source: String, plain: String },
}

/// What a requirement holds.
pub enum VersionReqView {
    /// One version and no other.
    Exact(VersionView),
    /// What was written.
    Parsed(Seq<char>),
}

impl View for VersionReq {
    type V = VersionReqView;

    closed spec fn view(&self) -> VersionReqView {
        match self.kind {
            VersionReqKind::Exact(version) => VersionReqView::Exact(version@),
            VersionReqKind::Parsed { source, .. } => VersionReqView::Parsed(source@),
        }
    }
}

impl DeepView for VersionReq {
    type V = VersionReqView;

    open spec fn deep_view(&self) -> VersionReqView {
        self.view()
    }
}

impl VersionReq {
    #[verifier::type_invariant]
    spec fn was_read(self) -> bool {
        match self.kind {
            VersionReqKind::Exact(_) => true,
            VersionReqKind::Parsed { source, plain } => numbers_fit(source@) && requirement_text(
                source@,
            ) == Ok::<Seq<char>, Seq<char>>(plain@),
        }
    }
}

// ---------------------------------------------------------------------------
// Numbers in requirements
// ---------------------------------------------------------------------------

/// A decimal digit.
pub open spec fn is_digit(c: char) -> bool {
    '0' <= c <= '9'
}

/// The number that the digits before `end` make up, zero if there are none.
pub open spec fn number_before(text: Seq<char>, end: int) -> nat
    decreases end,
{
    if 0 < end <= text.len() && is_digit(text[end - 1]) {
        number_before(text, end - 1) * 10 + (text[end - 1] as nat - '0' as nat) as nat
    } else {
        0
    }
}

/// A character of a version.
pub open spec fn is_version_char(c: char) -> bool {
    ('0' <= c <= '9') || ('a' <= c <= 'z') || ('A' <= c <= 'Z') || c == '.' || c == '-' || c == '+'
}

/// Whether a `-` or `+` stands before `at` in the version that `at` is in.
pub open spec fn in_qualifier(text: Seq<char>, at: int) -> bool
    decreases at,
{
    0 < at <= text.len() && is_version_char(text[at - 1]) && (text[at - 1] == '-' || text[at - 1]
        == '+' || in_qualifier(text, at - 1))
}

/// Every number that a version in `text` starts with is below the largest that
/// 64 bits hold.
pub open spec fn numbers_fit(text: Seq<char>) -> bool {
    forall|end: int|
        0 <= end <= text.len() && !in_qualifier(text, end) ==> #[trigger] number_before(text, end)
            < u64::MAX
}

/// Whether the numbers in `text` are small enough for it to be read as a
/// requirement.
pub fn check_numbers(text: &str) -> (fit: bool)
    ensures
        fit == numbers_fit(text@),
{
    let chars: Vec<char> = text::characters(text);
    let mut i: usize = 0;
    let mut number: u64 = 0;
    let mut qualifier: bool = false;
    while i < chars.len()
        invariant
            i <= chars@.len(),
            chars@ == text@,
            qualifier == in_qualifier(text@, i as int),
            number == number_before(text@, i as int) || (number == u64::MAX && number_before(
                text@,
                i as int,
            ) >= u64::MAX),
            forall|end: int|
                0 <= end <= i && !in_qualifier(text@, end) ==> #[trigger] number_before(text@, end)
                    < u64::MAX,
        decreases chars@.len() - i,
    {
        let c: char = chars[i];
        if '0' <= c && c <= '9' {
            let digit: u64 = (c as u64) - ('0' as u64);
            if number <= (u64::MAX - digit) / 10 {
                number = number * 10 + digit;
            } else {
                number = u64::MAX;
            }
        } else {
            number = 0;
        }
        let in_version: bool = ('0' <= c && c <= '9') || ('a' <= c && c <= 'z') || ('A' <= c && c
            <= 'Z') || c == '.' || c == '-' || c == '+';
        qualifier = in_version && (c == '-' || c == '+' || qualifier);
        i += 1;
        if !qualifier && number == u64::MAX {
            assert(number_before(text@, i as int) >= u64::MAX);
            return false;
        }
    }
    true
}

// ---------------------------------------------------------------------------
// The outside reader
// ---------------------------------------------------------------------------

/// What `semver::VersionReq::parse` makes of a text: the requirement in its
/// plain form, or what is wrong with the text.
pub uninterp spec fn requirement_text(text: Seq<char>) -> Result<Seq<char>, Seq<char>>;

/// Whether `semver::VersionReq::parse` reads the text and the requirement that
/// it makes of it matches the version.
pub uninterp spec fn requirement_matches(text: Seq<char>, version: VersionView) -> bool;

/// Reads a requirement with `semver::VersionReq::parse`, and writes what comes
/// out, the requirement or the error, as text. Stated of it: the result is a
/// function of the text. On a number that does not fit the parser panics.
#[verifier::external_body]
fn read_requirement(text: &str) -> (read: Result<String, String>)
    requires
        numbers_fit(text@),
    ensures
        requirement_text(text@) == match read {
            Ok(plain) => Ok::<Seq<char>, Seq<char>>(plain@),
            Err(message) => Err::<Seq<char>, Seq<char>>(message@),
        },
{
    match semver::VersionReq::parse(text) {
        Ok(requirement) => Ok(requirement.to_string()),
        Err(error) => Err(error.to_string()),
    }
}

/// Matches a version with `semver::VersionReq`'s `matches` against the
/// requirement that `semver::VersionReq::parse` makes of the text. Stated of
/// it: the result is a function of the text and the version.
#[verifier::external_body]
fn match_requirement(text: &str, version: &Version) -> (matches: bool)
    requires
        numbers_fit(text@),
    ensures
        matches == requirement_matches(text@, version@),
{
    let id = |i: &Identifier| match i {
        Identifier::Numeric(n) => semver::Identifier::Numeric(*n),
        Identifier::AlphaNumeric(t) => semver::Identifier::AlphaNumeric(t.clone()),
    };
    let pre = version.pre.iter().map(id).collect();
    let build = version.build.iter().map(id).collect();
    let (major, minor, patch) = (version.major, version.minor, version.patch);
    let version = semver::Version { major, minor, patch, pre, build };
    match semver::VersionReq::parse(text) {
        Ok(requirement) => requirement.matches(&version),
        Err(_) => false,
    }
}

/// Matches a version with `semver::VersionReq`'s `matches` against
/// `semver::VersionReq::exact` of another. Stated of it: it matches the
/// versions that differ from the other at most in build metadata.
#[verifier::external_body]
fn match_exact(exact: &Version, version: &Version) -> (matches: bool)
    ensures
        matches == version::same_version(exact@, version@),
{
    let id = |i: &Identifier| match i {
        Identifier::Numeric(n) => semver::Identifier::Numeric(*n),
        Identifier::AlphaNumeric(t) => semver::Identifier::AlphaNumeric(t.clone()),
    };
    let full = |v: &Version| {
        let pre = v.pre.iter().map(id).collect();
        let build = v.build.iter().map(id).collect();
        semver::Version { major: v.major, minor: v.minor, patch: v.patch, pre, build }
    };
    semver::VersionReq::exact(&full(exact)).matches(&full(version))
}

// ---------------------------------------------------------------------------
// Requirements
// ---------------------------------------------------------------------------

/// Whether a requirement matches a version.
pub open spec fn req_matches(req: VersionReqView, version: VersionView) -> bool {
    match req {
        VersionReqView::Exact(exact) => version::same_version(exact, version),
        VersionReqView::Parsed(source) => requirement_matches(source, version),
    }
}

/// How a requirement is written.
pub open spec fn req_text(req: VersionReqView) -> Seq<char> {
    match req {
        VersionReqView::Exact(exact) => "="@ + version::precedence_text(exact),
        VersionReqView::Parsed(source) => requirement_text(source)->Ok_0,
    }
}

/// Whether two requirements ask for the same. Those that pin a version pin the
/// same, but for build metadata, and those that were read come to the same text.
/// Of either kind one, they come to the same text, and the version is one as it
/// is read from a text.
pub open spec fn same_req(a: VersionReqView, b: VersionReqView) -> bool {
    match (a, b) {
        (VersionReqView::Exact(a), VersionReqView::Exact(b)) => version::same_version(a, b),
        (VersionReqView::Exact(exact), VersionReqView::Parsed(_)) => version::are_readable(
            exact.pre,
        ) && req_text(a) == req_text(b),
        (VersionReqView::Parsed(_), VersionReqView::Exact(exact)) => version::are_readable(
            exact.pre,
        ) && req_text(a) == req_text(b),
        (VersionReqView::Parsed(_), VersionReqView::Parsed(_)) => req_text(a) == req_text(b),
    }
}

/// To ask for the same is an equivalence, and requirements that do are written
/// alike.
pub proof fn law_same_requirements(a: VersionReqView, b: VersionReqView, c: VersionReqView)
    ensures
        same_req(a, a),
        same_req(a, b) ==> same_req(b, a),
        same_req(a, b) && same_req(b, c) ==> same_req(a, c),
        same_req(a, b) ==> req_text(a) == req_text(b),
{
    if let (VersionReqView::Exact(x), VersionReqView::Exact(y)) = (a, c) {
        if b is Parsed && same_req(a, b) && same_req(b, c) {
            let (p, q) = (version::precedence_text(x), version::precedence_text(y));
            reveal_strlit("=");
            assert(p =~= ("="@ + p).skip(1));
            assert(q =~= ("="@ + q).skip(1));
            version::law_precedence_is_written_apart(x, y);
        }
    }
}

impl PartialEq for VersionReq {
    fn eq(&self, other: &Self) -> (same: bool) {
        match (&self.kind, &other.kind) {
            (VersionReqKind::Exact(a), VersionReqKind::Exact(b)) => {
                return a.is_same(b);
            },
            (VersionReqKind::Exact(exact), _) | (_, VersionReqKind::Exact(exact)) => {
                if !version::check_identifiers(&exact.pre) {
                    return false;
                }
            },
            _ => {},
        }
        text::same_text(self.to_text().as_str(), other.to_text().as_str())
    }
}

impl vstd::std_specs::cmp::PartialEqSpecImpl for VersionReq {
    open spec fn obeys_eq_spec() -> bool {
        true
    }

    open spec fn eq_spec(&self, other: &Self) -> bool {
        same_req(self@, other@)
    }
}

impl Eq for VersionReq {

}

/// Feeds a text into a hasher with `str`'s `hash`. Nothing is stated of it: what
/// becomes of the hasher is up to the hasher.
#[verifier::external_body]
fn hash_text<H: std::hash::Hasher>(text: &str, state: &mut H) {
    std::hash::Hash::hash(text, state)
}

impl std::hash::Hash for VersionReq {
    /// Requirements that ask for the same are hashed alike: by their texts.
    fn hash<H: std::hash::Hasher>(&self, state: &mut H) {
        hash_text(self.to_text().as_str(), state);
    }
}

impl Plain for VersionReq {
    fn duplicate(&self) -> (copy: Self) {
        proof {
            use_type_invariant(self);
        }
        let kind = match &self.kind {
            VersionReqKind::Exact(version) => VersionReqKind::Exact(version.duplicate()),
            VersionReqKind::Parsed { source, plain } => VersionReqKind::Parsed {
                source: source.clone(),
                plain: plain.clone(),
            },
        };
        VersionReq { kind }
    }
}

impl Clone for VersionReq {
    fn clone(&self) -> (copy: Self)
        ensures
            copy@ == self@,
    {
        self.duplicate()
    }
}

impl VersionReq {
    /// Reads a requirement, or says what is wrong with it.
    pub fn parse(text: &str) -> (parsed: Result<VersionReq, String>)
        requires
            numbers_fit(text@),
        ensures
            match parsed {
                Ok(req) => requirement_text(text@) is Ok && req@ == VersionReqView::Parsed(text@),
                Err(message) => requirement_text(text@) == Err::<Seq<char>, Seq<char>>(message@),
            },
    {
        match read_requirement(text) {
            Ok(plain) => {
                let kind = VersionReqKind::Parsed { source: text.to_owned(), plain };
                Ok(VersionReq { kind })
            },
            Err(message) => Err(message),
        }
    }

    /// The requirement that only `version` meets.
    pub fn exact(version: &Version) -> (req: VersionReq)
        ensures
            req@ == VersionReqView::Exact(version@),
    {
        VersionReq { kind: VersionReqKind::Exact(version.duplicate()) }
    }

    /// Whether `version` meets the requirement.
    pub fn matches(&self, version: &Version) -> (matches: bool)
        ensures
            matches == req_matches(self@, version@),
    {
        proof {
            use_type_invariant(self);
        }
        match &self.kind {
            VersionReqKind::Exact(exact) => match_exact(exact, version),
            VersionReqKind::Parsed { source, .. } => match_requirement(source.as_str(), version),
        }
    }

    /// The requirement as text.
    pub fn to_text(&self) -> (written: String)
        ensures
            written@ == req_text(self@),
    {
        proof {
            use_type_invariant(self);
        }
        match &self.kind {
            VersionReqKind::Exact(exact) => {
                let mut written: String = "=".to_owned();
                written.append(exact.precedence_to_text().as_str());
                written
            },
            VersionReqKind::Parsed { plain, .. } => plain.clone(),
        }
    }

    /// Whether two requirements hold the same: both pin the same version, down
    /// to build metadata, or both were written alike.
    pub fn is_same(&self, other: &VersionReq) -> (same: bool)
        ensures
            same == (self@ == other@),
    {
        match (&self.kind, &other.kind) {
            (VersionReqKind::Exact(a), VersionReqKind::Exact(b)) => a.is_identical(b),
            (
                VersionReqKind::Parsed { source: a, .. },
                VersionReqKind::Parsed { source: b, .. },
            ) => text::same_text(a.as_str(), b.as_str()),
            _ => false,
        }
    }
}

/// A `-` or a `+` stands before `at`, and from there on only characters of a
/// version.
pub open spec fn is_qualified(text: Seq<char>, at: int) -> bool {
    exists|k: int|
        {
            &&& 0 <= k < at <= text.len()
            &&& (#[trigger] text[k]) == '-' || text[k] == '+'
            &&& forall|m: int|
                k <= m < at ==> {
                    let c = #[trigger] text[m];
                    '0' <= c <= '9' || 'a' <= c <= 'z' || 'A' <= c <= 'Z' || c == '.' || c == '-'
                        || c == '+'
                }
        }
}

/// Digits and nothing else stand from one place to another, and none before them.
pub open spec fn is_number(text: Seq<char>, from: int, to: int) -> bool {
    &&& 0 <= from <= to <= text.len()
    &&& forall|m: int| from <= m < to ==> '0' <= #[trigger] text[m] <= '9'
    &&& from > 0 ==> !('0' <= text[from - 1] <= '9')
}

proof fn lemma_qualified(text: Seq<char>, at: int)
    ensures
        in_qualifier(text, at) <==> is_qualified(text, at),
    decreases at,
{
    if 0 < at <= text.len() {
        lemma_qualified(text, at - 1);
        if in_qualifier(text, at) {
            if text[at - 1] == '-' || text[at - 1] == '+' {
                assert(is_qualified(text, at));
            } else {
                let k = choose|k: int|
                    {
                        &&& 0 <= k < at - 1 <= text.len()
                        &&& (#[trigger] text[k]) == '-' || text[k] == '+'
                        &&& forall|m: int|
                            k <= m < at - 1 ==> {
                                let c = #[trigger] text[m];
                                '0' <= c <= '9' || 'a' <= c <= 'z' || 'A' <= c <= 'Z' || c == '.'
                                    || c == '-' || c == '+'
                            }
                    };
                assert(is_version_char(text[at - 1]));
                assert(text[k] == '-' || text[k] == '+');
                assert(is_qualified(text, at));
            }
        }
        if is_qualified(text, at) {
            let k = choose|k: int|
                {
                    &&& 0 <= k < at <= text.len()
                    &&& (#[trigger] text[k]) == '-' || text[k] == '+'
                    &&& forall|m: int|
                        k <= m < at ==> {
                            let c = #[trigger] text[m];
                            '0' <= c <= '9' || 'a' <= c <= 'z' || 'A' <= c <= 'Z' || c == '.' || c
                                == '-' || c == '+'
                        }
                };
            assert(is_version_char(text[at - 1]));
            if k < at - 1 {
                assert(text[k] == '-' || text[k] == '+');
                assert(is_qualified(text, at - 1));
            }
        }
    }
}

proof fn lemma_number_value(text: Seq<char>, from: int, to: int)
    requires
        is_number(text, from, to),
    ensures
        number_before(text, to) == text::value_of(text.subrange(from, to)),
    decreases to - from,
{
    let digits = text.subrange(from, to);
    if from == to {
        assert(digits =~= Seq::<char>::empty());
    } else {
        assert('0' <= text[to - 1] <= '9');
        lemma_number_value(text, from, to - 1);
        assert(digits.drop_last() =~= text.subrange(from, to - 1));
        assert(digits.last() == text[to - 1]);
    }
}

proof fn lemma_number_start(text: Seq<char>, to: int) -> (from: int)
    requires
        0 <= to <= text.len(),
    ensures
        is_number(text, from, to),
    decreases to,
{
    if to > 0 && '0' <= text[to - 1] <= '9' {
        lemma_number_start(text, to - 1)
    } else {
        to
    }
}

/// The numbers of a text fit exactly if every row of digits is, in decimal, less
/// than the largest number of 64 bits, but for those that stand behind a `-` or `+`
/// in the same version.
pub proof fn law_numbers_fit_by_their_value(text: Seq<char>)
    ensures
        numbers_fit(text) <==> forall|from: int, to: int|
            #[trigger] is_number(text, from, to) && !is_qualified(text, to) ==> text::value_of(
                text.subrange(from, to),
            ) < 0xffff_ffff_ffff_ffff,
{
    if numbers_fit(text) {
        assert forall|from: int, to: int| #[trigger]
            is_number(text, from, to) && !is_qualified(text, to) implies text::value_of(
            text.subrange(from, to),
        ) < 0xffff_ffff_ffff_ffff by {
            lemma_number_value(text, from, to);
            lemma_qualified(text, to);
        }
    }
    if forall|from: int, to: int| #[trigger]
        is_number(text, from, to) && !is_qualified(text, to) ==> text::value_of(
            text.subrange(from, to),
        ) < 0xffff_ffff_ffff_ffff {
        assert forall|end: int|
            0 <= end <= text.len() && !in_qualifier(text, end) implies #[trigger] number_before(
            text,
            end,
        ) < u64::MAX by {
            let from = lemma_number_start(text, end);
            lemma_number_value(text, from, end);
            lemma_qualified(text, end);
        }
    }
}

/// Requirements that pin versions ask for the same exactly if the versions differ at
/// most in build metadata, those that were read exactly if they come to the same
/// text. One of each kind ask for the same only if the text is the version behind a
/// `=`.
pub proof fn law_requirements_ask_for_the_same(
    a: VersionView,
    b: VersionView,
    x: Seq<char>,
    y: Seq<char>,
)
    ensures
        same_req(VersionReqView::Exact(a), VersionReqView::Exact(b)) <==> a.major == b.major
            && a.minor == b.minor && a.patch == b.patch && a.pre == b.pre,
        requirement_text(x) is Ok && requirement_text(y) is Ok ==> (same_req(
            VersionReqView::Parsed(x),
            VersionReqView::Parsed(y),
        ) <==> requirement_text(x) == requirement_text(y)),
        requirement_text(x) is Ok && version::are_readable(a.pre) ==> (same_req(
            VersionReqView::Exact(a),
            VersionReqView::Parsed(x),
        ) <==> requirement_text(x) == Ok::<Seq<char>, Seq<char>>(
            "="@ + version::precedence_text(a),
        )),
        !version::are_readable(a.pre) ==> !same_req(
            VersionReqView::Exact(a),
            VersionReqView::Parsed(x),
        ),
{
}

} // verus!
