//! Versions and version requirements of packages, by the rules of semantic
//! versioning.

use vstd::prelude::*;

use crate::order;
use crate::order::Order;
use crate::ordered::{Key, Ranked};
use crate::plain::Plain;
use crate::text;

verus! {

/// One identifier of a pre-release or of build metadata.
#[derive(Debug, PartialEq, Eq)]
pub enum Identifier {
    Numeric(u64),
    AlphaNumeric(String),
}

/// What an identifier holds.
pub enum IdentifierView {
    Numeric(nat),
    AlphaNumeric(Seq<char>),
}

impl View for Identifier {
    type V = IdentifierView;

    open spec fn view(&self) -> IdentifierView {
        match self {
            Identifier::Numeric(number) => IdentifierView::Numeric(*number as nat),
            Identifier::AlphaNumeric(name) => IdentifierView::AlphaNumeric(name@),
        }
    }
}

impl DeepView for Identifier {
    type V = IdentifierView;

    open spec fn deep_view(&self) -> IdentifierView {
        self.view()
    }
}

impl Plain for Identifier {
    fn duplicate(&self) -> (copy: Self) {
        match self {
            Identifier::Numeric(number) => Identifier::Numeric(*number),
            Identifier::AlphaNumeric(name) => Identifier::AlphaNumeric(name.clone()),
        }
    }
}

impl Clone for Identifier {
    fn clone(&self) -> (copy: Self)
        ensures
            copy@ == self@,
    {
        self.duplicate()
    }
}

/// A version of a package.
#[derive(Debug, Eq)]
pub struct Version {
    pub major: u64,
    pub minor: u64,
    pub patch: u64,
    pub pre: Vec<Identifier>,
    pub build: Vec<Identifier>,
}

/// What a version holds.
#[verifier::ext_equal]
pub struct VersionView {
    pub major: nat,
    pub minor: nat,
    pub patch: nat,
    pub pre: Seq<IdentifierView>,
    pub build: Seq<IdentifierView>,
}

impl View for Version {
    type V = VersionView;

    open spec fn view(&self) -> VersionView {
        VersionView {
            major: self.major as nat,
            minor: self.minor as nat,
            patch: self.patch as nat,
            pre: self.pre.deep_view(),
            build: self.build.deep_view(),
        }
    }
}

impl DeepView for Version {
    type V = VersionView;

    open spec fn deep_view(&self) -> VersionView {
        self.view()
    }
}

impl Plain for Version {
    fn duplicate(&self) -> (copy: Self) {
        Version {
            major: self.major,
            minor: self.minor,
            patch: self.patch,
            pre: self.pre.duplicate(),
            build: self.build.duplicate(),
        }
    }
}

impl Clone for Version {
    fn clone(&self) -> (copy: Self)
        ensures
            copy@ == self@,
    {
        self.duplicate()
    }
}

// ---------------------------------------------------------------------------
// Precedence
// ---------------------------------------------------------------------------

/// Numbers come before names.
pub open spec fn identifier_key(identifier: IdentifierView) -> Seq<int> {
    match identifier {
        IdentifierView::Numeric(number) => seq![1, number as int],
        IdentifierView::AlphaNumeric(name) => seq![2int] + order::text_key(name),
    }
}

/// Identifiers compare one by one, and fewer come before more.
pub open spec fn identifiers_key(identifiers: Seq<IdentifierView>) -> Seq<int>
    decreases identifiers.len(),
{
    if identifiers.len() == 0 {
        Seq::empty()
    } else {
        identifier_key(identifiers[0]) + identifiers_key(identifiers.drop_first())
    }
}

/// A pre-release comes before its release.
pub open spec fn pre_key(pre: Seq<IdentifierView>) -> Seq<int> {
    if pre.len() == 0 {
        seq![1]
    } else {
        seq![0int] + identifiers_key(pre)
    }
}

/// The place of a version among versions. Build metadata does not count.
pub open spec fn version_key(version: VersionView) -> Seq<int> {
    seq![version.major as int, version.minor as int, version.patch as int] + pre_key(version.pre)
}

impl Ranked for VersionView {
    open spec fn sort_key(self) -> Seq<int> {
        version_key(self)
    }
}

/// Two versions that differ at most in build metadata.
pub open spec fn same_version(a: VersionView, b: VersionView) -> bool {
    a.major == b.major && a.minor == b.minor && a.patch == b.patch && a.pre == b.pre
}

proof fn lemma_identifiers_key_injective(a: Seq<IdentifierView>, b: Seq<IdentifierView>)
    ensures
        identifiers_key(a) == identifiers_key(b) <==> a == b,
    decreases a.len(),
{
    let p = identifiers_key(a);
    let q = identifiers_key(b);
    if p == q {
        if a.len() == 0 || b.len() == 0 {
            if a.len() != 0 {
                assert(identifier_key(a[0]).len() > 0);
            }
            if b.len() != 0 {
                assert(identifier_key(b[0]).len() > 0);
            }
            assert(a =~= b);
        } else {
            let x = identifiers_key(a.drop_first());
            let y = identifiers_key(b.drop_first());
            assert(p[0] == identifier_key(a[0])[0]);
            assert(q[0] == identifier_key(b[0])[0]);
            match (a[0], b[0]) {
                (IdentifierView::Numeric(m), IdentifierView::Numeric(n)) => {
                    assert(p[1] == m as int);
                    assert(q[1] == n as int);
                    assert(x =~= p.skip(2));
                    assert(y =~= q.skip(2));
                },
                (IdentifierView::AlphaNumeric(m), IdentifierView::AlphaNumeric(n)) => {
                    assert(p.skip(1) =~= order::text_key(m) + x);
                    assert(q.skip(1) =~= order::text_key(n) + y);
                    order::lemma_text_key_first(m, x, n, y);
                },
                _ => {},
            }
            lemma_identifiers_key_injective(a.drop_first(), b.drop_first());
            assert(a =~= seq![a[0]] + a.drop_first());
            assert(b =~= seq![b[0]] + b.drop_first());
        }
    }
}

/// Versions have the same place exactly if they differ at most in build metadata.
pub proof fn lemma_version_key_injective(a: VersionView, b: VersionView)
    ensures
        version_key(a) == version_key(b) <==> same_version(a, b),
{
    let p = version_key(a);
    let q = version_key(b);
    if p == q {
        assert(p[0] == a.major && p[1] == a.minor && p[2] == a.patch);
        assert(q[0] == b.major && q[1] == b.minor && q[2] == b.patch);
        assert(p.skip(3) =~= pre_key(a.pre));
        assert(q.skip(3) =~= pre_key(b.pre));
        assert(pre_key(a.pre)[0] == pre_key(b.pre)[0]);
        if a.pre.len() != 0 {
            assert(pre_key(a.pre).skip(1) =~= identifiers_key(a.pre));
            assert(pre_key(b.pre).skip(1) =~= identifiers_key(b.pre));
            lemma_identifiers_key_injective(a.pre, b.pre);
        } else {
            assert(a.pre =~= b.pre);
        }
    }
}

/// Compares versions with `semver::Version`'s `cmp`. Stated of it: it goes by
/// major, minor and patch number, then by the pre-release, where a release
/// comes last; identifiers compare one by one, numbers as numbers and before
/// names, names by their characters.
#[verifier::external_body]
pub(crate) fn compare_versions(a: &Version, b: &Version) -> (result: Order)
    ensures
        result == order::order_of(version_key(a@), version_key(b@)),
{
    let id = |i: &Identifier| match i {
        Identifier::Numeric(n) => semver::Identifier::Numeric(*n),
        Identifier::AlphaNumeric(t) => semver::Identifier::AlphaNumeric(t.clone()),
    };
    let full = |v: &Version| {
        let pre = v.pre.iter().map(id).collect();
        let build = v.build.iter().map(id).collect();
        semver::Version { major: v.major, minor: v.minor, patch: v.patch, pre, build }
    };
    match full(a).cmp(&full(b)) {
        std::cmp::Ordering::Less => Order::Less,
        std::cmp::Ordering::Equal => Order::Equal,
        std::cmp::Ordering::Greater => Order::Greater,
    }
}

impl Key for Version {
    type Model = VersionView;

    open spec fn model(&self) -> VersionView {
        self@
    }

    fn compare(&self, other: &Self) -> (result: Order) {
        assert(self.model().sort_key() == version_key(self@));
        assert(other.model().sort_key() == version_key(other@));
        compare_versions(self, other)
    }

    fn same_key(&self) -> (copy: Self) {
        self.duplicate()
    }
}

impl PartialEq for Version {
    fn eq(&self, other: &Self) -> (same: bool) {
        match compare_versions(self, other) {
            Order::Equal => true,
            _ => false,
        }
    }
}

impl vstd::std_specs::cmp::PartialEqSpecImpl for Version {
    open spec fn obeys_eq_spec() -> bool {
        true
    }

    open spec fn eq_spec(&self, other: &Self) -> bool {
        order::order_of(version_key(self@), version_key(other@)) == Order::Equal
    }
}

// ---------------------------------------------------------------------------
// Versions as text
// ---------------------------------------------------------------------------

/// How an identifier is written.
pub open spec fn identifier_text(identifier: IdentifierView) -> Seq<char> {
    match identifier {
        IdentifierView::Numeric(number) => text::decimal(number),
        IdentifierView::AlphaNumeric(name) => name,
    }
}

/// How identifiers are written.
pub open spec fn identifiers_text(identifiers: Seq<IdentifierView>) -> Seq<char> {
    text::joined(
        identifiers.map_values(|identifier: IdentifierView| identifier_text(identifier)),
        "."@,
    )
}

/// The mark and the identifiers, if there are any.
pub open spec fn marked_identifiers(mark: Seq<char>, identifiers: Seq<IdentifierView>) -> Seq<
    char,
> {
    if identifiers.len() == 0 {
        Seq::empty()
    } else {
        mark + identifiers_text(identifiers)
    }
}

/// How a version is written without its build metadata.
pub open spec fn precedence_text(version: VersionView) -> Seq<char> {
    text::decimal(version.major) + "."@ + text::decimal(version.minor) + "."@ + text::decimal(
        version.patch,
    ) + marked_identifiers("-"@, version.pre)
}

/// How a version is written.
pub open spec fn version_text(version: VersionView) -> Seq<char> {
    precedence_text(version) + marked_identifiers("+"@, version.build)
}

fn identifiers_to_text(mark: &str, identifiers: &Vec<Identifier>) -> (written: String)
    ensures
        written@ == marked_identifiers(mark@, identifiers.deep_view()),
{
    if identifiers.len() == 0 {
        return String::new();
    }
    let mut parts: Vec<String> = Vec::new();
    let mut i: usize = 0;
    let ghost texts = identifiers.deep_view().map_values(
        |identifier: IdentifierView| identifier_text(identifier),
    );
    assert(parts.deep_view() =~= texts.take(0));
    while i < identifiers.len()
        invariant
            i <= identifiers@.len(),
            texts == identifiers.deep_view().map_values(
                |identifier: IdentifierView| identifier_text(identifier),
            ),
            parts.deep_view() == texts.take(i as int),
        decreases identifiers@.len() - i,
    {
        let part: String = match &identifiers[i] {
            Identifier::Numeric(number) => text::decimal_text(*number),
            Identifier::AlphaNumeric(name) => name.clone(),
        };
        let ghost before = parts.deep_view();
        parts.push(part);
        proof {
            assert(texts[i as int] == part@);
            assert(parts.deep_view() =~= before.push(part@));
            assert(texts.take(i + 1) =~= texts.take(i as int).push(part@));
        }
        i += 1;
    }
    assert(texts.take(texts.len() as int) =~= texts);
    let mut written: String = mark.to_owned();
    written.append(text::join_text(&parts, ".").as_str());
    written
}

fn same_identifiers(a: &Vec<Identifier>, b: &Vec<Identifier>) -> (same: bool)
    ensures
        same == (a.deep_view() == b.deep_view()),
{
    if a.len() != b.len() {
        assert(a.deep_view().len() != b.deep_view().len());
        return false;
    }
    let mut i: usize = 0;
    while i < a.len()
        invariant
            i <= a@.len(),
            a@.len() == b@.len(),
            forall|j: int| 0 <= j < i ==> #[trigger] a.deep_view()[j] == b.deep_view()[j],
        decreases a@.len() - i,
    {
        let same: bool = match (&a[i], &b[i]) {
            (Identifier::Numeric(m), Identifier::Numeric(n)) => *m == *n,
            (Identifier::AlphaNumeric(m), Identifier::AlphaNumeric(n)) => text::same_text(
                m.as_str(),
                n.as_str(),
            ),
            _ => false,
        };
        if !same {
            assert(a.deep_view()[i as int] != b.deep_view()[i as int]);
            return false;
        }
        i += 1;
    }
    assert(a.deep_view() =~= b.deep_view());
    true
}

impl Version {
    /// A release.
    pub fn new(major: u64, minor: u64, patch: u64) -> (version: Version)
        ensures
            version@ == (VersionView {
                major: major as nat,
                minor: minor as nat,
                patch: patch as nat,
                pre: Seq::empty(),
                build: Seq::empty(),
            }),
    {
        let version = Version { major, minor, patch, pre: Vec::new(), build: Vec::new() };
        assert(version@.pre =~= Seq::<IdentifierView>::empty());
        assert(version@.build =~= Seq::<IdentifierView>::empty());
        version
    }

    /// The version as text, without its build metadata.
    pub fn precedence_to_text(&self) -> (written: String)
        ensures
            written@ == precedence_text(self@),
    {
        let mut written: String = text::decimal_text(self.major);
        written.append(".");
        written.append(text::decimal_text(self.minor).as_str());
        written.append(".");
        written.append(text::decimal_text(self.patch).as_str());
        written.append(identifiers_to_text("-", &self.pre).as_str());
        written
    }

    /// The version as text.
    pub fn to_text(&self) -> (written: String)
        ensures
            written@ == version_text(self@),
    {
        let mut written: String = self.precedence_to_text();
        written.append(identifiers_to_text("+", &self.build).as_str());
        written
    }

    /// Whether two versions are the same, build metadata and all.
    pub fn is_identical(&self, other: &Version) -> (same: bool)
        ensures
            same == (self@ == other@),
    {
        let same: bool = self.major == other.major && self.minor == other.minor && self.patch
            == other.patch && same_identifiers(&self.pre, &other.pre) && same_identifiers(
            &self.build,
            &other.build,
        );
        assert(same ==> self@ =~= other@);
        same
    }

    /// Whether two versions differ at most in build metadata.
    pub fn is_same(&self, other: &Version) -> (same: bool)
        ensures
            same == same_version(self@, other@),
    {
        proof {
            lemma_version_key_injective(self@, other@);
        }
        match compare_versions(self, other) {
            Order::Equal => true,
            _ => false,
        }
    }
}

// ---------------------------------------------------------------------------
// Texts tell versions apart
// ---------------------------------------------------------------------------

/// A character of an identifier.
pub open spec fn is_identifier_char(c: char) -> bool {
    ('0' <= c <= '9') || ('a' <= c <= 'z') || ('A' <= c <= 'Z') || c == '-'
}

/// An identifier as it is read from a text: a number is read as one, and names
/// hold no other characters than identifiers can.
pub open spec fn is_readable_identifier(identifier: IdentifierView) -> bool {
    match identifier {
        IdentifierView::Numeric(number) => number <= u64::MAX,
        IdentifierView::AlphaNumeric(name) => {
            &&& forall|i: int| 0 <= i < name.len() ==> is_identifier_char(#[trigger] name[i])
            &&& forall|number: nat| number <= u64::MAX ==> name != #[trigger] text::decimal(number)
        },
    }
}

/// All identifiers are such.
pub open spec fn are_readable(identifiers: Seq<IdentifierView>) -> bool {
    forall|i: int|
        0 <= i < identifiers.len() ==> is_readable_identifier(#[trigger] identifiers[i])
}

/// A version as it is read from a text.
pub open spec fn is_readable(version: VersionView) -> bool {
    are_readable(version.pre) && are_readable(version.build)
}

fn check_identifier_chars(name: &str) -> (fit: bool)
    ensures
        fit == forall|i: int| 0 <= i < name@.len() ==> is_identifier_char(#[trigger] name@[i]),
{
    let chars: Vec<char> = text::characters(name);
    let mut i: usize = 0;
    while i < chars.len()
        invariant
            i <= chars@.len(),
            chars@ == name@,
            forall|j: int| 0 <= j < i ==> is_identifier_char(#[trigger] name@[j]),
        decreases chars@.len() - i,
    {
        let c: char = chars[i];
        if !(('0' <= c && c <= '9') || ('a' <= c && c <= 'z') || ('A' <= c && c <= 'Z') || c
            == '-') {
            assert(!is_identifier_char(name@[i as int]));
            return false;
        }
        i += 1;
    }
    true
}

fn check_identifier(identifier: &Identifier) -> (readable: bool)
    ensures
        readable == is_readable_identifier(identifier@),
{
    match identifier {
        Identifier::Numeric(_) => true,
        Identifier::AlphaNumeric(name) => {
            if !check_identifier_chars(name.as_str()) {
                proof {
                    let held = identifier@->AlphaNumeric_0;
                    assert(exists|i: int|
                        0 <= i < held.len() && !is_identifier_char(#[trigger] held[i]));
                }
                return false;
            }
            match text::decimal_number(name.as_str()) {
                Some(number) => {
                    assert(name@ == text::decimal(number as nat));
                    false
                },
                None => true,
            }
        },
    }
}

/// Whether all identifiers are as they are read from a text.
pub fn check_identifiers(identifiers: &Vec<Identifier>) -> (readable: bool)
    ensures
        readable == are_readable(identifiers.deep_view()),
{
    let mut i: usize = 0;
    while i < identifiers.len()
        invariant
            i <= identifiers@.len(),
            forall|j: int|
                0 <= j < i ==> is_readable_identifier(#[trigger] identifiers.deep_view()[j]),
        decreases identifiers@.len() - i,
    {
        assert(identifiers.deep_view()[i as int] == identifiers@[i as int]@);
        if !check_identifier(&identifiers[i]) {
            return false;
        }
        i += 1;
    }
    true
}

proof fn lemma_identifier_chars(identifier: IdentifierView)
    requires
        is_readable_identifier(identifier),
    ensures
        forall|i: int|
            0 <= i < identifier_text(identifier).len() ==> is_identifier_char(
                #[trigger] identifier_text(identifier)[i],
            ),
{
    if let IdentifierView::Numeric(number) = identifier {
        text::lemma_decimal(number, number);
        assert forall|i: int| 0 <= i < identifier_text(identifier).len() implies is_identifier_char(
            #[trigger] identifier_text(identifier)[i],
        ) by {
            assert('0' <= text::decimal(number)[i] <= '9');
        }
    }
}

proof fn lemma_identifiers_chars(identifiers: Seq<IdentifierView>)
    requires
        are_readable(identifiers),
    ensures
        forall|i: int|
            0 <= i < identifiers_text(identifiers).len() ==> {
                let c = #[trigger] identifiers_text(identifiers)[i];
                is_identifier_char(c) || c == '.'
            },
    decreases identifiers.len(),
{
    let texts = identifiers.map_values(
        |identifier: IdentifierView| identifier_text(identifier),
    );
    reveal_strlit(".");
    if identifiers.len() > 0 {
        let fewer = identifiers.drop_last();
        let last = identifiers[identifiers.len() - 1];
        assert(texts.drop_last() =~= fewer.map_values(
            |identifier: IdentifierView| identifier_text(identifier),
        ));
        assert forall|i: int| 0 <= i < fewer.len() implies is_readable_identifier(
            #[trigger] fewer[i],
        ) by {
            assert(fewer[i] == identifiers[i]);
        }
        lemma_identifiers_chars(fewer);
        lemma_identifier_chars(last);
        let before = identifiers_text(fewer);
        let whole = identifiers_text(identifiers);
        assert(texts.last() == identifier_text(last));
        assert forall|i: int| 0 <= i < whole.len() implies {
            let c = #[trigger] whole[i];
            is_identifier_char(c) || c == '.'
        } by {
            if identifiers.len() == 1 {
                assert(whole[i] == identifier_text(last)[i]);
            } else if i < before.len() {
                assert(whole[i] == before[i]);
            } else if i > before.len() {
                assert(whole[i] == identifier_text(last)[i - before.len() - 1]);
            }
        }
    }
}

proof fn lemma_identifiers_apart(a: Seq<IdentifierView>, b: Seq<IdentifierView>)
    requires
        are_readable(a),
        are_readable(b),
        a.len() > 0,
        b.len() > 0,
        identifiers_text(a) == identifiers_text(b),
    ensures
        a == b,
{
    reveal_strlit(".");
    assert("."@ =~= seq!['.']);
    let x = a.map_values(|identifier: IdentifierView| identifier_text(identifier));
    let y = b.map_values(|identifier: IdentifierView| identifier_text(identifier));
    assert forall|i: int, j: int|
        #![trigger x[i][j]]
        0 <= i < x.len() && 0 <= j < x[i].len() implies x[i][j] != '.' by {
        lemma_identifier_chars(a[i]);
        assert(is_identifier_char(identifier_text(a[i])[j]));
    }
    assert forall|i: int, j: int|
        #![trigger y[i][j]]
        0 <= i < y.len() && 0 <= j < y[i].len() implies y[i][j] != '.' by {
        lemma_identifier_chars(b[i]);
        assert(is_identifier_char(identifier_text(b[i])[j]));
    }
    text::lemma_split_joined(x, '.');
    text::lemma_split_joined(y, '.');
    assert(x == y);
    assert forall|i: int| 0 <= i < a.len() implies a[i] == b[i] by {
        assert(x[i] == y[i]);
        assert(is_readable_identifier(a[i]) && is_readable_identifier(b[i]));
        match (a[i], b[i]) {
            (IdentifierView::Numeric(m), IdentifierView::Numeric(n)) => {
                text::lemma_decimal(m, n);
            },
            _ => {},
        }
    }
    assert(a =~= b);
}

/// Marked identifiers at the end of texts that hold no mark before them.
proof fn lemma_marked_apart(
    p: Seq<char>,
    q: Seq<char>,
    mark: char,
    a: Seq<IdentifierView>,
    b: Seq<IdentifierView>,
)
    requires
        forall|i: int| 0 <= i < p.len() ==> p[i] != mark,
        forall|i: int| 0 <= i < q.len() ==> q[i] != mark,
        are_readable(a),
        are_readable(b),
        p + marked_identifiers(seq![mark], a) == q + marked_identifiers(seq![mark], b),
    ensures
        p == q,
        a == b,
{
    let x = identifiers_text(a);
    let y = identifiers_text(b);
    let whole = p + marked_identifiers(seq![mark], a);
    let other = q + marked_identifiers(seq![mark], b);
    if a.len() == 0 && b.len() == 0 {
        assert(whole =~= p);
        assert(other =~= q);
        assert(a =~= b);
    } else if a.len() == 0 {
        assert(whole =~= p);
        assert(other[q.len() as int] == mark);
        assert(whole[q.len() as int] == p[q.len() as int]);
    } else if b.len() == 0 {
        assert(other =~= q);
        assert(whole[p.len() as int] == mark);
        assert(other[p.len() as int] == q[p.len() as int]);
    } else {
        assert(whole =~= p + seq![mark] + x);
        assert(other =~= q + seq![mark] + y);
        text::lemma_parts_at_mark(p, q, mark, x, y);
        lemma_identifiers_apart(a, b);
    }
}

/// The three numbers of a version, as they are written.
spec fn numbers_text(version: VersionView) -> Seq<char> {
    text::decimal(version.major) + "."@ + text::decimal(version.minor) + "."@ + text::decimal(
        version.patch,
    )
}

proof fn lemma_numbers_text(version: VersionView)
    ensures
        forall|i: int|
            0 <= i < numbers_text(version).len() ==> {
                let c = #[trigger] numbers_text(version)[i];
                ('0' <= c <= '9') || c == '.'
            },
{
    reveal_strlit(".");
    text::lemma_decimal(version.major, version.major);
    text::lemma_decimal(version.minor, version.minor);
    text::lemma_decimal(version.patch, version.patch);
    let x = text::decimal(version.major);
    let y = text::decimal(version.minor);
    let z = text::decimal(version.patch);
    let whole = numbers_text(version);
    assert forall|i: int| 0 <= i < whole.len() implies {
        let c = #[trigger] whole[i];
        ('0' <= c <= '9') || c == '.'
    } by {
        let n = x.len() as int;
        let m = n + 1 + y.len();
        if i < n {
            assert(whole[i] == x[i]);
        } else if i == n {
        } else if i < m {
            assert(whole[i] == y[i - n - 1]);
        } else if i > m {
            assert(whole[i] == z[i - m - 1]);
        }
    }
}

proof fn lemma_numbers_apart(a: VersionView, b: VersionView)
    requires
        numbers_text(a) == numbers_text(b),
    ensures
        a.major == b.major,
        a.minor == b.minor,
        a.patch == b.patch,
{
    reveal_strlit(".");
    assert("."@ =~= seq!['.']);
    let (x, y, z) = (text::decimal(a.major), text::decimal(a.minor), text::decimal(a.patch));
    let (u, v, w) = (text::decimal(b.major), text::decimal(b.minor), text::decimal(b.patch));
    text::lemma_decimal(a.major, b.major);
    text::lemma_decimal(a.minor, b.minor);
    text::lemma_decimal(a.patch, b.patch);
    text::lemma_decimal(b.major, b.major);
    text::lemma_decimal(b.minor, b.minor);
    assert(numbers_text(a) =~= x + seq!['.'] + (y + seq!['.'] + z));
    assert(numbers_text(b) =~= u + seq!['.'] + (v + seq!['.'] + w));
    text::lemma_parts_at_mark(x, u, '.', y + seq!['.'] + z, v + seq!['.'] + w);
    text::lemma_parts_at_mark(y, v, '.', z, w);
}

/// Versions that are read from texts and written alike without their build
/// metadata differ at most in it.
pub proof fn law_precedence_is_written_apart(a: VersionView, b: VersionView)
    requires
        are_readable(a.pre),
        are_readable(b.pre),
        precedence_text(a) == precedence_text(b),
    ensures
        same_version(a, b),
{
    reveal_strlit("-");
    assert("-"@ =~= seq!['-']);
    lemma_numbers_text(a);
    lemma_numbers_text(b);
    assert(precedence_text(a) == numbers_text(a) + marked_identifiers(seq!['-'], a.pre));
    assert(precedence_text(b) == numbers_text(b) + marked_identifiers(seq!['-'], b.pre));
    lemma_marked_apart(numbers_text(a), numbers_text(b), '-', a.pre, b.pre);
    lemma_numbers_apart(a, b);
}

/// Versions that are read from texts and written alike are the same.
pub proof fn law_versions_are_written_apart(a: VersionView, b: VersionView)
    requires
        is_readable(a),
        is_readable(b),
        version_text(a) == version_text(b),
    ensures
        a == b,
{
    reveal_strlit("+");
    assert("+"@ =~= seq!['+']);
    let p = precedence_text(a);
    let q = precedence_text(b);
    lemma_no_plus(a);
    lemma_no_plus(b);
    lemma_marked_apart(p, q, '+', a.build, b.build);
    law_precedence_is_written_apart(a, b);
}

proof fn lemma_no_plus(version: VersionView)
    requires
        are_readable(version.pre),
    ensures
        forall|i: int|
            0 <= i < precedence_text(version).len() ==> precedence_text(version)[i] != '+',
{
    reveal_strlit("-");
    lemma_numbers_text(version);
    lemma_identifiers_chars(version.pre);
    let numbers = numbers_text(version);
    let whole = precedence_text(version);
    assert forall|i: int| 0 <= i < whole.len() implies whole[i] != '+' by {
        if i < numbers.len() {
            assert(whole[i] == numbers[i]);
        } else if i > numbers.len() {
            assert(whole[i] == identifiers_text(version.pre)[i - numbers.len() - 1]);
        }
    }
}

// ---------------------------------------------------------------------------
// What precedence and texts come to
// ---------------------------------------------------------------------------

/// One identifier comes before another: numbers by their size, names by their
/// characters, and every number before every name.
pub open spec fn identifier_before(a: IdentifierView, b: IdentifierView) -> bool {
    match (a, b) {
        (IdentifierView::Numeric(m), IdentifierView::Numeric(n)) => m < n,
        (IdentifierView::Numeric(_), IdentifierView::AlphaNumeric(_)) => true,
        (IdentifierView::AlphaNumeric(_), IdentifierView::Numeric(_)) => false,
        (IdentifierView::AlphaNumeric(s), IdentifierView::AlphaNumeric(t)) => order::text_before(
            s,
            t,
        ),
    }
}

/// One row of identifiers comes before another: they agree up to some place, where
/// the one ends or has the identifier that comes first.
pub open spec fn identifiers_before(a: Seq<IdentifierView>, b: Seq<IdentifierView>) -> bool {
    exists|k: int|
        {
            &&& 0 <= k <= a.len()
            &&& k < b.len()
            &&& #[trigger] a.take(k) == b.take(k)
            &&& k == a.len() || identifier_before(a[k], b[k])
        }
}

/// One version comes before another: by its major, then its minor, then its patch
/// number, and a pre-release before its release and after the pre-releases whose
/// identifiers come first.
pub open spec fn version_before(a: VersionView, b: VersionView) -> bool {
    if a.major != b.major {
        a.major < b.major
    } else if a.minor != b.minor {
        a.minor < b.minor
    } else if a.patch != b.patch {
        a.patch < b.patch
    } else if a.pre.len() == 0 {
        false
    } else {
        b.pre.len() == 0 || identifiers_before(a.pre, b.pre)
    }
}

proof fn lemma_identifier_first(
    a: IdentifierView,
    x: Seq<int>,
    b: IdentifierView,
    y: Seq<int>,
)
    requires
        a != b,
    ensures
        order::precedes(identifier_key(a) + x, identifier_key(b) + y) <==> identifier_before(a, b),
{
    let p = identifier_key(a) + x;
    let q = identifier_key(b) + y;
    match (a, b) {
        (IdentifierView::Numeric(m), IdentifierView::Numeric(n)) => {
            assert(p[0] == 1 && q[0] == 1 && p[1] == m && q[1] == n);
            if m < n {
                assert(order::splits(p, q, 1));
            } else {
                assert(order::splits(q, p, 1));
                order::lemma_asymmetric(q, p);
            }
        },
        (IdentifierView::Numeric(_), IdentifierView::AlphaNumeric(_)) => {
            assert(p[0] == 1 && q[0] == 2);
            assert(order::splits(p, q, 0));
        },
        (IdentifierView::AlphaNumeric(_), IdentifierView::Numeric(_)) => {
            assert(p[0] == 2 && q[0] == 1);
            assert(order::splits(q, p, 0));
            order::lemma_asymmetric(q, p);
        },
        (IdentifierView::AlphaNumeric(s), IdentifierView::AlphaNumeric(t)) => {
            assert(p =~= seq![2int] + (order::text_key(s) + x));
            assert(q =~= seq![2int] + (order::text_key(t) + y));
            order::lemma_common_prefix(
                seq![2int],
                order::text_key(s) + x,
                order::text_key(t) + y,
            );
            order::lemma_text_key_first(s, x, t, y);
            order::lemma_text_before(s, t);
        },
    }
}

proof fn lemma_identifiers_before(a: Seq<IdentifierView>, b: Seq<IdentifierView>)
    ensures
        order::precedes(identifiers_key(a), identifiers_key(b)) <==> identifiers_before(a, b),
    decreases a.len(),
{
    let p = identifiers_key(a);
    let q = identifiers_key(b);
    if b.len() == 0 {
        assert(q.len() == 0);
    } else if a.len() == 0 {
        assert(identifier_key(b[0]).len() > 0);
        assert(order::splits(p, q, 0));
        assert(a.take(0) =~= b.take(0));
    } else {
        let rest = a.drop_first();
        let other = b.drop_first();
        if a[0] == b[0] {
            order::lemma_common_prefix(
                identifier_key(a[0]),
                identifiers_key(rest),
                identifiers_key(other),
            );
            lemma_identifiers_before(rest, other);
            if identifiers_before(rest, other) {
                let k = choose|k: int|
                    {
                        &&& 0 <= k <= rest.len()
                        &&& k < other.len()
                        &&& #[trigger] rest.take(k) == other.take(k)
                        &&& k == rest.len() || identifier_before(rest[k], other[k])
                    };
                assert(a.take(k + 1) =~= seq![a[0]] + rest.take(k));
                assert(b.take(k + 1) =~= seq![b[0]] + other.take(k));
            }
            if identifiers_before(a, b) {
                let k = choose|k: int|
                    {
                        &&& 0 <= k <= a.len()
                        &&& k < b.len()
                        &&& #[trigger] a.take(k) == b.take(k)
                        &&& k == a.len() || identifier_before(a[k], b[k])
                    };
                if k == 0 {
                    lemma_not_before_itself(a[0]);
                } else {
                    assert(rest.take(k - 1) =~= a.take(k).drop_first());
                    assert(other.take(k - 1) =~= b.take(k).drop_first());
                }
            }
        } else {
            lemma_identifier_first(a[0], identifiers_key(rest), b[0], identifiers_key(other));
            if identifier_before(a[0], b[0]) {
                assert(a.take(0) =~= b.take(0));
            }
            if identifiers_before(a, b) {
                let k = choose|k: int|
                    {
                        &&& 0 <= k <= a.len()
                        &&& k < b.len()
                        &&& #[trigger] a.take(k) == b.take(k)
                        &&& k == a.len() || identifier_before(a[k], b[k])
                    };
                if k > 0 {
                    assert(a.take(k)[0] == b.take(k)[0]);
                }
            }
        }
    }
}

proof fn lemma_not_before_itself(identifier: IdentifierView)
    ensures
        !identifier_before(identifier, identifier),
{
    if let IdentifierView::AlphaNumeric(name) = identifier {
        order::lemma_text_before(name, name);
        order::lemma_irreflexive(order::plain_key(name));
    }
}

/// What it means for the key of a version to precede that of another.
pub(crate) proof fn lemma_version_before(a: VersionView, b: VersionView)
    ensures
        order::precedes(version_key(a), version_key(b)) <==> version_before(a, b),
{
    let p = version_key(a);
    let q = version_key(b);
    assert(p[0] == a.major && p[1] == a.minor && p[2] == a.patch);
    assert(q[0] == b.major && q[1] == b.minor && q[2] == b.patch);
    if a.major != b.major || a.minor != b.minor || a.patch != b.patch {
        let at: int = if a.major != b.major {
            0
        } else if a.minor != b.minor {
            1
        } else {
            2
        };
        if p[at] < q[at] {
            assert(order::splits(p, q, at));
        } else {
            assert(order::splits(q, p, at));
            order::lemma_asymmetric(q, p);
        }
    } else {
        let numbers = seq![a.major as int, a.minor as int, a.patch as int];
        let x = pre_key(a.pre);
        let y = pre_key(b.pre);
        order::lemma_common_prefix(numbers, x, y);
        if a.pre.len() == 0 && b.pre.len() == 0 {
            order::lemma_irreflexive(x);
        } else if a.pre.len() == 0 {
            assert(order::splits(y, x, 0));
            order::lemma_asymmetric(y, x);
        } else if b.pre.len() == 0 {
            assert(order::splits(x, y, 0));
        } else {
            order::lemma_common_prefix(
                seq![0int],
                identifiers_key(a.pre),
                identifiers_key(b.pre),
            );
            lemma_identifiers_before(a.pre, b.pre);
        }
    }
}

/// Versions stand in the order of their numbers, the major number first. Of
/// versions with the same numbers the pre-releases stand before the release, by
/// their identifiers. Build metadata does not count.
pub proof fn law_versions_stand_by_their_numbers(a: VersionView, b: VersionView)
    ensures
        order::order_of(version_key(a), version_key(b)) == Order::Less <==> version_before(a, b),
        order::order_of(version_key(a), version_key(b)) == Order::Greater <==> version_before(
            b,
            a,
        ),
        order::order_of(version_key(a), version_key(b)) == Order::Equal <==> a.major == b.major
            && a.minor == b.minor && a.patch == b.patch && a.pre == b.pre,
{
    let p = version_key(a);
    let q = version_key(b);
    lemma_version_before(a, b);
    lemma_version_before(b, a);
    lemma_version_key_injective(a, b);
    order::lemma_irreflexive(p);
    if p != q {
        order::lemma_total(p, q);
        if order::precedes(p, q) {
            order::lemma_asymmetric(p, q);
        }
    }
}

/// A release is written as its three numbers in decimal with dots between them.
/// Every identifier is written behind those before it, after a dot, and the first
/// after `-` if it belongs to the pre-release and after `+` if to the build
/// metadata.
pub proof fn law_versions_are_written_part_by_part(version: VersionView, more: IdentifierView)
    ensures
        ({
            let written = match more {
                IdentifierView::Numeric(number) => text::decimal(number),
                IdentifierView::AlphaNumeric(name) => name,
            };
            &&& version.pre.len() == 0 && version.build.len() == 0 ==> version_text(version)
                == text::decimal(version.major) + "."@ + text::decimal(version.minor) + "."@
                + text::decimal(version.patch)
            &&& version.build.len() == 0 ==> version_text(
                VersionView { pre: version.pre.push(more), ..version },
            ) == version_text(version) + (if version.pre.len() == 0 {
                "-"@
            } else {
                "."@
            }) + written
            &&& version_text(VersionView { build: version.build.push(more), ..version })
                == version_text(version) + (if version.build.len() == 0 {
                "+"@
            } else {
                "."@
            }) + written
            &&& version.build.len() == 0 ==> precedence_text(version) == version_text(version)
            &&& precedence_text(version) == precedence_text(
                VersionView { build: version.build.push(more), ..version },
            )
        }),
{
    let written = identifier_text(more);
    lemma_more_identifiers("-"@, version.pre, more);
    lemma_more_identifiers("+"@, version.build, more);
    let longer = VersionView { pre: version.pre.push(more), ..version };
    let built = VersionView { build: version.build.push(more), ..version };
    if version.build.len() == 0 {
        assert(version_text(version) =~= precedence_text(version));
        assert(version_text(longer) =~= precedence_text(longer));
        if version.pre.len() == 0 {
            assert(version_text(version) =~= text::decimal(version.major) + "."@ + text::decimal(
                version.minor,
            ) + "."@ + text::decimal(version.patch));
        }
        assert(version_text(longer) =~= version_text(version) + (if version.pre.len() == 0 {
            "-"@
        } else {
            "."@
        }) + written);
    }
    assert(version_text(built) =~= version_text(version) + (if version.build.len() == 0 {
        "+"@
    } else {
        "."@
    }) + written);
}

proof fn lemma_more_identifiers(
    mark: Seq<char>,
    identifiers: Seq<IdentifierView>,
    more: IdentifierView,
)
    ensures
        marked_identifiers(mark, identifiers.push(more)) == marked_identifiers(mark, identifiers)
            + (if identifiers.len() == 0 {
            mark
        } else {
            "."@
        }) + identifier_text(more),
{
    let all = identifiers.push(more);
    let texts = all.map_values(|identifier: IdentifierView| identifier_text(identifier));
    let fewer = identifiers.map_values(|identifier: IdentifierView| identifier_text(identifier));
    assert(texts.drop_last() =~= fewer);
    assert(texts.last() == identifier_text(more));
    if identifiers.len() == 0 {
        assert(identifiers_text(all) == texts[0]);
        assert(marked_identifiers(mark, all) =~= marked_identifiers(mark, identifiers) + mark
            + identifier_text(more));
    } else {
        assert(identifiers_text(all) == identifiers_text(identifiers) + "."@ + identifier_text(
            more,
        ));
        assert(marked_identifiers(mark, all) =~= marked_identifiers(mark, identifiers) + "."@
            + identifier_text(more));
    }
}

} // verus!
