//! Names of packages.

use vstd::prelude::*;

use crate::order;
use crate::order::Order;
use crate::ordered::{Key, Ranked};
use crate::plain::Plain;
use crate::text;

verus! {

/// The scope and the name of a package, written `scope/name`.
#[derive(Debug, PartialEq, Eq, Hash)]
pub struct PackageName {
    scope: String,
    name: String,
}

/// What a package name holds.
#[verifier::ext_equal]
pub struct PackageNameView {
    pub scope: Seq<char>,
    pub name: Seq<char>,
}

impl View for PackageName {
    type V = PackageNameView;

    closed spec fn view(&self) -> PackageNameView {
        PackageNameView { scope: self.scope@, name: self.name@ }
    }
}

impl DeepView for PackageName {
    type V = PackageNameView;

    open spec fn deep_view(&self) -> PackageNameView {
        self.view()
    }
}

/// A character that scopes and names are made of.
pub open spec fn is_name_char(c: char) -> bool {
    ('a' <= c <= 'z') || ('0' <= c <= '9') || c == '-'
}

/// Scopes and names are lowercase letters, digits and `-`, at least one and at
/// most 64.
pub open spec fn is_valid_part(part: Seq<char>) -> bool {
    &&& 0 < part.len() <= 64
    &&& forall|i: int| 0 <= i < part.len() ==> is_name_char(#[trigger] part[i])
}

impl PackageNameView {
    /// Both parts are valid.
    pub open spec fn is_valid(self) -> bool {
        is_valid_part(self.scope) && is_valid_part(self.name)
    }
}

impl PackageName {
    #[verifier::type_invariant]
    spec fn parts_valid(self) -> bool {
        is_valid_part(self.scope@) && is_valid_part(self.name@)
    }
}

/// Why a text is not a package name.
#[derive(Debug, PartialEq, Eq)]
pub enum PackageNameError {
    /// It has no `/`.
    Format,
    /// This scope is not valid.
    Scope(String),
    /// This name is not valid.
    Name(String),
}

impl PackageNameError {
    /// How the error is written.
    pub open spec fn text(self) -> Seq<char> {
        match self {
            PackageNameError::Format => "a package name is of the form SCOPE/NAME"@,
            PackageNameError::Scope(scope) => "package scope '"@ + scope@
                + "' is invalid (scopes are 1 to 64 lowercase characters, digits and '-')"@,
            PackageNameError::Name(name) => "package name '"@ + name@
                + "' is invalid (names are 1 to 64 lowercase characters, digits and '-')"@,
        }
    }

    /// The error as a sentence.
    pub fn message(&self) -> (message: String)
        ensures
            message@ == self.text(),
    {
        match self {
            PackageNameError::Format => "a package name is of the form SCOPE/NAME".to_owned(),
            PackageNameError::Scope(scope) => {
                let mut message: String = "package scope '".to_owned();
                message.append(scope.as_str());
                message.append(
                    "' is invalid (scopes are 1 to 64 lowercase characters, digits and '-')",
                );
                message
            },
            PackageNameError::Name(name) => {
                let mut message: String = "package name '".to_owned();
                message.append(name.as_str());
                message.append(
                    "' is invalid (names are 1 to 64 lowercase characters, digits and '-')",
                );
                message
            },
        }
    }
}

impl Ranked for PackageNameView {
    open spec fn sort_key(self) -> Seq<int> {
        name_key(self)
    }
}

/// Names compare by their scopes first.
pub open spec fn name_key(name: PackageNameView) -> Seq<int> {
    order::text_key(name.scope) + order::text_key(name.name)
}

/// How a package name is written.
pub open spec fn name_text(name: PackageNameView) -> Seq<char> {
    name.scope + "/"@ + name.name
}

/// Keys that start with names compare by the names first.
pub proof fn lemma_name_first(a: PackageNameView, x: Seq<int>, b: PackageNameView, y: Seq<int>)
    ensures
        name_key(a) + x == name_key(b) + y <==> a == b && x == y,
        a == b ==> (order::precedes(name_key(a) + x, name_key(b) + y) <==> order::precedes(x, y)),
        a != b ==> (order::precedes(name_key(a) + x, name_key(b) + y) <==> order::precedes(
            name_key(a),
            name_key(b),
        )),
        name_key(a) == name_key(b) <==> a == b,
{
    let none = Seq::<int>::empty();
    let p = order::text_key(a.name);
    let q = order::text_key(b.name);
    assert(name_key(a) + x =~= order::text_key(a.scope) + (p + x));
    assert(name_key(b) + y =~= order::text_key(b.scope) + (q + y));
    order::lemma_text_key_first(a.scope, p + x, b.scope, q + y);
    order::lemma_text_key_first(a.name, x, b.name, y);
    assert(p + none =~= p && q + none =~= q);
    order::lemma_text_key_first(a.scope, p, b.scope, q);
    order::lemma_text_key_first(a.name, none, b.name, none);
}

fn check_part(part: &str) -> (valid: bool)
    ensures
        valid == is_valid_part(part@),
{
    let chars: Vec<char> = text::characters(part);
    if chars.len() == 0 || chars.len() > 64 {
        return false;
    }
    let mut i: usize = 0;
    while i < chars.len()
        invariant
            i <= chars@.len(),
            chars@ == part@,
            forall|j: int| 0 <= j < i ==> is_name_char(#[trigger] part@[j]),
        decreases chars@.len() - i,
    {
        let c: char = chars[i];
        if !(('a' <= c && c <= 'z') || ('0' <= c && c <= '9') || c == '-') {
            assert(!is_name_char(part@[i as int]));
            return false;
        }
        i += 1;
    }
    true
}

/// Whether `parsed` is what the text writes as a package name, or why it
/// writes none.
pub open spec fn reads_name(
    text: Seq<char>,
    parsed: Result<PackageNameView, PackageNameError>,
) -> bool {
    let at = text::index_of(text, '/');
    let scope = text.subrange(0, at);
    let name = text.subrange(at + 1, text.len() as int);
    match parsed {
        Ok(view) => at < text.len() && is_valid_part(scope)
            && is_valid_part(name) && view == (PackageNameView { scope, name }),
        Err(PackageNameError::Format) => at == text.len(),
        Err(PackageNameError::Scope(fault)) => at < text.len() && !is_valid_part(
            scope,
        ) && fault@ == scope,
        Err(PackageNameError::Name(fault)) => at < text.len() && is_valid_part(scope)
            && !is_valid_part(name) && fault@ == name,
    }
}

impl Plain for PackageName {
    fn duplicate(&self) -> (copy: Self) {
        proof {
            use_type_invariant(self);
        }
        PackageName { scope: self.scope.clone(), name: self.name.clone() }
    }
}

impl Clone for PackageName {
    fn clone(&self) -> (copy: Self)
        ensures
            copy@ == self@,
    {
        self.duplicate()
    }
}

impl Key for PackageName {
    type Model = PackageNameView;

    open spec fn model(&self) -> PackageNameView {
        self@
    }

    fn compare(&self, other: &Self) -> (result: Order) {
        assert(self.model().sort_key() == name_key(self@));
        assert(other.model().sort_key() == name_key(other@));
        proof {
            let none = Seq::<int>::empty();
            order::lemma_text_key_first(
                self.scope@,
                order::text_key(self.name@),
                other.scope@,
                order::text_key(other.name@),
            );
            order::lemma_text_key_first(self.scope@, none, other.scope@, none);
            order::lemma_text_key_first(self.name@, none, other.name@, none);
            assert(order::text_key(self.name@) + none =~= order::text_key(self.name@));
            assert(order::text_key(other.name@) + none =~= order::text_key(other.name@));
            order::lemma_plain_key_injective(self.scope@, other.scope@);
            order::lemma_plain_key_injective(self.name@, other.name@);
            order::lemma_irreflexive(none);
        }
        match order::compare_text(self.scope.as_str(), other.scope.as_str()) {
            Order::Equal => order::compare_text(self.name.as_str(), other.name.as_str()),
            result => result,
        }
    }

    fn same_key(&self) -> (copy: Self) {
        self.duplicate()
    }
}

impl PackageName {
    /// A name of these parts, if both are valid.
    pub fn new(scope: &str, name: &str) -> (made: Result<PackageName, PackageNameError>)
        ensures
            match made {
                Ok(made) => is_valid_part(scope@) && is_valid_part(name@) && made@ == (
                PackageNameView { scope: scope@, name: name@ }),
                Err(PackageNameError::Format) => false,
                Err(PackageNameError::Scope(fault)) => !is_valid_part(scope@) && fault@ == scope@,
                Err(PackageNameError::Name(fault)) => is_valid_part(scope@) && !is_valid_part(name@)
                    && fault@ == name@,
            },
    {
        if !check_part(scope) {
            return Err(PackageNameError::Scope(scope.to_owned()));
        }
        if !check_part(name) {
            return Err(PackageNameError::Name(name.to_owned()));
        }
        Ok(PackageName { scope: scope.to_owned(), name: name.to_owned() })
    }

    /// Reads `scope/name`. What follows the first `/` is the name.
    pub fn parse(text: &str) -> (parsed: Result<PackageName, PackageNameError>)
        ensures
            match parsed {
                Ok(name) => reads_name(text@, Ok(name@)),
                Err(error) => reads_name(text@, Err(error)),
            },
    {
        let chars: Vec<char> = text::characters(text);
        let at: usize = text::find(text, '/');
        if at == chars.len() {
            return Err(PackageNameError::Format);
        }
        let scope: String = text::slice(text, 0, at);
        let name: String = text::slice(text, at + 1, chars.len());
        PackageName::new(scope.as_str(), name.as_str())
    }

    /// The part before the `/`.
    pub fn scope(&self) -> (scope: &str)
        ensures
            scope@ == self@.scope,
            self@.is_valid(),
    {
        proof {
            use_type_invariant(self);
        }
        self.scope.as_str()
    }

    /// The part after the `/`.
    pub fn name(&self) -> (name: &str)
        ensures
            name@ == self@.name,
            self@.is_valid(),
    {
        proof {
            use_type_invariant(self);
        }
        self.name.as_str()
    }

    /// The name as text.
    pub fn to_text(&self) -> (written: String)
        ensures
            written@ == name_text(self@),
    {
        let mut written: String = self.scope.clone();
        written.append("/");
        written.append(self.name.as_str());
        written
    }

    /// Whether two names are the same.
    pub fn is_same(&self, other: &PackageName) -> (same: bool)
        ensures
            same == (self@ == other@),
    {
        let same: bool = text::same_text(self.scope.as_str(), other.scope.as_str())
            && text::same_text(self.name.as_str(), other.name.as_str());
        assert(same ==> self@ =~= other@);
        same
    }
}

/// A name that is written is read back.
pub proof fn law_names_are_read_back(name: PackageNameView)
    requires
        name.is_valid(),
    ensures
        reads_name(name_text(name), Ok(name)),
{
    let text = name_text(name);
    reveal_strlit("/");
    let at = name.scope.len() as int;
    assert forall|i: int| 0 <= i < at implies text[i] != '/' by {
        assert(text[i] == name.scope[i]);
        assert(is_name_char(name.scope[i]));
    }
    assert(text[at] == '/');
    text::lemma_index_of_is(text, '/', at);
    assert(text.subrange(0, at) =~= name.scope);
    assert(text.subrange(at + 1, text.len() as int) =~= name.name);
}

/// A scope or name: from 1 to 64 characters, each of them a small letter, a digit
/// or `-`.
pub open spec fn is_part(part: Seq<char>) -> bool {
    &&& 1 <= part.len() <= 64
    &&& forall|i: int|
        0 <= i < part.len() ==> {
            let c = #[trigger] part[i];
            'a' <= c <= 'z' || '0' <= c <= '9' || c == '-'
        }
}

proof fn lemma_is_part(part: Seq<char>)
    ensures
        is_valid_part(part) <==> is_part(part),
        is_part(part) ==> !part.contains('/') && !part.contains('@'),
{
    if is_valid_part(part) {
        assert forall|i: int| 0 <= i < part.len() implies {
            let c = #[trigger] part[i];
            'a' <= c <= 'z' || '0' <= c <= '9' || c == '-'
        } by {
            assert(is_name_char(part[i]));
        }
    }
}

/// A text is read as a package name exactly if it is a scope, a `/` and a name, and
/// those are the scope and the name that are read. It has no `/`, or what stands
/// before the first one is no scope, or what stands behind it is no name, where it
/// is not read.
pub proof fn law_names_are_a_scope_and_a_name(
    text: Seq<char>,
    parsed: Result<PackageNameView, PackageNameError>,
)
    ensures
        reads_name(text, parsed) <==> match parsed {
            Ok(name) => text == name.scope + seq!['/'] + name.name && is_part(name.scope)
                && is_part(name.name),
            Err(PackageNameError::Format) => !text.contains('/'),
            Err(PackageNameError::Scope(scope)) => !scope@.contains('/') && !is_part(scope@)
                && exists|rest: Seq<char>| text == #[trigger] (scope@ + seq!['/'] + rest),
            Err(PackageNameError::Name(name)) => !is_part(name@) && exists|scope: Seq<char>|
                is_part(scope) && text == #[trigger] (scope + seq!['/'] + name@),
        },
{
    let at = text::index_of(text, '/');
    text::lemma_index_of(text, '/');
    let before = text.subrange(0, at);
    let behind = text.subrange(at + 1, text.len() as int);
    if at < text.len() {
        assert(text =~= before + seq!['/'] + behind);
        assert(text[at] == '/');
        assert(text.contains('/'));
    }
    lemma_is_part(before);
    lemma_is_part(behind);
    match parsed {
        Ok(name) => {
            lemma_is_part(name.scope);
            lemma_is_part(name.name);
            if text == name.scope + seq!['/'] + name.name && is_part(name.scope) {
                lemma_before_slash(text, name.scope, name.name);
            }
        },
        Err(PackageNameError::Format) => {},
        Err(PackageNameError::Scope(scope)) => {
            if exists|rest: Seq<char>| text == #[trigger] (scope@ + seq!['/'] + rest) {
                let rest = choose|rest: Seq<char>|
                    text == #[trigger] (scope@ + seq!['/'] + rest);
                if !scope@.contains('/') {
                    lemma_before_slash(text, scope@, rest);
                }
            }
        },
        Err(PackageNameError::Name(name)) => {
            if exists|scope: Seq<char>|
                is_part(scope) && text == #[trigger] (scope + seq!['/'] + name@) {
                let scope = choose|scope: Seq<char>|
                    is_part(scope) && text == #[trigger] (scope + seq!['/'] + name@);
                lemma_is_part(scope);
                lemma_before_slash(text, scope, name@);
            }
        },
    }
}

proof fn lemma_before_slash(text: Seq<char>, before: Seq<char>, behind: Seq<char>)
    requires
        text == before + seq!['/'] + behind,
        !before.contains('/'),
    ensures
        text::index_of(text, '/') == before.len(),
        text.subrange(0, before.len() as int) == before,
        text.subrange(before.len() as int + 1, text.len() as int) == behind,
{
    let at = before.len() as int;
    assert forall|i: int| 0 <= i < at implies text[i] != '/' by {
        assert(text[i] == before[i]);
        assert(before.contains(before[i]));
    }
    text::lemma_index_of_is(text, '/', at);
    assert(text.subrange(0, at) =~= before);
    assert(text.subrange(at + 1, text.len() as int) =~= behind);
}

/// Names stand in the order of their scopes, and those of one scope by themselves.
/// They are written as the scope, a `/` and the name.
pub proof fn law_names_stand_by_scope(a: PackageNameView, b: PackageNameView)
    ensures
        order::precedes(name_key(a), name_key(b)) <==> if a.scope != b.scope {
            order::text_before(a.scope, b.scope)
        } else {
            order::text_before(a.name, b.name)
        },
        name_key(a) == name_key(b) <==> a.scope == b.scope && a.name == b.name,
        name_text(a) == a.scope + seq!['/'] + a.name,
{
    reveal_strlit("/");
    assert("/"@ =~= seq!['/']);
    let none = Seq::<int>::empty();
    let p = order::text_key(a.name);
    let q = order::text_key(b.name);
    lemma_name_first(a, none, b, none);
    order::lemma_text_key_first(a.scope, p, b.scope, q);
    order::lemma_text_key_first(a.name, none, b.name, none);
    assert(p + none =~= p && q + none =~= q);
    order::lemma_text_before(a.scope, b.scope);
    order::lemma_text_before(a.name, b.name);
    order::lemma_irreflexive(none);
    if a.name == b.name {
        order::lemma_irreflexive(order::plain_key(a.name));
    }
}

} // verus!
