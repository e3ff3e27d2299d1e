//! Paths as sequences of components, as `std::path` reads a path that separates
//! them with `/`: `.` counts only at the start of a relative path, and empty
//! pieces do not count. Two paths are the same when their components are. Systems
//! that write paths in another way, or that read a drive into one, join and
//! compare them in other ways.

use vstd::prelude::*;

use crate::order;
use crate::order::Order;
use crate::ordered::{Key, Ranked};
use crate::plain::Plain;
use crate::text;

verus! {

/// One component of a path.
#[derive(Debug, PartialEq, Eq)]
pub enum Component {
    /// The root of the file system, at the start of an absolute path.
    RootDir,
    /// `.`, at the start of a relative path.
    CurDir,
    /// `..`
    ParentDir,
    /// A name.
    Normal(String),
}

/// What a component holds.
pub enum ComponentView {
    RootDir,
    CurDir,
    ParentDir,
    Normal(Seq<char>),
}

impl View for Component {
    type V = ComponentView;

    open spec fn view(&self) -> ComponentView {
        match self {
            Component::RootDir => ComponentView::RootDir,
            Component::CurDir => ComponentView::CurDir,
            Component::ParentDir => ComponentView::ParentDir,
            Component::Normal(name) => ComponentView::Normal(name@),
        }
    }
}

impl DeepView for Component {
    type V = ComponentView;

    open spec fn deep_view(&self) -> ComponentView {
        self.view()
    }
}

impl Plain for Component {
    fn duplicate(&self) -> (copy: Self) {
        match self {
            Component::RootDir => Component::RootDir,
            Component::CurDir => Component::CurDir,
            Component::ParentDir => Component::ParentDir,
            Component::Normal(name) => Component::Normal(name.clone()),
        }
    }
}

impl Clone for Component {
    fn clone(&self) -> (copy: Self)
        ensures
            copy@ == self@,
    {
        self.duplicate()
    }
}

/// The components of a path.
pub type PathView = Seq<ComponentView>;

/// A path, as it is written.
#[derive(Debug)]
pub struct PathBuf {
    pub text: String,
}

impl View for PathBuf {
    type V = Seq<char>;

    open spec fn view(&self) -> Seq<char> {
        self.text@
    }
}

impl DeepView for PathBuf {
    type V = Seq<char>;

    open spec fn deep_view(&self) -> Seq<char> {
        self.view()
    }
}

impl Plain for PathBuf {
    fn duplicate(&self) -> (copy: Self) {
        PathBuf { text: self.text.clone() }
    }
}

impl Clone for PathBuf {
    fn clone(&self) -> (copy: Self)
        ensures
            copy@ == self@,
    {
        self.duplicate()
    }
}

// ---------------------------------------------------------------------------
// Order
// ---------------------------------------------------------------------------

/// The root comes before `.`, `.` before `..`, and these before every name.
pub open spec fn component_key(component: ComponentView) -> Seq<int> {
    match component {
        ComponentView::RootDir => seq![1],
        ComponentView::CurDir => seq![2],
        ComponentView::ParentDir => seq![3],
        ComponentView::Normal(name) => seq![4int] + order::text_key(name),
    }
}

/// Paths compare component by component.
pub open spec fn path_key(path: PathView) -> Seq<int>
    decreases path.len(),
{
    if path.len() == 0 {
        Seq::empty()
    } else {
        component_key(path[0]) + path_key(path.drop_first())
    }
}

/// A path as a key: it is known by its text and compares by its components.
pub struct PathModel {
    pub text: Seq<char>,
}

impl Ranked for PathModel {
    open spec fn sort_key(self) -> Seq<int> {
        path_key(path_of(self.text))
    }
}

/// Keys that start with components compare by the components first.
proof fn lemma_component_first(a: ComponentView, x: Seq<int>, b: ComponentView, y: Seq<int>)
    ensures
        component_key(a) + x == component_key(b) + y <==> a == b && x == y,
        a == b ==> (order::precedes(component_key(a) + x, component_key(b) + y)
            <==> order::precedes(x, y)),
        a != b ==> (order::precedes(component_key(a) + x, component_key(b) + y)
            <==> order::precedes(component_key(a), component_key(b))),
        component_key(a) == component_key(b) <==> a == b,
{
    let p = component_key(a) + x;
    let q = component_key(b) + y;
    let none = Seq::<int>::empty();
    assert(component_key(a) + none =~= component_key(a));
    assert(component_key(b) + none =~= component_key(b));
    match (a, b) {
        (ComponentView::Normal(m), ComponentView::Normal(n)) => {
            let four = seq![4int];
            assert(p =~= four + (order::text_key(m) + x));
            assert(q =~= four + (order::text_key(n) + y));
            order::lemma_common_prefix(four, order::text_key(m) + x, order::text_key(n) + y);
            order::lemma_text_key_first(m, x, n, y);
            assert(component_key(a) =~= four + (order::text_key(m) + none));
            assert(component_key(b) =~= four + (order::text_key(n) + none));
            order::lemma_common_prefix(four, order::text_key(m) + none, order::text_key(n) + none);
            order::lemma_text_key_first(m, none, n, none);
        },
        _ => {
            if a == b {
                order::lemma_common_prefix(component_key(a), x, y);
            } else {
                assert(p[0] == component_key(a)[0]);
                assert(q[0] == component_key(b)[0]);
                assert(p[0] != q[0]);
                if p[0] < q[0] {
                    assert(order::splits(p, q, 0));
                    assert(order::splits(component_key(a), component_key(b), 0));
                } else {
                    assert(order::splits(q, p, 0));
                    order::lemma_asymmetric(q, p);
                    assert(order::splits(component_key(b), component_key(a), 0));
                    order::lemma_asymmetric(component_key(b), component_key(a));
                }
            }
        },
    }
}

/// Paths with the same key are the same.
pub proof fn lemma_path_key_injective(a: PathView, b: PathView)
    ensures
        path_key(a) == path_key(b) <==> a == b,
    decreases a.len(),
{
    if path_key(a) == path_key(b) {
        if a.len() == 0 || b.len() == 0 {
            if a.len() != 0 {
                assert(component_key(a[0]).len() > 0);
            }
            if b.len() != 0 {
                assert(component_key(b[0]).len() > 0);
            }
            assert(a =~= b);
        } else {
            lemma_component_first(
                a[0],
                path_key(a.drop_first()),
                b[0],
                path_key(b.drop_first()),
            );
            lemma_path_key_injective(a.drop_first(), b.drop_first());
            assert(a =~= seq![a[0]] + a.drop_first());
            assert(b =~= seq![b[0]] + b.drop_first());
        }
    }
}

impl Component {
    fn compare(&self, other: &Component) -> (result: Order)
        ensures
            result == order::order_of(component_key(self@), component_key(other@)),
    {
        let mine: u8 = self.kind();
        let theirs: u8 = other.kind();
        proof {
            lemma_component_first(self@, Seq::empty(), other@, Seq::empty());
        }
        match (self, other) {
            (Component::Normal(a), Component::Normal(b)) => {
                proof {
                    let none = Seq::<int>::empty();
                    let four = seq![4int];
                    assert(component_key(self@) =~= four + (order::text_key(a@) + none));
                    assert(component_key(other@) =~= four + (order::text_key(b@) + none));
                    order::lemma_common_prefix(
                        four,
                        order::text_key(a@) + none,
                        order::text_key(b@) + none,
                    );
                    order::lemma_text_key_first(a@, none, b@, none);
                    order::lemma_plain_key_injective(a@, b@);
                    order::lemma_irreflexive(none);
                }
                order::compare_text(a.as_str(), b.as_str())
            },
            _ => {
                proof {
                    let p = component_key(self@);
                    let q = component_key(other@);
                    if p[0] < q[0] {
                        assert(order::splits(p, q, 0));
                    } else if q[0] < p[0] {
                        assert(order::splits(q, p, 0));
                        order::lemma_asymmetric(q, p);
                    }
                }
                if mine < theirs {
                    Order::Less
                } else if mine == theirs {
                    Order::Equal
                } else {
                    Order::Greater
                }
            },
        }
    }

    fn kind(&self) -> (kind: u8)
        ensures
            kind == component_key(self@)[0],
            kind != 4 ==> component_key(self@) == seq![kind as int],
            kind == 4 <==> self@ is Normal,
    {
        match self {
            Component::RootDir => 1,
            Component::CurDir => 2,
            Component::ParentDir => 3,
            Component::Normal(_) => 4,
        }
    }
}

/// Which of two rows of components comes first.
fn compare_components(left: &Vec<Component>, right: &Vec<Component>) -> (result: Order)
    ensures
        result == order::order_of(path_key(left.deep_view()), path_key(right.deep_view())),
{
    let mut i: usize = 0;
    let ghost a = left.deep_view();
    let ghost b = right.deep_view();
    assert(a.skip(0) =~= a && b.skip(0) =~= b);
    while i < left.len() && i < right.len()
        invariant
            a == left.deep_view(),
            b == right.deep_view(),
            i <= a.len(),
            i <= b.len(),
            order::order_of(path_key(a), path_key(b)) == order::order_of(
                path_key(a.skip(i as int)),
                path_key(b.skip(i as int)),
            ),
        decreases a.len() - i,
    {
        let result: Order = left[i].compare(&right[i]);
        proof {
            let x = a.skip(i as int);
            let y = b.skip(i as int);
            assert(x.drop_first() =~= a.skip(i + 1));
            assert(y.drop_first() =~= b.skip(i + 1));
            assert(x[0] == left@[i as int]@);
            assert(y[0] == right@[i as int]@);
            lemma_component_first(
                x[0],
                path_key(x.drop_first()),
                y[0],
                path_key(y.drop_first()),
            );
        }
        match result {
            Order::Equal => {},
            _ => {
                return result;
            },
        }
        i += 1;
    }
    proof {
        let x = path_key(a.skip(i as int));
        let y = path_key(b.skip(i as int));
        if i < a.len() {
            assert(component_key(a.skip(i as int)[0]).len() > 0);
            assert(y.len() == 0);
            assert(order::splits(y, x, 0));
            order::lemma_asymmetric(y, x);
        } else if i < b.len() {
            assert(component_key(b.skip(i as int)[0]).len() > 0);
            assert(x.len() == 0);
            assert(order::splits(x, y, 0));
        } else {
            assert(x =~= y);
        }
    }
    if i < left.len() {
        Order::Greater
    } else if i < right.len() {
        Order::Less
    } else {
        Order::Equal
    }
}

// ---------------------------------------------------------------------------
// Reading and writing paths
// ---------------------------------------------------------------------------

/// What a piece between two separators stands for.
pub open spec fn piece_components(piece: Seq<char>) -> PathView {
    if piece.len() == 0 || piece == seq!['.'] {
        Seq::empty()
    } else if piece == seq!['.', '.'] {
        seq![ComponentView::ParentDir]
    } else {
        seq![ComponentView::Normal(piece)]
    }
}

/// What a row of pieces stands for.
pub open spec fn pieces_components(pieces: Seq<Seq<char>>) -> PathView
    decreases pieces.len(),
{
    if pieces.len() == 0 {
        Seq::empty()
    } else {
        pieces_components(pieces.drop_last()) + piece_components(pieces.last())
    }
}

/// What a text says at its start: that the path is absolute, or `.`.
pub open spec fn leading_components(path: Seq<char>) -> PathView {
    if path.len() > 0 && path[0] == '/' {
        seq![ComponentView::RootDir]
    } else if text::split(path, '/')[0] == seq!['.'] {
        seq![ComponentView::CurDir]
    } else {
        Seq::empty()
    }
}

/// The path that a text writes.
pub open spec fn path_of(path: Seq<char>) -> PathView {
    leading_components(path) + pieces_components(text::split(path, '/'))
}

/// How a component is written.
pub open spec fn component_text(component: ComponentView) -> Seq<char> {
    match component {
        ComponentView::RootDir => "/"@,
        ComponentView::CurDir => "."@,
        ComponentView::ParentDir => ".."@,
        ComponentView::Normal(name) => name,
    }
}

/// How a row of components is written, one after the other.
pub open spec fn components_text(path: PathView) -> Seq<Seq<char>> {
    path.map_values(|component: ComponentView| component_text(component))
}

/// How a path is written.
pub open spec fn path_text(path: PathView) -> Seq<char> {
    if path.len() > 0 && path[0] is RootDir {
        "/"@ + text::joined(components_text(path.drop_first()), "/"@)
    } else {
        text::joined(components_text(path), "/"@)
    }
}

/// `rest` taken from `base`: an absolute path stays as it is, another is
/// written behind `base`, after a separator where none ends it.
pub open spec fn join_text(base: Seq<char>, rest: Seq<char>) -> Seq<char> {
    if rest.len() > 0 && rest[0] == '/' {
        rest
    } else if base.len() == 0 || base.last() == '/' {
        base + rest
    } else {
        base + "/"@ + rest
    }
}

fn is_dot(piece: &str) -> (dot: bool)
    ensures
        dot == (piece@ == seq!['.']),
{
    let chars: Vec<char> = text::characters(piece);
    let dot: bool = chars.len() == 1 && chars[0] == '.';
    assert(dot ==> piece@ =~= seq!['.']);
    dot
}

fn is_two_dots(piece: &str) -> (dots: bool)
    ensures
        dots == (piece@ == seq!['.', '.']),
{
    let chars: Vec<char> = text::characters(piece);
    let dots: bool = chars.len() == 2 && chars[0] == '.' && chars[1] == '.';
    assert(dots ==> piece@ =~= seq!['.', '.']);
    dots
}

impl PathBuf {
    /// The path that `text` writes.
    pub fn parse(text: &str) -> (path: PathBuf)
        ensures
            path@ == text@,
    {
        PathBuf { text: text.to_owned() }
    }

    /// The path as it is written.
    pub fn as_str(&self) -> (text: &str)
        ensures
            text@ == self@,
    {
        self.text.as_str()
    }

    /// Whether the path starts at the root.
    pub fn is_absolute(&self) -> (absolute: bool)
        ensures
            absolute == (self@.len() > 0 && self@[0] == '/'),
    {
        let chars: Vec<char> = text::characters(self.text.as_str());
        chars.len() > 0 && chars[0] == '/'
    }

    /// The components of the path.
    pub fn components(&self) -> (components: Vec<Component>)
        ensures
            components.deep_view() == path_of(self@),
    {
        let pieces: Vec<String> = text::split_text(self.text.as_str(), '/');
        let ghost all = pieces.deep_view();
        let mut components: Vec<Component> = Vec::new();
        assert(pieces@[0]@ == all[0]);
        if self.is_absolute() {
            components.push(Component::RootDir);
        } else if is_dot(pieces[0].as_str()) {
            components.push(Component::CurDir);
        }
        assert(components.deep_view() =~= leading_components(self@));
        assert(all.take(0) =~= Seq::<Seq<char>>::empty());
        assert(components.deep_view() =~= leading_components(self@) + pieces_components(
            all.take(0),
        ));
        let mut i: usize = 0;
        while i < pieces.len()
            invariant
                i <= pieces@.len(),
                all == pieces.deep_view(),
                components.deep_view() == leading_components(self@) + pieces_components(
                    all.take(i as int),
                ),
            decreases pieces@.len() - i,
        {
            let piece: &String = &pieces[i];
            let ghost before = components.deep_view();
            assert(piece@ == all[i as int]);
            if piece.as_str().is_empty() || is_dot(piece.as_str()) {
            } else if is_two_dots(piece.as_str()) {
                components.push(Component::ParentDir);
            } else {
                components.push(Component::Normal(piece.clone()));
            }
            proof {
                assert(components.deep_view() =~= before + piece_components(piece@));
                assert(all.take(i + 1).drop_last() =~= all.take(i as int));
                assert(all.take(i + 1).last() == piece@);
                assert(before + piece_components(piece@) =~= leading_components(self@) + (
                pieces_components(all.take(i as int)) + piece_components(piece@)));
            }
            i += 1;
        }
        assert(all.take(all.len() as int) =~= all);
        components
    }

    /// `rest` taken from this path.
    pub fn join(&self, rest: &str) -> (joined: PathBuf)
        ensures
            joined@ == join_text(self@, rest@),
    {
        let below: Vec<char> = text::characters(rest);
        if below.len() > 0 && below[0] == '/' {
            return PathBuf { text: rest.to_owned() };
        }
        let above: Vec<char> = text::characters(self.text.as_str());
        let mut joined: String = self.text.clone();
        if above.len() > 0 && above[above.len() - 1] != '/' {
            joined.append("/");
        }
        joined.append(rest);
        PathBuf { text: joined }
    }

    /// Whether two paths have the same components.
    pub fn is_same(&self, other: &PathBuf) -> (same: bool)
        ensures
            same == (path_of(self@) == path_of(other@)),
    {
        proof {
            lemma_path_key_injective(path_of(self@), path_of(other@));
        }
        match Key::compare(self, other) {
            Order::Equal => true,
            _ => false,
        }
    }
}

impl Key for PathBuf {
    type Model = PathModel;

    open spec fn model(&self) -> PathModel {
        PathModel { text: self@ }
    }

    fn compare(&self, other: &Self) -> (result: Order) {
        assert(self.model().sort_key() == path_key(path_of(self@)));
        assert(other.model().sort_key() == path_key(path_of(other@)));
        compare_components(&self.components(), &other.components())
    }

    fn same_key(&self) -> (copy: Self) {
        self.duplicate()
    }
}

impl PartialEq for PathBuf {
    fn eq(&self, other: &Self) -> (same: bool) {
        self.is_same(other)
    }
}

impl vstd::std_specs::cmp::PartialEqSpecImpl for PathBuf {
    open spec fn obeys_eq_spec() -> bool {
        true
    }

    open spec fn eq_spec(&self, other: &Self) -> bool {
        path_of(self@) == path_of(other@)
    }
}

impl Eq for PathBuf {

}

// ---------------------------------------------------------------------------
// Relative paths
// ---------------------------------------------------------------------------

/// A path as the file system writes it: from the root, by names alone.
pub open spec fn is_canonical(path: PathView) -> bool {
    &&& path.len() > 0
    &&& path[0] is RootDir
    &&& forall|i: int| 1 <= i < path.len() ==> (#[trigger] path[i]) is Normal
}

/// How many components two paths have in common at their start.
pub open spec fn common_len(a: PathView, b: PathView) -> nat
    decreases a.len(),
{
    if a.len() > 0 && b.len() > 0 && a[0] == b[0] {
        1 + common_len(a.drop_first(), b.drop_first())
    } else {
        0
    }
}

/// `n` steps up.
pub open spec fn steps_up(n: nat) -> PathView {
    Seq::new(n, |i: int| ComponentView::ParentDir)
}

/// The way from `base` to `path`: up to where they part, then down.
pub open spec fn relative_path(path: PathView, base: PathView) -> PathView {
    let common = common_len(path, base);
    steps_up((base.len() - common) as nat) + path.skip(common as int)
}

/// The directory that a path leads to, `..` taken as a step up.
pub open spec fn lead_to(path: PathView) -> PathView
    decreases path.len(),
{
    if path.len() == 0 {
        path
    } else {
        let before = lead_to(path.drop_last());
        match path.last() {
            ComponentView::ParentDir => if before.len() > 0 && before.last() is Normal {
                before.drop_last()
            } else {
                before
            },
            component => before.push(component),
        }
    }
}

/// The relative path that `pathdiff::diff_paths` finds from the second path to
/// the first, as text.
pub uninterp spec fn path_difference(path: Seq<char>, base: Seq<char>) -> Option<Seq<char>>;

/// A path that all systems read alike: it holds no `\`, which is a part of a name
/// on some and parts names on others, and no `:`, before which some look for a
/// drive, and starts with no second `/`, behind which some look for a server.
pub open spec fn is_slashed(text: Seq<char>) -> bool {
    &&& !text.contains('\\')
    &&& !text.contains(':')
    &&& !(text.len() > 1 && text[0] == '/' && text[1] == '/')
}

/// Computes a relative path with `pathdiff::diff_paths`. Stated of it: the
/// result is a function of the two paths, on systems that write paths alike;
/// between two canonical paths that all systems read alike there always is one,
/// which steps up from `base` to where the two part and then goes down to `path`.
/// It is written with the separator of the system, so that this is said of it
/// with slashes.
#[verifier::external_body]
pub(crate) fn diff_paths(path: &PathBuf, base: &PathBuf) -> (relative: Option<String>)
    ensures
        relative.deep_view() == path_difference(path@, base@),
        is_canonical(path_of(path@)) && is_canonical(path_of(base@)) && is_slashed(path@)
            && is_slashed(base@) ==> match relative {
            Some(relative) => text::with_slashes(relative@) == path_text(
                relative_path(path_of(path@), path_of(base@)),
            ),
            None => false,
        },
{
    let difference = pathdiff::diff_paths(path.text.as_str(), base.text.as_str())?;
    Some(difference.to_string_lossy().into_owned())
}

/// One row of components after another: an absolute one stays as it is, and a
/// leading `.` does not count.
spec fn path_join(base: PathView, rest: PathView) -> PathView {
    if base.len() == 0 || (rest.len() > 0 && rest[0] is RootDir) {
        rest
    } else if rest.len() > 0 && rest[0] is CurDir {
        base + rest.drop_first()
    } else {
        base + rest
    }
}

proof fn lemma_common_len(a: PathView, b: PathView)
    ensures
        common_len(a, b) <= a.len(),
        common_len(a, b) <= b.len(),
        a.take(common_len(a, b) as int) == b.take(common_len(a, b) as int),
    decreases a.len(),
{
    let n = common_len(a, b) as int;
    if a.len() > 0 && b.len() > 0 && a[0] == b[0] {
        let x = a.drop_first();
        let y = b.drop_first();
        lemma_common_len(x, y);
        assert forall|i: int| 0 <= i < n implies a[i] == b[i] by {
            if i > 0 {
                assert(x.take(n - 1)[i - 1] == y.take(n - 1)[i - 1]);
            }
        }
    }
    assert(a.take(n) =~= b.take(n));
}

proof fn lemma_lead_up(base: PathView, n: nat)
    requires
        is_canonical(base),
        n < base.len(),
    ensures
        lead_to(base + steps_up(n)) == base.take(base.len() - n),
    decreases n,
{
    let path = base + steps_up(n);
    if n == 0 {
        assert(path =~= base);
        lemma_lead_canonical(base);
        assert(base.take(base.len() as int) =~= base);
    } else {
        assert(path.drop_last() =~= base + steps_up((n - 1) as nat));
        lemma_lead_up(base, (n - 1) as nat);
        let before = base.take(base.len() - (n - 1));
        assert(before.last() == base[base.len() - n]);
        assert(base[base.len() - n] is Normal);
        assert(before.drop_last() =~= base.take(base.len() - n));
    }
}

proof fn lemma_lead_canonical(path: PathView)
    requires
        is_canonical(path),
    ensures
        lead_to(path) == path,
    decreases path.len(),
{
    let before = path.drop_last();
    if path.len() == 1 {
        assert(before =~= Seq::<ComponentView>::empty());
        assert(lead_to(before) == before);
    } else {
        assert(is_canonical(before)) by {
            assert forall|i: int| 1 <= i < before.len() implies (#[trigger] before[i]) is Normal by {
                assert(path[i] is Normal);
            }
        }
        lemma_lead_canonical(before);
        assert(path[path.len() - 1] is Normal);
    }
    assert(before.push(path.last()) =~= path);
}

proof fn lemma_lead_down(start: PathView, names: PathView)
    requires
        forall|i: int| 0 <= i < names.len() ==> (#[trigger] names[i]) is Normal,
    ensures
        lead_to(start + names) == lead_to(start) + names,
    decreases names.len(),
{
    if names.len() == 0 {
        assert(start + names =~= start);
        assert(lead_to(start) + names =~= lead_to(start));
    } else {
        let fewer = names.drop_last();
        lemma_lead_down(start, fewer);
        assert((start + names).drop_last() =~= start + fewer);
        assert(names[names.len() - 1] is Normal);
        assert((lead_to(start) + fewer).push(names.last()) =~= lead_to(start) + names);
    }
}

/// Following the way from `base` to `path`, starting at `base`, leads to `path`.
proof fn lemma_relative_leads_back(path: PathView, base: PathView)
    requires
        is_canonical(path),
        is_canonical(base),
    ensures
        lead_to(path_join(base, relative_path(path, base))) == path,
{
    let n = common_len(path, base);
    lemma_common_len(path, base);
    assert(n >= 1);
    let up = (base.len() - n) as nat;
    let down = path.skip(n as int);
    let relative = relative_path(path, base);
    assert(relative =~= steps_up(up) + down);
    if relative.len() > 0 {
        if up > 0 {
            assert(relative[0] is ParentDir);
        } else {
            assert(relative[0] == path[n as int]);
            assert(path[n as int] is Normal);
        }
    }
    assert(path_join(base, relative) =~= (base + steps_up(up)) + down);
    assert forall|i: int| 0 <= i < down.len() implies (#[trigger] down[i]) is Normal by {
        assert(down[i] == path[n + i]);
        assert(path[n + i] is Normal);
    }
    lemma_lead_up(base, up);
    lemma_lead_down(base + steps_up(up), down);
    assert(base.take(base.len() - up) + down =~= path) by {
        assert(base.take(n as int) == path.take(n as int));
        assert(path.take(n as int) + path.skip(n as int) =~= path);
    }
}

/// A name that a path can hold.
spec fn is_name(name: Seq<char>) -> bool {
    name.len() > 0 && name != seq!['.'] && name != seq!['.', '.'] && forall|i: int|
        0 <= i < name.len() ==> name[i] != '/'
}

/// A component that a relative path is made of.
spec fn is_relative_component(component: ComponentView) -> bool {
    match component {
        ComponentView::ParentDir => true,
        ComponentView::Normal(name) => is_name(name),
        _ => false,
    }
}

proof fn lemma_pieces_concat(a: Seq<Seq<char>>, b: Seq<Seq<char>>)
    ensures
        pieces_components(a + b) == pieces_components(a) + pieces_components(b),
    decreases b.len(),
{
    if b.len() == 0 {
        assert(a + b =~= a);
        assert(pieces_components(a) + pieces_components(b) =~= pieces_components(a));
    } else {
        assert((a + b).drop_last() =~= a + b.drop_last());
        lemma_pieces_concat(a, b.drop_last());
        assert(pieces_components(a) + (pieces_components(b.drop_last()) + piece_components(
            b.last(),
        )) =~= pieces_components(a) + pieces_components(b.drop_last()) + piece_components(
            b.last(),
        ));
    }
}

proof fn lemma_pieces_relative(pieces: Seq<Seq<char>>)
    requires
        forall|i: int, j: int|
            #![trigger pieces[i][j]]
            0 <= i < pieces.len() && 0 <= j < pieces[i].len() ==> pieces[i][j] != '/',
    ensures
        forall|i: int|
            0 <= i < pieces_components(pieces).len() ==> is_relative_component(
                #[trigger] pieces_components(pieces)[i],
            ),
    decreases pieces.len(),
{
    if pieces.len() > 0 {
        let fewer = pieces.drop_last();
        assert forall|i: int, j: int|
            #![trigger fewer[i][j]]
            0 <= i < fewer.len() && 0 <= j < fewer[i].len() implies fewer[i][j] != '/' by {
            assert(pieces[i][j] != '/');
        }
        lemma_pieces_relative(fewer);
        let last = pieces.last();
        assert forall|j: int| 0 <= j < last.len() implies last[j] != '/' by {
            assert(pieces[pieces.len() - 1][j] != '/');
        }
        let before = pieces_components(fewer);
        let all = pieces_components(pieces);
        assert forall|i: int| 0 <= i < all.len() implies is_relative_component(
            #[trigger] all[i],
        ) by {
            if i < before.len() {
                assert(all[i] == before[i]);
            } else {
                assert(all[i] == piece_components(last)[i - before.len()]);
            }
        }
    }
}

/// The components of a path behind its start.
proof fn lemma_path_components(path: Seq<char>)
    ensures
        forall|i: int|
            leading_components(path).len() <= i < path_of(path).len() ==> is_relative_component(
                #[trigger] path_of(path)[i],
            ),
        is_canonical(path_of(path)) ==> path.len() > 0 && path[0] == '/',
{
    let pieces = text::split(path, '/');
    text::lemma_split_pieces(path, '/');
    lemma_pieces_relative(pieces);
    let leading = leading_components(path);
    assert forall|i: int| leading.len() <= i < path_of(path).len() implies is_relative_component(
        #[trigger] path_of(path)[i],
    ) by {
        assert(path_of(path)[i] == pieces_components(pieces)[i - leading.len()]);
    }
    if is_canonical(path_of(path)) && leading.len() == 0 {
        assert(is_relative_component(path_of(path)[0]));
    }
}

/// A relative path is what its text says.
proof fn lemma_relative_text(path: PathView)
    requires
        forall|i: int| 0 <= i < path.len() ==> is_relative_component(#[trigger] path[i]),
    ensures
        pieces_components(text::split(path_text(path), '/')) == path,
        path_text(path).len() > 0 ==> path_text(path)[0] != '/',
{
    reveal_strlit("/");
    reveal_strlit("..");
    assert("/"@ =~= seq!['/']);
    assert(".."@ =~= seq!['.', '.']);
    let parts = components_text(path);
    if path.len() == 0 {
        assert(path_text(path) =~= Seq::<char>::empty());
        text::lemma_split_plain(path_text(path), '/');
        let pieces = text::split(path_text(path), '/');
        assert(pieces.drop_last() =~= Seq::<Seq<char>>::empty());
        assert(pieces_components(pieces.drop_last()) =~= path);
        assert(pieces_components(pieces) =~= path);
    } else {
        assert(is_relative_component(path[0]));
        assert forall|i: int, j: int|
            #![trigger parts[i][j]]
            0 <= i < parts.len() && 0 <= j < parts[i].len() implies parts[i][j] != '/' by {
            assert(is_relative_component(path[i]));
        }
        text::lemma_split_joined(parts, '/');
        assert(parts[0].len() > 0);
        lemma_parts_components(path);
    }
}

proof fn lemma_parts_components(path: PathView)
    requires
        forall|i: int| 0 <= i < path.len() ==> is_relative_component(#[trigger] path[i]),
    ensures
        pieces_components(components_text(path)) == path,
    decreases path.len(),
{
    reveal_strlit("..");
    assert(".."@ =~= seq!['.', '.']);
    if path.len() > 0 {
        let fewer = path.drop_last();
        assert forall|i: int| 0 <= i < fewer.len() implies is_relative_component(
            #[trigger] fewer[i],
        ) by {
            assert(fewer[i] == path[i]);
        }
        lemma_parts_components(fewer);
        let parts = components_text(path);
        assert(parts.drop_last() =~= components_text(fewer));
        assert(is_relative_component(path[path.len() - 1]));
        assert(piece_components(parts.last()) =~= seq![path.last()]);
        assert(fewer + seq![path.last()] =~= path);
    } else {
        assert(pieces_components(components_text(path)) =~= path);
    }
}

/// What is taken from a path has the components of both.
proof fn lemma_join_components(base: Seq<char>, rest: Seq<char>)
    requires
        base.len() > 0,
        rest.len() > 0 ==> rest[0] != '/',
    ensures
        path_of(join_text(base, rest)) == path_of(base) + pieces_components(
            text::split(rest, '/'),
        ),
{
    reveal_strlit("/");
    assert("/"@ =~= seq!['/']);
    let whole = join_text(base, rest);
    let below = pieces_components(text::split(rest, '/'));
    assert(whole[0] == base[0]);
    text::lemma_split_pieces(base, '/');
    if base.last() == '/' {
        let above = base.drop_last();
        assert(whole =~= above + seq!['/'] + rest);
        assert(base =~= above + seq!['/'] + Seq::<char>::empty());
        text::lemma_split_concat(above, rest, '/');
        text::lemma_split_concat(above, Seq::empty(), '/');
        text::lemma_split_pieces(above, '/');
        assert(text::split(whole, '/')[0] == text::split(above, '/')[0]);
        assert(text::split(base, '/')[0] == text::split(above, '/')[0]);
        text::lemma_split_plain(Seq::empty(), '/');
        lemma_pieces_concat(text::split(above, '/'), text::split(rest, '/'));
        lemma_pieces_concat(text::split(above, '/'), text::split(Seq::empty(), '/'));
        let nothing = text::split(Seq::<char>::empty(), '/');
        assert(nothing.drop_last() =~= Seq::<Seq<char>>::empty());
        assert(pieces_components(nothing.drop_last()) =~= Seq::<ComponentView>::empty());
        assert(piece_components(nothing.last()) =~= Seq::<ComponentView>::empty());
        assert(pieces_components(nothing) =~= Seq::<ComponentView>::empty());
        assert(path_of(whole) =~= path_of(base) + below);
    } else {
        assert(whole =~= base + seq!['/'] + rest);
        text::lemma_split_concat(base, rest, '/');
        assert(text::split(whole, '/')[0] == text::split(base, '/')[0]);
        lemma_pieces_concat(text::split(base, '/'), text::split(rest, '/'));
        assert(path_of(whole) =~= path_of(base) + below);
    }
}

/// Following the text of the way from one canonical path to another, starting
/// at the one, leads to the other.
pub proof fn law_relative_text_leads_back(path: Seq<char>, base: Seq<char>)
    requires
        is_canonical(path_of(path)),
        is_canonical(path_of(base)),
    ensures
        lead_to(
            path_of(join_text(base, path_text(relative_path(path_of(path), path_of(base))))),
        ) == path_of(path),
{
    let there = path_of(path);
    let here = path_of(base);
    let relative = relative_path(there, here);
    let common = common_len(there, here);
    lemma_common_len(there, here);
    lemma_path_components(path);
    lemma_path_components(base);
    let up = (here.len() - common) as nat;
    assert(common >= 1);
    assert forall|i: int| 0 <= i < relative.len() implies is_relative_component(
        #[trigger] relative[i],
    ) by {
        if i < up {
            assert(relative[i] is ParentDir);
        } else {
            assert(relative[i] == there[common + (i - up)]);
            assert(is_relative_component(there[common + (i - up)]));
        }
    }
    lemma_relative_text(relative);
    lemma_join_components(base, path_text(relative));
    if relative.len() > 0 {
        assert(is_relative_component(relative[0]));
    }
    assert(path_join(here, relative) =~= here + relative);
    lemma_relative_leads_back(there, here);
}

/// A path that is taken from another has the components of that one and behind
/// them its own, but for a `.` at its start. An absolute path stays as it is, and
/// so does one that is taken from no path at all.
pub proof fn law_joined_paths_have_the_components_of_both(base: Seq<char>, rest: Seq<char>)
    ensures
        rest.len() > 0 && rest[0] == '/' ==> join_text(base, rest) == rest,
        base.len() == 0 ==> join_text(base, rest) == rest,
        base.len() > 0 && !(rest.len() > 0 && rest[0] == '/') ==> {
            let below = path_of(rest);
            path_of(join_text(base, rest)) == path_of(base) + if below.len() > 0
                && below[0] is CurDir {
                below.drop_first()
            } else {
                below
            }
        },
        base.len() > 0 && base.last() != '/' && !(rest.len() > 0 && rest[0] == '/')
            ==> join_text(base, rest) == base + seq!['/'] + rest,
{
    reveal_strlit("/");
    assert("/"@ =~= seq!['/']);
    if base.len() == 0 {
        assert(base + rest =~= rest);
    } else if !(rest.len() > 0 && rest[0] == '/') {
        lemma_join_components(base, rest);
        lemma_path_components(rest);
        let below = path_of(rest);
        let pieces = pieces_components(text::split(rest, '/'));
        if leading_components(rest).len() == 0 {
            assert(below =~= pieces);
            if below.len() > 0 {
                assert(is_relative_component(below[0]));
            }
        } else {
            assert(below[0] is CurDir);
            assert(below.drop_first() =~= pieces);
        }
    }
}

/// Repeated separators, separators at the end and a `.` between separators do not
/// count, and `..` is a component of its own.
pub proof fn law_dots_between_separators_do_not_count(base: Seq<char>, rest: Seq<char>)
    requires
        base.len() > 0,
    ensures
        path_of(base + seq!['/']) == path_of(base),
        path_of(base + seq!['/', '/'] + rest) == path_of(base + seq!['/'] + rest),
        path_of(base + seq!['/', '.', '/'] + rest) == path_of(base + seq!['/'] + rest),
        path_of(base + seq!['/', '.', '.']) == path_of(base).push(ComponentView::ParentDir),
{
    let none = Seq::<char>::empty();
    let dot = seq!['.'];
    let up = seq!['.', '.'];
    text::lemma_split_plain(none, '/');
    text::lemma_split_plain(dot, '/');
    text::lemma_split_plain(up, '/');
    lemma_one_piece(none);
    lemma_one_piece(dot);
    lemma_one_piece(up);
    assert(base + seq!['/'] =~= base + seq!['/'] + none);
    lemma_behind_separator(base, none);
    assert(path_of(base) + Seq::<ComponentView>::empty() =~= path_of(base));
    let doubled = seq!['/'] + rest;
    assert(base + seq!['/', '/'] + rest =~= base + seq!['/'] + doubled);
    assert(doubled =~= none + seq!['/'] + rest);
    lemma_behind_separator(base, doubled);
    lemma_behind_separator(base, rest);
    text::lemma_split_concat(none, rest, '/');
    lemma_pieces_concat(text::split(none, '/'), text::split(rest, '/'));
    let below = pieces_components(text::split(rest, '/'));
    assert(Seq::<ComponentView>::empty() + below =~= below);
    let dotted = seq!['.', '/'] + rest;
    assert(base + seq!['/', '.', '/'] + rest =~= base + seq!['/'] + dotted);
    assert(dotted =~= dot + seq!['/'] + rest);
    lemma_behind_separator(base, dotted);
    text::lemma_split_concat(dot, rest, '/');
    lemma_pieces_concat(text::split(dot, '/'), text::split(rest, '/'));
    assert(base + seq!['/', '.', '.'] =~= base + seq!['/'] + up);
    lemma_behind_separator(base, up);
    assert(path_of(base) + seq![ComponentView::ParentDir] =~= path_of(base).push(
        ComponentView::ParentDir,
    ));
}

proof fn lemma_one_piece(piece: Seq<char>)
    ensures
        pieces_components(seq![piece]) == piece_components(piece),
{
    let pieces = seq![piece];
    assert(pieces.drop_last() =~= Seq::<Seq<char>>::empty());
    assert(pieces_components(pieces.drop_last()) =~= Seq::<ComponentView>::empty());
    assert(Seq::<ComponentView>::empty() + piece_components(piece) =~= piece_components(piece));
}

/// What is written behind a path and a separator adds its pieces.
proof fn lemma_behind_separator(base: Seq<char>, rest: Seq<char>)
    requires
        base.len() > 0,
    ensures
        path_of(base + seq!['/'] + rest) == path_of(base) + pieces_components(
            text::split(rest, '/'),
        ),
{
    let whole = base + seq!['/'] + rest;
    assert(whole[0] == base[0]);
    text::lemma_split_pieces(base, '/');
    text::lemma_split_concat(base, rest, '/');
    assert(text::split(whole, '/')[0] == text::split(base, '/')[0]);
    lemma_pieces_concat(text::split(base, '/'), text::split(rest, '/'));
    assert(path_of(whole) =~= path_of(base) + pieces_components(text::split(rest, '/')));
}

/// A path that is written is read back, be it absolute or relative: a root or none,
/// and behind it steps up and names, which are not empty, no dots alone and hold no
/// separator.
pub proof fn law_paths_are_read_back(path: PathView)
    requires
        forall|i: int|
            0 <= i < path.len() ==> match #[trigger] path[i] {
                ComponentView::RootDir => i == 0,
                ComponentView::CurDir => false,
                ComponentView::ParentDir => true,
                ComponentView::Normal(name) => {
                    &&& name.len() > 0
                    &&& name != seq!['.']
                    &&& name != seq!['.', '.']
                    &&& !name.contains('/')
                },
            },
    ensures
        path_of(path_text(path)) == path,
        path_text(path).len() > 0 && path_text(path)[0] == '/' <==> path.len() > 0
            && path[0] is RootDir,
{
    reveal_strlit("/");
    assert("/"@ =~= seq!['/']);
    if path.len() > 0 && path[0] is RootDir {
        let rest = path.drop_first();
        assert forall|i: int| 0 <= i < rest.len() implies is_relative_component(
            #[trigger] rest[i],
        ) by {
            assert(rest[i] == path[i + 1]);
            lemma_component_is_relative(path[i + 1]);
        }
        lemma_relative_text(rest);
        if rest.len() > 0 {
            assert(is_relative_component(rest[0]));
        }
        let none = Seq::<char>::empty();
        let text = path_text(path);
        assert(text =~= none + seq!['/'] + path_text(rest));
        text::lemma_split_concat(none, path_text(rest), '/');
        text::lemma_split_plain(none, '/');
        lemma_one_piece(none);
        lemma_pieces_concat(text::split(none, '/'), text::split(path_text(rest), '/'));
        assert(path_of(text) =~= seq![ComponentView::RootDir] + rest);
        assert(seq![ComponentView::RootDir] + rest =~= path);
    } else {
        assert forall|i: int| 0 <= i < path.len() implies is_relative_component(
            #[trigger] path[i],
        ) by {
            lemma_component_is_relative(path[i]);
        }
        lemma_relative_text(path);
        lemma_no_leading_dot(path);
        assert(path_of(path_text(path)) =~= path);
    }
}

proof fn lemma_component_is_relative(component: ComponentView)
    requires
        match component {
            ComponentView::RootDir => false,
            ComponentView::CurDir => false,
            ComponentView::ParentDir => true,
            ComponentView::Normal(name) => {
                &&& name.len() > 0
                &&& name != seq!['.']
                &&& name != seq!['.', '.']
                &&& !name.contains('/')
            },
        },
    ensures
        is_relative_component(component),
{
    if let ComponentView::Normal(name) = component {
        assert forall|i: int| 0 <= i < name.len() implies name[i] != '/' by {
            assert(name.contains(name[i]));
        }
    }
}

proof fn lemma_no_leading_dot(path: PathView)
    requires
        forall|i: int| 0 <= i < path.len() ==> is_relative_component(#[trigger] path[i]),
    ensures
        text::split(path_text(path), '/')[0] != seq!['.'],
{
    reveal_strlit("/");
    reveal_strlit("..");
    assert("/"@ =~= seq!['/']);
    assert(".."@ =~= seq!['.', '.']);
    let parts = components_text(path);
    if path.len() == 0 {
        assert(path_text(path) =~= Seq::<char>::empty());
        text::lemma_split_plain(path_text(path), '/');
    } else {
        assert(is_relative_component(path[0]));
        assert forall|i: int, j: int|
            #![trigger parts[i][j]]
            0 <= i < parts.len() && 0 <= j < parts[i].len() implies parts[i][j] != '/' by {
            assert(is_relative_component(path[i]));
        }
        text::lemma_split_joined(parts, '/');
        assert(parts[0] == component_text(path[0]));
        if parts[0] == seq!['.'] {
            assert(parts[0].len() == 1);
        }
    }
}

/// One component comes before another: the root before `.`, that before `..`, and
/// names last, by their characters.
pub open spec fn component_before(a: ComponentView, b: ComponentView) -> bool {
    match (a, b) {
        (ComponentView::Normal(s), ComponentView::Normal(t)) => order::text_before(s, t),
        (ComponentView::Normal(_), _) => false,
        (_, ComponentView::Normal(_)) => true,
        (ComponentView::RootDir, _) => !(b is RootDir),
        (ComponentView::CurDir, _) => b is ParentDir,
        (ComponentView::ParentDir, _) => false,
    }
}

/// Paths stand in the order of the first component in which they differ, and a path
/// stands before those that go on where it ends.
pub proof fn law_paths_stand_by_their_components(a: PathView, b: PathView)
    ensures
        order::precedes(path_key(a), path_key(b)) <==> exists|k: int|
            {
                &&& 0 <= k <= a.len()
                &&& k < b.len()
                &&& #[trigger] a.take(k) == b.take(k)
                &&& k == a.len() || component_before(a[k], b[k])
            },
        path_key(a) == path_key(b) <==> a == b,
    decreases a.len(),
{
    lemma_path_key_injective(a, b);
    let p = path_key(a);
    let q = path_key(b);
    if b.len() == 0 {
        assert(q.len() == 0);
    } else if a.len() == 0 {
        assert(component_key(b[0]).len() > 0);
        assert(order::splits(p, q, 0));
        assert(a.take(0) =~= b.take(0));
    } else {
        let rest = a.drop_first();
        let other = b.drop_first();
        lemma_component_first(a[0], path_key(rest), b[0], path_key(other));
        lemma_component_before(a[0], b[0]);
        if a[0] == b[0] {
            law_paths_stand_by_their_components(rest, other);
            order::lemma_irreflexive(component_key(a[0]));
            if order::precedes(p, q) {
                let k = choose|k: int|
                    {
                        &&& 0 <= k <= rest.len()
                        &&& k < other.len()
                        &&& #[trigger] rest.take(k) == other.take(k)
                        &&& k == rest.len() || component_before(rest[k], other[k])
                    };
                assert(a.take(k + 1) =~= seq![a[0]] + rest.take(k));
                assert(b.take(k + 1) =~= seq![b[0]] + other.take(k));
            }
            assert forall|k: int|
                {
                    &&& 0 <= k <= a.len()
                    &&& k < b.len()
                    &&& #[trigger] a.take(k) == b.take(k)
                    &&& k == a.len() || component_before(a[k], b[k])
                } implies order::precedes(p, q) by {
                assert(k > 0);
                assert(rest.take(k - 1) =~= a.take(k).drop_first());
                assert(other.take(k - 1) =~= b.take(k).drop_first());
            }
        } else {
            if component_before(a[0], b[0]) {
                assert(a.take(0) =~= b.take(0));
            }
            assert forall|k: int|
                {
                    &&& 0 <= k <= a.len()
                    &&& k < b.len()
                    &&& #[trigger] a.take(k) == b.take(k)
                    &&& k == a.len() || component_before(a[k], b[k])
                } implies order::precedes(p, q) by {
                if k > 0 {
                    assert(a.take(k)[0] == b.take(k)[0]);
                }
            }
        }
    }
}

proof fn lemma_component_before(a: ComponentView, b: ComponentView)
    ensures
        order::precedes(component_key(a), component_key(b)) <==> component_before(a, b),
{
    let p = component_key(a);
    let q = component_key(b);
    if a == b {
        order::lemma_irreflexive(p);
        if let ComponentView::Normal(name) = a {
            order::lemma_text_before(name, name);
            order::lemma_irreflexive(order::plain_key(name));
        }
    } else {
        match (a, b) {
            (ComponentView::Normal(s), ComponentView::Normal(t)) => {
                let none = Seq::<int>::empty();
                assert(p =~= seq![4int] + (order::text_key(s) + none));
                assert(q =~= seq![4int] + (order::text_key(t) + none));
                order::lemma_common_prefix(
                    seq![4int],
                    order::text_key(s) + none,
                    order::text_key(t) + none,
                );
                order::lemma_text_key_first(s, none, t, none);
                order::lemma_text_before(s, t);
            },
            _ => {
                if p[0] < q[0] {
                    assert(order::splits(p, q, 0));
                } else {
                    assert(order::splits(q, p, 0));
                    order::lemma_asymmetric(q, p);
                }
            },
        }
    }
}

} // verus!
