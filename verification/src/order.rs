//! The order in which packages, paths and names are kept.
//!
//! Every ordered type is mapped to a sequence of integers, its *sort key*, and
//! two values compare as their sort keys do, lexicographically.

use vstd::prelude::*;

verus! {

/// The outcome of a comparison.
#[derive(Clone, Copy, Debug, PartialEq, Eq, Structural)]
pub enum Order {
    Less,
    Equal,
    Greater,
}

/// `a` comes strictly before `b`: they agree up to some position, at which `a`
/// either ends or holds the smaller integer.
pub open spec fn precedes(a: Seq<int>, b: Seq<int>) -> bool {
    exists|i: int| #[trigger] splits(a, b, i)
}

/// `i` is the first position at which `a` shows itself to be the lesser.
pub open spec fn splits(a: Seq<int>, b: Seq<int>, i: int) -> bool {
    &&& 0 <= i <= a.len()
    &&& i < b.len()
    &&& forall|j: int| 0 <= j < i ==> a[j] == b[j]
    &&& i == a.len() || a[i] < b[i]
}

/// What comparing two sort keys gives.
pub open spec fn order_of(a: Seq<int>, b: Seq<int>) -> Order {
    if a == b {
        Order::Equal
    } else if precedes(a, b) {
        Order::Less
    } else {
        Order::Greater
    }
}

/// Nothing precedes itself.
pub proof fn lemma_irreflexive(a: Seq<int>)
    ensures
        !precedes(a, a),
{
}

/// Of two different keys one precedes the other.
pub proof fn lemma_total(a: Seq<int>, b: Seq<int>)
    requires
        a != b,
    ensures
        precedes(a, b) || precedes(b, a),
{
    lemma_total_from(a, b, 0);
}

proof fn lemma_total_from(a: Seq<int>, b: Seq<int>, n: int)
    requires
        a != b,
        0 <= n <= a.len(),
        n <= b.len(),
        forall|j: int| 0 <= j < n ==> a[j] == b[j],
    ensures
        precedes(a, b) || precedes(b, a),
    decreases a.len() - n,
{
    if n == a.len() {
        if n == b.len() {
            assert(a =~= b);
        }
        assert(splits(a, b, n));
    } else if n == b.len() {
        assert(splits(b, a, n));
    } else if a[n] == b[n] {
        lemma_total_from(a, b, n + 1);
    } else if a[n] < b[n] {
        assert(splits(a, b, n));
    } else {
        assert(splits(b, a, n));
    }
}

/// Precedence is transitive.
pub proof fn lemma_transitive(a: Seq<int>, b: Seq<int>, c: Seq<int>)
    requires
        precedes(a, b),
        precedes(b, c),
    ensures
        precedes(a, c),
{
    let i = choose|i: int| #[trigger] splits(a, b, i);
    let j = choose|j: int| #[trigger] splits(b, c, j);
    if i < j {
        assert(splits(a, c, i));
    } else {
        assert(splits(a, c, j));
    }
}

/// Two keys never precede each other both ways.
pub proof fn lemma_asymmetric(a: Seq<int>, b: Seq<int>)
    requires
        precedes(a, b),
    ensures
        !precedes(b, a),
        a != b,
{
    if precedes(b, a) {
        lemma_transitive(a, b, a);
    }
}

/// A text inside a longer key: its characters moved up by one, then a zero, so
/// that a text that ends early comes first.
pub open spec fn text_key(text: Seq<char>) -> Seq<int> {
    Seq::new(text.len() + 1, |i: int| if i < text.len() { text[i] as int + 1 } else { 0 })
}

/// A text on its own.
pub open spec fn plain_key(text: Seq<char>) -> Seq<int> {
    Seq::new(text.len(), |i: int| text[i] as int)
}

/// The position at which two different texts part.
proof fn lemma_texts_part(a: Seq<char>, b: Seq<char>) -> (i: int)
    requires
        a != b,
    ensures
        0 <= i <= a.len(),
        i <= b.len(),
        forall|j: int| 0 <= j < i ==> a[j] == b[j],
        i < a.len() || i < b.len(),
        i < a.len() && i < b.len() ==> a[i] != b[i],
{
    lemma_texts_part_from(a, b, 0)
}

proof fn lemma_texts_part_from(a: Seq<char>, b: Seq<char>, n: int) -> (i: int)
    requires
        a != b,
        0 <= n <= a.len(),
        n <= b.len(),
        forall|j: int| 0 <= j < n ==> a[j] == b[j],
    ensures
        0 <= i <= a.len(),
        i <= b.len(),
        forall|j: int| 0 <= j < i ==> a[j] == b[j],
        i < a.len() || i < b.len(),
        i < a.len() && i < b.len() ==> a[i] != b[i],
    decreases a.len() - n,
{
    if n == a.len() && n == b.len() {
        assert(a =~= b);
        n
    } else if n < a.len() && n < b.len() && a[n] == b[n] {
        lemma_texts_part_from(a, b, n + 1)
    } else {
        n
    }
}

/// Different texts have different keys.
pub proof fn lemma_plain_key_injective(a: Seq<char>, b: Seq<char>)
    ensures
        plain_key(a) == plain_key(b) <==> a == b,
{
    if plain_key(a) == plain_key(b) {
        assert(plain_key(a).len() == a.len());
        assert(plain_key(b).len() == b.len());
        assert forall|i: int| 0 <= i < a.len() implies a[i] == b[i] by {
            assert(plain_key(a)[i] == plain_key(b)[i]);
        }
        assert(a =~= b);
    }
}

/// A character is known by its code point.
proof fn lemma_characters(a: char, b: char)
    ensures
        a == b <==> a as int == b as int,
        a as int >= 0,
        b as int >= 0,
{
}

/// Keys that start with texts compare by the texts first, then by the rest.
pub proof fn lemma_text_key_first(a: Seq<char>, x: Seq<int>, b: Seq<char>, y: Seq<int>)
    ensures
        text_key(a) + x == text_key(b) + y <==> a == b && x == y,
        a == b ==> (precedes(text_key(a) + x, text_key(b) + y) <==> precedes(x, y)),
        a != b ==> (precedes(text_key(a) + x, text_key(b) + y) <==> precedes(
            plain_key(a),
            plain_key(b),
        )),
{
    let p = text_key(a) + x;
    let q = text_key(b) + y;
    if a == b {
        lemma_common_prefix(text_key(a), x, y);
    } else {
        let i = lemma_texts_part(a, b);
        assert(forall|j: int| 0 <= j < i ==> p[j] == q[j]);
        assert(p[i] == if i < a.len() { a[i] as int + 1 } else { 0 });
        assert(q[i] == if i < b.len() { b[i] as int + 1 } else { 0 });
        lemma_characters(a[i], b[i]);
        assert(p[i] != q[i]);
        let pa = plain_key(a);
        let pb = plain_key(b);
        assert(forall|j: int| 0 <= j < i ==> pa[j] == pb[j]);
        if p[i] < q[i] {
            assert(splits(p, q, i));
            assert(splits(pa, pb, i));
        } else {
            assert(splits(q, p, i));
            lemma_asymmetric(q, p);
            assert(splits(pb, pa, i));
            lemma_asymmetric(pb, pa);
        }
    }
}

/// Keys with a common start compare by what follows it.
pub proof fn lemma_common_prefix(p: Seq<int>, x: Seq<int>, y: Seq<int>)
    ensures
        p + x == p + y <==> x == y,
        precedes(p + x, p + y) <==> precedes(x, y),
{
    let px = p + x;
    let py = p + y;
    if px == py {
        assert(x =~= y) by {
            assert(px.len() == py.len());
            assert forall|i: int| 0 <= i < x.len() implies x[i] == y[i] by {
                assert(px[p.len() + i] == py[p.len() + i]);
            }
        }
    }
    if precedes(x, y) {
        let i = choose|i: int| #[trigger] splits(x, y, i);
        assert forall|j: int| 0 <= j < p.len() + i implies px[j] == py[j] by {
            if j >= p.len() {
                assert(x[j - p.len()] == y[j - p.len()]);
            }
        }
        assert(splits(px, py, p.len() + i));
    }
    if precedes(px, py) {
        let i = choose|i: int| #[trigger] splits(px, py, i);
        if i < p.len() {
            assert(px[i] == py[i]);
        }
        assert forall|j: int| 0 <= j < i - p.len() implies x[j] == y[j] by {
            assert(px[p.len() + j] == py[p.len() + j]);
        }
        assert(splits(x, y, i - p.len()));
    }
}

/// Compares two texts with `str::cmp`, which orders them lexicographically by
/// byte, that is by the code points of their characters.
#[verifier::external_body]
pub(crate) fn compare_text(a: &str, b: &str) -> (order: Order)
    ensures
        order == order_of(plain_key(a@), plain_key(b@)),
{
    match a.cmp(b) {
        std::cmp::Ordering::Less => Order::Less,
        std::cmp::Ordering::Equal => Order::Equal,
        std::cmp::Ordering::Greater => Order::Greater,
    }
}

/// One text comes before another: they agree up to some place, where the one ends
/// or has the character with the smaller code point.
pub open spec fn text_before(a: Seq<char>, b: Seq<char>) -> bool {
    exists|k: int|
        {
            &&& 0 <= k <= a.len()
            &&& k < b.len()
            &&& #[trigger] a.take(k) == b.take(k)
            &&& k == a.len() || a[k] < b[k]
        }
}

/// Texts stand in the order of the first character in which they differ, and a
/// text stands before those that go on where it ends.
pub proof fn law_texts_are_ordered_by_their_first_difference(a: Seq<char>, b: Seq<char>)
    ensures
        order_of(plain_key(a), plain_key(b)) == Order::Less <==> text_before(a, b),
        order_of(plain_key(a), plain_key(b)) == Order::Equal <==> a == b,
        order_of(plain_key(a), plain_key(b)) == Order::Greater <==> text_before(b, a),
{
    lemma_plain_key_injective(a, b);
    lemma_text_before(a, b);
    lemma_text_before(b, a);
    lemma_irreflexive(plain_key(a));
    if a != b {
        lemma_total(plain_key(a), plain_key(b));
        if precedes(plain_key(a), plain_key(b)) {
            lemma_asymmetric(plain_key(a), plain_key(b));
        }
    }
}

/// What it means for the key of a text to precede that of another.
pub(crate) proof fn lemma_text_before(a: Seq<char>, b: Seq<char>)
    ensures
        precedes(plain_key(a), plain_key(b)) <==> text_before(a, b),
{
    let pa = plain_key(a);
    let pb = plain_key(b);
    if precedes(pa, pb) {
        let i = choose|i: int| #[trigger] splits(pa, pb, i);
        assert forall|j: int| 0 <= j < i implies a[j] == b[j] by {
            assert(pa[j] == pb[j]);
            lemma_characters(a[j], b[j]);
        }
        assert(a.take(i) =~= b.take(i));
    }
    if text_before(a, b) {
        let k = choose|k: int|
            {
                &&& 0 <= k <= a.len()
                &&& k < b.len()
                &&& #[trigger] a.take(k) == b.take(k)
                &&& k == a.len() || a[k] < b[k]
            };
        assert forall|j: int| 0 <= j < k implies pa[j] == pb[j] by {
            assert(a.take(k)[j] == b.take(k)[j]);
        }
        assert(splits(pa, pb, k));
    }
}

} // verus!
