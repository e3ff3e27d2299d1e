//! Maps and sets that keep their keys in order.
//!
//! Both are known by the sequence of what they hold, in ascending order of the
//! keys' sort keys, no sort key twice.

use vstd::prelude::*;

use crate::order;
use crate::order::Order;
use crate::plain::Plain;

verus! {

/// The mathematical side of a key: it has a place in an order.
pub trait Ranked: Sized {
    spec fn sort_key(self) -> Seq<int>;
}

impl Ranked for Seq<char> {
    open spec fn sort_key(self) -> Seq<int> {
        order::plain_key(self)
    }
}

/// A value that can be a key.
pub trait Key: Sized {
    type Model: Ranked;

    spec fn model(&self) -> Self::Model;

    /// Which of two keys comes first.
    fn compare(&self, other: &Self) -> (result: Order)
        ensures
            result == order::order_of(self.model().sort_key(), other.model().sort_key()),
    ;

    /// Another key that holds the same.
    fn same_key(&self) -> (copy: Self)
        ensures
            copy.model() == self.model(),
    ;
}

impl Key for String {
    type Model = Seq<char>;

    open spec fn model(&self) -> Seq<char> {
        self@
    }

    fn compare(&self, other: &Self) -> (result: Order) {
        let a: &str = self.as_str();
        let b: &str = other.as_str();
        assert(self.model().sort_key() == order::plain_key(a@));
        assert(other.model().sort_key() == order::plain_key(b@));
        order::compare_text(a, b)
    }

    fn same_key(&self) -> (copy: Self) {
        self.clone()
    }
}

// ---------------------------------------------------------------------------
// Sequences in order
// ---------------------------------------------------------------------------

/// Each key comes strictly before the next ones.
pub open spec fn ascending<K: Ranked>(keys: Seq<K>) -> bool {
    forall|i: int, j: int|
        #![trigger keys[i], keys[j]]
        0 <= i < j < keys.len() ==> order::precedes(keys[i].sort_key(), keys[j].sort_key())
}

/// `key`, or one that compares equal to it, is among `keys`.
pub open spec fn holds<K: Ranked>(keys: Seq<K>, key: K) -> bool {
    exists|i: int| 0 <= i < keys.len() && (#[trigger] keys[i]).sort_key() == key.sort_key()
}

/// `at` parts the keys that come before `key` from the others.
pub open spec fn is_place<K: Ranked>(keys: Seq<K>, key: K, at: int) -> bool {
    &&& 0 <= at <= keys.len()
    &&& forall|i: int|
        0 <= i < at ==> order::precedes((#[trigger] keys[i]).sort_key(), key.sort_key())
    &&& forall|i: int|
        at <= i < keys.len() ==> !order::precedes((#[trigger] keys[i]).sort_key(), key.sort_key())
}

/// Where `key` stands, or would stand, among ascending `keys`.
pub open spec fn place<K: Ranked>(keys: Seq<K>, key: K) -> int {
    choose|at: int| is_place(keys, key, at)
}

/// The set with `key` added. One that compares equal stays as it is.
pub open spec fn with_key<K: Ranked>(keys: Seq<K>, key: K) -> Seq<K> {
    if holds(keys, key) {
        keys
    } else {
        keys.insert(place(keys, key), key)
    }
}

/// The keys of a map.
pub open spec fn keys_of<K, V>(entries: Seq<(K, V)>) -> Seq<K> {
    Seq::new(entries.len(), |i: int| entries[i].0)
}

/// The value that a map holds under `key`.
pub open spec fn lookup<K: Ranked, V>(entries: Seq<(K, V)>, key: K) -> Option<V> {
    if holds(keys_of(entries), key) {
        Some(entries[place(keys_of(entries), key)].1)
    } else {
        None
    }
}

/// The map with `value` put under `key`. A key that is there already stays.
pub open spec fn with_entry<K: Ranked, V>(entries: Seq<(K, V)>, key: K, value: V) -> Seq<(K, V)> {
    let at = place(keys_of(entries), key);
    if holds(keys_of(entries), key) {
        entries.update(at, (entries[at].0, value))
    } else {
        entries.insert(at, (key, value))
    }
}

/// A place is the only one.
pub proof fn lemma_place<K: Ranked>(keys: Seq<K>, key: K, at: int)
    requires
        is_place(keys, key, at),
    ensures
        place(keys, key) == at,
{
    let p = place(keys, key);
    if p < at {
        assert(order::precedes(keys[p].sort_key(), key.sort_key()));
    } else if at < p {
        assert(order::precedes(keys[at].sort_key(), key.sort_key()));
    }
}

/// Ascending keys have a place for every key, and a key that is there stands
/// at its place.
pub proof fn lemma_place_exists<K: Ranked>(keys: Seq<K>, key: K)
    requires
        ascending(keys),
    ensures
        is_place(keys, key, place(keys, key)),
        holds(keys, key) <==> {
            &&& place(keys, key) < keys.len()
            &&& keys[place(keys, key)].sort_key() == key.sort_key()
        },
{
    lemma_place_exists_from(keys, key, 0);
    let p = place(keys, key);
    if holds(keys, key) {
        let i = choose|i: int|
            0 <= i < keys.len() && (#[trigger] keys[i]).sort_key() == key.sort_key();
        order::lemma_irreflexive(key.sort_key());
        assert(p <= i);
        if p < i {
            assert(order::precedes(keys[p].sort_key(), keys[i].sort_key()));
        }
    }
}

proof fn lemma_place_exists_from<K: Ranked>(keys: Seq<K>, key: K, n: int)
    requires
        ascending(keys),
        0 <= n <= keys.len(),
        forall|i: int|
            0 <= i < n ==> order::precedes((#[trigger] keys[i]).sort_key(), key.sort_key()),
    ensures
        is_place(keys, key, place(keys, key)),
    decreases keys.len() - n,
{
    if n < keys.len() && order::precedes(keys[n].sort_key(), key.sort_key()) {
        lemma_place_exists_from(keys, key, n + 1);
    } else {
        assert forall|i: int| n <= i < keys.len() implies !order::precedes(
            (#[trigger] keys[i]).sort_key(),
            key.sort_key(),
        ) by {
            if order::precedes(keys[i].sort_key(), key.sort_key()) && n < i {
                order::lemma_transitive(keys[n].sort_key(), keys[i].sort_key(), key.sort_key());
            }
        }
        assert(is_place(keys, key, n));
    }
}

/// Adding a key keeps the order, and holds what was there and the key.
pub proof fn lemma_with_key<K: Ranked>(keys: Seq<K>, key: K)
    requires
        ascending(keys),
    ensures
        ascending(with_key(keys, key)),
        holds(with_key(keys, key), key),
        forall|k: K|
            #[trigger] holds(with_key(keys, key), k) <==> holds(keys, k) || k.sort_key()
                == key.sort_key(),
        forall|i: int|
            0 <= i < with_key(keys, key).len() ==> keys.contains(
                #[trigger] with_key(keys, key)[i],
            ) || with_key(keys, key)[i] == key,
        forall|i: int|
            0 <= i < keys.len() ==> with_key(keys, key).contains(#[trigger] keys[i]),
{
    let added = with_key(keys, key);
    lemma_place_exists(keys, key);
    let p = place(keys, key);
    if holds(keys, key) {
        assert(forall|i: int| 0 <= i < keys.len() ==> added.contains(#[trigger] keys[i]));
    } else {
        assert forall|i: int, j: int|
            #![trigger added[i], added[j]]
            0 <= i < j < added.len() implies order::precedes(
            added[i].sort_key(),
            added[j].sort_key(),
        ) by {
            if j == p {
                assert(added[i] == keys[i]);
            } else if i == p {
                assert(added[j] == keys[j - 1]);
                assert(keys[j - 1].sort_key() != key.sort_key());
                order::lemma_total(keys[j - 1].sort_key(), key.sort_key());
            } else {
                let a = if i < p { i } else { i - 1 };
                let b = if j < p { j } else { j - 1 };
                assert(added[i] == keys[a] && added[j] == keys[b]);
            }
        }
        assert(added[p] == key);
        assert forall|i: int| 0 <= i < keys.len() implies added.contains(#[trigger] keys[i]) by {
            let n = if i < p { i } else { i + 1 };
            assert(added[n] == keys[i]);
        }
        assert forall|k: K| #[trigger] holds(added, k) implies holds(keys, k) || k.sort_key()
            == key.sort_key() by {
            let i = choose|i: int|
                0 <= i < added.len() && (#[trigger] added[i]).sort_key() == k.sort_key();
            if i < p {
                assert(keys[i] == added[i]);
            } else if i > p {
                assert(keys[i - 1] == added[i]);
            }
        }
        assert forall|k: K| holds(keys, k) || k.sort_key() == key.sort_key() implies
            #[trigger] holds(added, k) by {
            if holds(keys, k) {
                let i = choose|i: int|
                    0 <= i < keys.len() && (#[trigger] keys[i]).sort_key() == k.sort_key();
                let n = if i < p { i } else { i + 1 };
                assert(added[n] == keys[i]);
            }
        }
    }
}

/// The keys of a map with an entry put in.
pub proof fn lemma_keys_of_with_entry<K: Ranked, V>(entries: Seq<(K, V)>, key: K, value: V)
    requires
        ascending(keys_of(entries)),
    ensures
        keys_of(with_entry(entries, key, value)) == with_key(keys_of(entries), key),
{
    lemma_place_exists(keys_of(entries), key);
    assert(keys_of(with_entry(entries, key, value)) =~= with_key(keys_of(entries), key));
}

/// What a map holds after an entry was put in: the new value under its key,
/// and what it held before under every other.
pub proof fn lemma_lookup_with_entry<K: Ranked, V>(
    entries: Seq<(K, V)>,
    key: K,
    value: V,
    other: K,
)
    requires
        ascending(keys_of(entries)),
    ensures
        ascending(keys_of(with_entry(entries, key, value))),
        lookup(with_entry(entries, key, value), other) == if other.sort_key() == key.sort_key() {
            Some(value)
        } else {
            lookup(entries, other)
        },
{
    let keys = keys_of(entries);
    let put = with_entry(entries, key, value);
    lemma_keys_of_with_entry(entries, key, value);
    lemma_with_key(keys, key);
    lemma_place_exists(keys, key);
    lemma_place_exists(keys, other);
    lemma_place_exists(keys_of(put), other);
    let p = place(keys, key);
    let q = place(keys, other);
    let r = place(keys_of(put), other);
    if other.sort_key() == key.sort_key() {
        assert(holds(keys_of(put), other));
        lemma_index_unique(keys_of(put), r, p);
    } else if holds(keys, other) {
        assert(holds(keys_of(put), other));
        let n = if holds(keys, key) || q < p { q } else { q + 1 };
        assert(keys_of(put)[n] == keys[q]);
        lemma_index_unique(keys_of(put), r, n);
        if holds(keys, key) {
            assert(q != p);
        }
    } else {
        assert(!holds(keys_of(put), other));
    }
}

/// An entry whose key comes after all others is put at the end.
pub proof fn lemma_with_entry_last<K: Ranked, V>(entries: Seq<(K, V)>, key: K, value: V)
    requires
        forall|i: int|
            0 <= i < entries.len() ==> order::precedes(
                (#[trigger] entries[i]).0.sort_key(),
                key.sort_key(),
            ),
    ensures
        with_entry(entries, key, value) == entries.push((key, value)),
{
    let keys = keys_of(entries);
    assert forall|i: int| 0 <= i < keys.len() implies order::precedes(
        (#[trigger] keys[i]).sort_key(),
        key.sort_key(),
    ) by {
        assert(keys[i] == entries[i].0);
    }
    assert(is_place(keys, key, keys.len() as int));
    lemma_place(keys, key, keys.len() as int);
    order::lemma_irreflexive(key.sort_key());
    assert(!holds(keys, key));
    assert(with_entry(entries, key, value) =~= entries.push((key, value)));
}

/// What holds of all values of a map and of a value holds of all values once it
/// was put in.
pub proof fn lemma_with_entry_values<K: Ranked, V>(
    entries: Seq<(K, V)>,
    key: K,
    value: V,
    p: spec_fn(V) -> bool,
)
    requires
        ascending(keys_of(entries)),
        forall|i: int| 0 <= i < entries.len() ==> p((#[trigger] entries[i]).1),
        p(value),
    ensures
        forall|i: int|
            0 <= i < with_entry(entries, key, value).len() ==> p(
                (#[trigger] with_entry(entries, key, value)[i]).1,
            ),
{
    lemma_place_exists(keys_of(entries), key);
    let at = place(keys_of(entries), key);
    let put = with_entry(entries, key, value);
    assert forall|i: int| 0 <= i < put.len() implies p((#[trigger] put[i]).1) by {
        if i != at {
            if holds(keys_of(entries), key) || i < at {
                assert(put[i] == entries[i]);
            } else {
                assert(put[i] == entries[i - 1]);
            }
        }
    }
}

/// Ascending keys hold no sort key twice.
pub proof fn lemma_index_unique<K: Ranked>(keys: Seq<K>, i: int, j: int)
    requires
        ascending(keys),
        0 <= i < keys.len(),
        0 <= j < keys.len(),
        keys[i].sort_key() == keys[j].sort_key(),
    ensures
        i == j,
{
    if i < j {
        assert(order::precedes(keys[i].sort_key(), keys[j].sort_key()));
        order::lemma_irreflexive(keys[i].sort_key());
    } else if j < i {
        assert(order::precedes(keys[j].sort_key(), keys[i].sort_key()));
        order::lemma_irreflexive(keys[i].sort_key());
    }
}

/// Keys that compare equal look up the same.
pub proof fn lemma_lookup_same<K: Ranked, V>(entries: Seq<(K, V)>, a: K, b: K)
    requires
        ascending(keys_of(entries)),
        a.sort_key() == b.sort_key(),
    ensures
        lookup(entries, a) == lookup(entries, b),
        holds(keys_of(entries), a) == holds(keys_of(entries), b),
{
    lemma_place_exists(keys_of(entries), a);
    lemma_place_exists(keys_of(entries), b);
    if holds(keys_of(entries), a) {
        lemma_index_unique(
            keys_of(entries),
            place(keys_of(entries), a),
            place(keys_of(entries), b),
        );
    }
}

// ---------------------------------------------------------------------------
// Maps
// ---------------------------------------------------------------------------

/// A map whose entries stand in ascending order of their keys.
#[derive(Debug, PartialEq, Eq)]
pub struct OrdMap<K: Key, V> {
    entries: Vec<(K, V)>,
}

impl<K: Key, V: DeepView> View for OrdMap<K, V> {
    type V = Seq<(K::Model, V::V)>;

    closed spec fn view(&self) -> Seq<(K::Model, V::V)> {
        Seq::new(
            self.entries@.len(),
            |i: int| (self.entries@[i].0.model(), self.entries@[i].1.deep_view()),
        )
    }
}

impl<K: Key, V: DeepView> DeepView for OrdMap<K, V> {
    type V = Seq<(K::Model, V::V)>;

    open spec fn deep_view(&self) -> Seq<(K::Model, V::V)> {
        self.view()
    }
}

impl<K: Key, V> OrdMap<K, V> {
    spec fn keys(self) -> Seq<K::Model> {
        Seq::new(self.entries@.len(), |i: int| self.entries@[i].0.model())
    }

    #[verifier::type_invariant]
    spec fn in_order(self) -> bool {
        ascending(self.keys())
    }
}

impl<K: Key, V: DeepView> OrdMap<K, V> {
    proof fn lemma_keys(self)
        ensures
            self.keys() == keys_of(self@),
    {
        assert(self.keys() =~= keys_of(self@));
    }

    /// The empty map.
    pub fn new() -> (map: Self)
        ensures
            map@ == Seq::<(K::Model, V::V)>::empty(),
    {
        let map = OrdMap { entries: Vec::new() };
        assert(map@ =~= Seq::<(K::Model, V::V)>::empty());
        map
    }

    /// The number of entries.
    pub fn len(&self) -> (len: usize)
        ensures
            len == self@.len(),
            ascending(keys_of(self@)),
    {
        proof {
            use_type_invariant(self);
            self.lemma_keys();
        }
        self.entries.len()
    }

    pub fn is_empty(&self) -> (empty: bool)
        ensures
            empty == (self@.len() == 0),
    {
        self.entries.len() == 0
    }

    /// The key of the entry at a position.
    pub fn key_at(&self, index: usize) -> (key: &K)
        requires
            index < self@.len(),
        ensures
            key.model() == self@[index as int].0,
    {
        &self.entries[index].0
    }

    /// The value of the entry at a position.
    pub fn value_at(&self, index: usize) -> (value: &V)
        requires
            index < self@.len(),
        ensures
            value.deep_view() == self@[index as int].1,
    {
        &self.entries[index].1
    }

    /// The place of `key`, and whether it is there.
    fn search(&self, key: &K) -> (found: (usize, bool))
        ensures
            ascending(keys_of(self@)),
            is_place(keys_of(self@), key.model(), found.0 as int),
            found.0 == place(keys_of(self@), key.model()),
            found.1 == holds(keys_of(self@), key.model()),
            found.0 <= self.entries@.len(),
    {
        proof {
            use_type_invariant(self);
            self.lemma_keys();
        }
        let ghost keys = keys_of(self@);
        let ghost sought = key.model();
        let mut low: usize = 0;
        let mut high: usize = self.entries.len();
        while low < high
            invariant
                keys == keys_of(self@),
                sought == key.model(),
                ascending(keys),
                low <= high <= self.entries@.len(),
                keys.len() == self.entries@.len(),
                forall|i: int|
                    0 <= i < low ==> order::precedes(
                        (#[trigger] keys[i]).sort_key(),
                        sought.sort_key(),
                    ),
                forall|i: int|
                    high <= i < keys.len() ==> !order::precedes(
                        (#[trigger] keys[i]).sort_key(),
                        sought.sort_key(),
                    ),
            decreases high - low,
        {
            let middle: usize = low + (high - low) / 2;
            assert(keys[middle as int] == self.entries@[middle as int].0.model());
            match self.entries[middle].0.compare(key) {
                Order::Less => {
                    proof {
                        assert forall|i: int| 0 <= i < middle + 1 implies order::precedes(
                            (#[trigger] keys[i]).sort_key(),
                            sought.sort_key(),
                        ) by {
                            if i < middle {
                                order::lemma_transitive(
                                    keys[i].sort_key(),
                                    keys[middle as int].sort_key(),
                                    sought.sort_key(),
                                );
                            }
                        }
                    }
                    low = middle + 1;
                },
                _ => {
                    proof {
                        order::lemma_irreflexive(sought.sort_key());
                        assert forall|i: int| middle <= i < keys.len() implies !order::precedes(
                            (#[trigger] keys[i]).sort_key(),
                            sought.sort_key(),
                        ) by {
                            if order::precedes(keys[i].sort_key(), sought.sort_key()) && middle
                                < i {
                                order::lemma_transitive(
                                    keys[middle as int].sort_key(),
                                    keys[i].sort_key(),
                                    sought.sort_key(),
                                );
                            }
                        }
                    }
                    high = middle;
                },
            }
        }
        proof {
            lemma_place(keys, sought, low as int);
            lemma_place_exists(keys, sought);
        }
        if low < self.entries.len() {
            assert(keys[low as int] == self.entries@[low as int].0.model());
            match self.entries[low].0.compare(key) {
                Order::Equal => (low, true),
                _ => (low, false),
            }
        } else {
            (low, false)
        }
    }

    /// The value under `key`.
    pub fn get(&self, key: &K) -> (value: Option<&V>)
        ensures
            value.deep_view() == lookup(self@, key.model()),
            ascending(keys_of(self@)),
    {
        let (at, found) = self.search(key);
        if found {
            proof {
                lemma_place_exists(keys_of(self@), key.model());
            }
            Some(&self.entries[at].1)
        } else {
            None
        }
    }

    /// Whether there is an entry under `key`.
    pub fn contains_key(&self, key: &K) -> (found: bool)
        ensures
            found == holds(keys_of(self@), key.model()),
            ascending(keys_of(self@)),
    {
        self.search(key).1
    }

    /// Puts `value` under `key`.
    pub fn insert(&mut self, key: K, value: V)
        ensures
            final(self)@ == with_entry(old(self)@, key.model(), value.deep_view()),
            ascending(keys_of(final(self)@)),
    {
        let (at, found) = self.search(&key);
        let ghost before = self@;
        let ghost old_keys = keys_of(before);
        let mut entries: Vec<(K, V)> = Vec::new();
        proof {
            lemma_place_exists(old_keys, key.model());
            lemma_keys_of_with_entry(before, key.model(), value.deep_view());
            lemma_with_key(old_keys, key.model());
        }
        let ghost after = with_entry(before, key.model(), value.deep_view());
        std::mem::swap(&mut entries, &mut self.entries);
        if found {
            let kept: K = entries[at].0.same_key();
            entries.set(at, (kept, value));
        } else {
            entries.insert(at, (key, value));
        }
        proof {
            let rebuilt = OrdMap { entries };
            assert(rebuilt@ =~= after);
            rebuilt.lemma_keys();
            assert(ascending(rebuilt.keys()));
        }
        self.entries = entries;
    }
}

impl<K: Key, V: Plain> Plain for OrdMap<K, V> {
    fn duplicate(&self) -> (copy: Self) {
        proof {
            use_type_invariant(self);
        }
        let mut entries: Vec<(K, V)> = Vec::new();
        let mut i: usize = 0;
        while i < self.entries.len()
            invariant
                i <= self.entries@.len(),
                entries@.len() == i,
                forall|j: int|
                    0 <= j < i ==> {
                        &&& (#[trigger] entries@[j]).0.model() == self.entries@[j].0.model()
                        &&& entries@[j].1.deep_view() == self.entries@[j].1.deep_view()
                    },
            decreases self.entries@.len() - i,
        {
            let key: K = self.entries[i].0.same_key();
            let value: V = self.entries[i].1.duplicate();
            entries.push((key, value));
            i += 1;
        }
        proof {
            let rebuilt = OrdMap { entries };
            assert(rebuilt.keys() =~= self.keys());
            assert(rebuilt@ =~= self@);
        }
        OrdMap { entries }
    }
}

impl<K: Key, V: Plain> Clone for OrdMap<K, V> {
    fn clone(&self) -> (copy: Self)
        ensures
            copy@ == self@,
    {
        self.duplicate()
    }
}

impl<K: Key, V: DeepView> Default for OrdMap<K, V> {
    fn default() -> (map: Self)
        ensures
            map@ == Seq::<(K::Model, V::V)>::empty(),
    {
        OrdMap::new()
    }
}

// ---------------------------------------------------------------------------
// Sets
// ---------------------------------------------------------------------------

/// A set whose keys stand in ascending order.
#[derive(Debug, PartialEq, Eq)]
pub struct OrdSet<K: Key> {
    members: OrdMap<K, ()>,
}

impl<K: Key> View for OrdSet<K> {
    type V = Seq<K::Model>;

    closed spec fn view(&self) -> Seq<K::Model> {
        keys_of(self.members@)
    }
}

impl<K: Key> DeepView for OrdSet<K> {
    type V = Seq<K::Model>;

    open spec fn deep_view(&self) -> Seq<K::Model> {
        self.view()
    }
}

impl<K: Key> OrdSet<K> {
    /// The empty set.
    pub fn new() -> (set: Self)
        ensures
            set@ == Seq::<K::Model>::empty(),
    {
        let set = OrdSet { members: OrdMap::new() };
        assert(set@ =~= Seq::<K::Model>::empty());
        set
    }

    /// The number of keys.
    pub fn len(&self) -> (len: usize)
        ensures
            len == self@.len(),
            ascending(self@),
    {
        self.members.len()
    }

    pub fn is_empty(&self) -> (empty: bool)
        ensures
            empty == (self@.len() == 0),
    {
        self.members.is_empty()
    }

    /// The key at a position.
    pub fn at(&self, index: usize) -> (key: &K)
        requires
            index < self@.len(),
        ensures
            key.model() == self@[index as int],
    {
        self.members.key_at(index)
    }

    /// Whether `key`, or one that compares equal to it, is in the set.
    pub fn contains(&self, key: &K) -> (found: bool)
        ensures
            found == holds(self@, key.model()),
            ascending(self@),
    {
        self.members.contains_key(key)
    }

    /// Adds `key`.
    pub fn insert(&mut self, key: K)
        ensures
            final(self)@ == with_key(old(self)@, key.model()),
            ascending(final(self)@),
    {
        let _ = self.members.len();
        proof {
            lemma_keys_of_with_entry(self.members@, key.model(), ());
        }
        self.members.insert(key, ());
    }
}

impl<K: Key> Plain for OrdSet<K> {
    fn duplicate(&self) -> (copy: Self) {
        let mut copy: OrdSet<K> = OrdSet::new();
        let mut i: usize = 0;
        let total: usize = self.len();
        while i < total
            invariant
                i <= total,
                total == self@.len(),
                ascending(self@),
                copy@ == self@.take(i as int),
            decreases total - i,
        {
            let key: K = self.at(i).same_key();
            proof {
                let taken = self@.take(i as int);
                let next = self@[i as int];
                assert forall|j: int| 0 <= j < taken.len() implies order::precedes(
                    (#[trigger] taken[j]).sort_key(),
                    next.sort_key(),
                ) by {
                    assert(taken[j] == self@[j]);
                }
                assert(is_place(taken, next, i as int));
                lemma_place(taken, next, i as int);
                if holds(taken, next) {
                    let j = choose|j: int|
                        0 <= j < taken.len() && (#[trigger] taken[j]).sort_key()
                            == next.sort_key();
                    order::lemma_irreflexive(next.sort_key());
                }
                assert(with_key(taken, next) =~= self@.take(i + 1));
            }
            copy.insert(key);
            i += 1;
        }
        assert(self@.take(total as int) =~= self@);
        copy
    }
}

impl<K: Key> Clone for OrdSet<K> {
    fn clone(&self) -> (copy: Self)
        ensures
            copy@ == self@,
    {
        self.duplicate()
    }
}

impl<K: Key> Default for OrdSet<K> {
    fn default() -> (set: Self)
        ensures
            set@ == Seq::<K::Model>::empty(),
    {
        OrdSet::new()
    }
}

} // verus!
