//! Maps and sets keyed by text, kept in the order of their keys.

use vstd::prelude::*;

use crate::text::text_less;

verus! {

use crate::text::{lex_less, lex_less_asymmetric, lex_less_irreflexive, lex_less_total, lex_less_transitive};

// ---------------------------------------------------------------------------
// Model
// ---------------------------------------------------------------------------

/// The keys increase strictly.
pub open spec fn sorted_pairs<T>(s: Seq<(Seq<char>, T)>) -> bool {
    forall|i: int, j: int|
        0 <= i < j < s.len() ==> lex_less((#[trigger] s[i]).0, (#[trigger] s[j]).0)
}

/// The texts increase strictly.
pub open spec fn sorted_texts(s: Seq<Seq<char>>) -> bool {
    forall|i: int, j: int| 0 <= i < j < s.len() ==> lex_less(#[trigger] s[i], #[trigger] s[j])
}

/// Some entry has the key `k`.
pub open spec fn has_key<T>(s: Seq<(Seq<char>, T)>, k: Seq<char>) -> bool {
    exists|i: int| 0 <= i < s.len() && (#[trigger] s[i]).0 == k
}

/// The position of an entry with the key `k`.
pub open spec fn key_position<T>(s: Seq<(Seq<char>, T)>, k: Seq<char>) -> int {
    choose|i: int| 0 <= i < s.len() && (#[trigger] s[i]).0 == k
}

/// The map that a sequence of entries with distinct keys stands for.
pub open spec fn map_of<T>(s: Seq<(Seq<char>, T)>) -> Map<Seq<char>, T> {
    Map::new(|k: Seq<char>| has_key(s, k), |k: Seq<char>| s[key_position(s, k)].1)
}

/// The value stored under `k`, if there is one.
pub open spec fn lookup<T>(s: Seq<(Seq<char>, T)>, k: Seq<char>) -> Option<T> {
    if has_key(s, k) {
        Some(s[key_position(s, k)].1)
    } else {
        None
    }
}

/// The views of a sequence of values.
pub open spec fn views<T: View>(s: Seq<T>) -> Seq<T::V> {
    Seq::new(s.len(), |i: int| s[i]@)
}

/// The view of an optional value.
pub open spec fn opt_view<T: View>(o: Option<T>) -> Option<T::V> {
    match o {
        Some(v) => Some(v@),
        None => None,
    }
}

/// The entries of a map with the views of their values.
pub open spec fn pairs_view<T: View>(m: StrMap<T>) -> Seq<(Seq<char>, T::V)> {
    Seq::new(m.pairs().len(), |i: int| (m.pairs()[i].0, m.pairs()[i].1@))
}

/// Looking up a key in the viewed entries gives the view of what is stored.
pub proof fn pairs_view_lookup<T: View>(m: StrMap<T>, key: Seq<char>)
    requires
        sorted_pairs(m.pairs()),
    ensures
        sorted_pairs(pairs_view(m)),
        has_key(pairs_view(m), key) == has_key(m.pairs(), key),
        lookup(pairs_view(m), key) == opt_view(lookup(m.pairs(), key)),
{
    let a = m.pairs();
    let b = pairs_view(m);
    assert forall|i: int, j: int| 0 <= i < j < b.len() implies lex_less(
        (#[trigger] b[i]).0,
        (#[trigger] b[j]).0,
    ) by {
        assert(a[i].0 == b[i].0 && a[j].0 == b[j].0);
    }
    if has_key(a, key) {
        let p = key_position(a, key);
        assert(b[p].0 == key);
        sorted_position(a, p);
        sorted_position(b, p);
    }
    if has_key(b, key) {
        let p = key_position(b, key);
        assert(a[p].0 == key);
    }
}

/// In a sorted sequence a key stands at one position only.
pub proof fn sorted_position<T>(s: Seq<(Seq<char>, T)>, i: int)
    requires
        sorted_pairs(s),
        0 <= i < s.len(),
    ensures
        has_key(s, s[i].0),
        key_position(s, s[i].0) == i,
        lookup(s, s[i].0) == Some(s[i].1),
        map_of(s).dom().contains(s[i].0),
        map_of(s)[s[i].0] == s[i].1,
{
    let k = s[i].0;
    assert(has_key(s, k));
    let p = key_position(s, k);
    assert(0 <= p < s.len() && s[p].0 == k);
    if p < i {
        assert(lex_less(s[p].0, s[i].0));
        lex_less_irreflexive(k);
    } else if i < p {
        assert(lex_less(s[i].0, s[p].0));
        lex_less_irreflexive(k);
    }
}

/// Two sorted sequences that stand for the same map are the same sequence.
pub proof fn sorted_pairs_unique<T>(a: Seq<(Seq<char>, T)>, b: Seq<(Seq<char>, T)>)
    requires
        sorted_pairs(a),
        sorted_pairs(b),
        forall|k: Seq<char>| #[trigger] lookup(a, k) == lookup(b, k),
    ensures
        a == b,
    decreases a.len(),
{
    if a.len() == 0 {
        if b.len() > 0 {
            sorted_position(b, 0);
            assert(lookup(a, b[0].0) == lookup(b, b[0].0));
        }
        assert(a =~= b);
    } else if b.len() == 0 {
        sorted_position(a, 0);
        assert(lookup(a, a[0].0) == lookup(b, a[0].0));
    } else {
        sorted_position(a, 0);
        sorted_position(b, 0);
        assert(lookup(a, a[0].0) == lookup(b, a[0].0));
        assert(lookup(a, b[0].0) == lookup(b, b[0].0));
        let p = key_position(b, a[0].0);
        let q = key_position(a, b[0].0);
        if p > 0 {
            assert(lex_less(b[0].0, b[p].0));
            if q > 0 {
                assert(lex_less(a[0].0, a[q].0));
                lex_less_asymmetric(a[0].0, b[0].0);
            } else {
                lex_less_irreflexive(a[0].0);
            }
        }
        assert(p == 0);
        assert(a[0] == b[0]);
        let ar = a.drop_first();
        let br = b.drop_first();
        assert(sorted_pairs(ar));
        assert(sorted_pairs(br));
        assert forall|k: Seq<char>| #[trigger] lookup(ar, k) == lookup(br, k) by {
            assert(lookup(a, k) == lookup(b, k));
            lemma_lookup_drop_first(a, k);
            lemma_lookup_drop_first(b, k);
        }
        sorted_pairs_unique(ar, br);
        assert(a =~= seq![a[0]] + ar);
        assert(b =~= seq![b[0]] + br);
    }
}

proof fn lemma_lookup_drop_first<T>(s: Seq<(Seq<char>, T)>, k: Seq<char>)
    requires
        sorted_pairs(s),
        s.len() > 0,
    ensures
        k == s[0].0 ==> lookup(s.drop_first(), k) is None,
        k != s[0].0 ==> lookup(s.drop_first(), k) == lookup(s, k),
{
    let r = s.drop_first();
    assert(sorted_pairs(r));
    if k == s[0].0 {
        if has_key(r, k) {
            let p = key_position(r, k);
            assert(r[p] == s[p + 1]);
            assert(lex_less(s[0].0, s[p + 1].0));
            lex_less_irreflexive(k);
        }
    } else {
        if has_key(s, k) {
            let p = key_position(s, k);
            assert(p > 0);
            assert(r[p - 1] == s[p]);
            sorted_position(r, p - 1);
        } else {
            if has_key(r, k) {
                let p = key_position(r, k);
                assert(r[p] == s[p + 1]);
            }
        }
    }
}

// ---------------------------------------------------------------------------
// Map
// ---------------------------------------------------------------------------

/// A map from text to `T`, ordered by key.
#[derive(Debug, PartialEq, Eq)]
pub struct StrMap<T> {
    entries: Vec<(String, T)>,
}

impl<T> View for StrMap<T> {
    type V = Map<Seq<char>, T>;

    open spec fn view(&self) -> Map<Seq<char>, T> {
        map_of(self.pairs())
    }
}

impl<T> StrMap<T> {
    /// The entries in the order of their keys.
    pub closed spec fn pairs(&self) -> Seq<(Seq<char>, T)> {
        Seq::new(self.entries@.len(), |i: int| (self.entries@[i].0@, self.entries@[i].1))
    }

    #[verifier::type_invariant]
    spec fn ordered(&self) -> bool {
        sorted_pairs(self.pairs())
    }

    /// Every map is sorted by key.
    pub fn prove_sorted(&self)
        ensures
            sorted_pairs(self.pairs()),
    {
        proof {
            use_type_invariant(self);
        }
    }

    /// An empty map.
    pub fn new() -> (r: Self)
        ensures
            r.pairs() == Seq::<(Seq<char>, T)>::empty(),
            r@ == Map::<Seq<char>, T>::empty(),
    {
        let r = StrMap { entries: Vec::new() };
        assert(r.pairs() =~= Seq::empty());
        assert(r@ =~= Map::empty());
        r
    }

    /// The number of entries.
    pub fn len(&self) -> (r: usize)
        ensures
            r == self.pairs().len(),
    {
        self.entries.len()
    }

    /// Whether there is no entry.
    pub fn is_empty(&self) -> (r: bool)
        ensures
            r == (self.pairs().len() == 0),
    {
        self.entries.len() == 0
    }

    /// The key at position `i`.
    pub fn key_at(&self, i: usize) -> (r: &str)
        requires
            i < self.pairs().len(),
        ensures
            r@ == self.pairs()[i as int].0,
    {
        self.entries[i].0.as_str()
    }

    /// The value at position `i`.
    pub fn value_at(&self, i: usize) -> (r: &T)
        requires
            i < self.pairs().len(),
        ensures
            *r == self.pairs()[i as int].1,
    {
        &self.entries[i].1
    }

    /// The position of `key`, or where it would stand.
    pub fn search(&self, key: &str) -> (r: (bool, usize))
        ensures
            r.1 <= self.pairs().len(),
            r.0 == has_key(self.pairs(), key@),
            r.0 ==> r.1 < self.pairs().len() && self.pairs()[r.1 as int].0 == key@,
            forall|j: int| 0 <= j < r.1 ==> lex_less(#[trigger] self.pairs()[j].0, key@),
            !r.0 ==> forall|j: int|
                r.1 <= j < self.pairs().len() ==> lex_less(key@, #[trigger] self.pairs()[j].0),
    {
        proof {
            use_type_invariant(self);
        }
        let ghost s = self.pairs();
        let mut low: usize = 0;
        let mut high: usize = self.entries.len();
        while low < high
            invariant
                s == self.pairs(),
                sorted_pairs(s),
                low <= high <= s.len(),
                forall|j: int| 0 <= j < low ==> lex_less(#[trigger] s[j].0, key@),
                forall|j: int| high <= j < s.len() ==> lex_less(key@, #[trigger] s[j].0),
            decreases high - low,
        {
            let mid: usize = low + (high - low) / 2;
            let here = self.entries[mid].0.as_str();
            assert(here@ == s[mid as int].0);
            if text_less(here, key) {
                proof {
                    assert forall|j: int| 0 <= j < mid + 1 implies lex_less(
                        #[trigger] s[j].0,
                        key@,
                    ) by {
                        if j < mid {
                            assert(lex_less(s[j].0, s[mid as int].0));
                            lex_less_transitive(s[j].0, s[mid as int].0, key@);
                        }
                    }
                }
                low = mid + 1;
            } else if text_less(key, here) {
                proof {
                    assert forall|j: int| mid <= j < s.len() implies lex_less(
                        key@,
                        #[trigger] s[j].0,
                    ) by {
                        if mid < j {
                            assert(lex_less(s[mid as int].0, s[j].0));
                            lex_less_transitive(key@, s[mid as int].0, s[j].0);
                        }
                    }
                }
                high = mid;
            } else {
                proof {
                    lex_less_total(here@, key@);
                    assert forall|j: int| 0 <= j < mid implies lex_less(
                        #[trigger] s[j].0,
                        key@,
                    ) by {
                        assert(lex_less(s[j].0, s[mid as int].0));
                    }
                }
                return (true, mid);
            }
        }
        proof {
            if has_key(s, key@) {
                let p = key_position(s, key@);
                lex_less_irreflexive(key@);
                assert(s[p].0 == key@);
            }
        }
        (false, low)
    }

    /// The value stored under `key`.
    pub fn get(&self, key: &str) -> (r: Option<&T>)
        ensures
            r is Some <==> self@.dom().contains(key@),
            r is Some ==> *r->0 == self@[key@],
            r is None ==> lookup(self.pairs(), key@) is None,
            r is Some ==> lookup(self.pairs(), key@) == Some(*r->0),
    {
        let (found, at) = self.search(key);
        if found {
            proof {
                use_type_invariant(self);
                sorted_position(self.pairs(), at as int);
            }
            Some(&self.entries[at].1)
        } else {
            None
        }
    }

    /// Whether `key` has a value.
    pub fn contains_key(&self, key: &str) -> (r: bool)
        ensures
            r == self@.dom().contains(key@),
            r == has_key(self.pairs(), key@),
    {
        let (found, _at) = self.search(key);
        found
    }

    /// Stores `value` under `key` and returns what stood there before.
    pub fn insert(&mut self, key: String, value: T) -> (r: Option<T>)
        ensures
            final(self)@ == old(self)@.insert(key@, value),
            r == lookup(old(self).pairs(), key@),
            sorted_pairs(final(self).pairs()),
            forall|k: Seq<char>| #[trigger]
                lookup(final(self).pairs(), k) == if k == key@ {
                    Some(value)
                } else {
                    lookup(old(self).pairs(), k)
                },
    {
        let (found, at) = self.search(key.as_str());
        proof {
            use_type_invariant(&*self);
        }
        let ghost before = self.pairs();
        let mut entries: Vec<(String, T)> = Vec::new();
        std::mem::swap(&mut entries, &mut self.entries);
        let ghost middle = entries@;
        if found {
            proof {
                sorted_position(before, at as int);
            }
            let taken = entries.remove(at);
            entries.insert(at, (key, value));
            let ghost after = Seq::new(entries@.len(), |i: int| (entries@[i].0@, entries@[i].1));
            proof {
                assert(after =~= before.update(at as int, (key@, value)));
                lemma_replace(before, at as int, value);
            }
            self.entries = entries;
            assert(self.pairs() =~= after);
            Some(taken.1)
        } else {
            entries.insert(at, (key, value));
            let ghost after = Seq::new(entries@.len(), |i: int| (entries@[i].0@, entries@[i].1));
            proof {
                assert(after =~= before.insert(at as int, (key@, value)));
                lemma_insert(before, at as int, key@, value);
            }
            self.entries = entries;
            assert(self.pairs() =~= after);
            None
        }
    }

    /// Removes the entry under `key` and returns its value.
    pub fn remove(&mut self, key: &str) -> (r: Option<T>)
        ensures
            final(self)@ == old(self)@.remove(key@),
            r == lookup(old(self).pairs(), key@),
            forall|k: Seq<char>| #[trigger]
                lookup(final(self).pairs(), k) == if k == key@ {
                    None
                } else {
                    lookup(old(self).pairs(), k)
                },
    {
        let (found, at) = self.search(key);
        proof {
            use_type_invariant(&*self);
        }
        let ghost before = self.pairs();
        if !found {
            assert(self@ =~= self@.remove(key@));
            return None;
        }
        let mut entries: Vec<(String, T)> = Vec::new();
        std::mem::swap(&mut entries, &mut self.entries);
        proof {
            sorted_position(before, at as int);
        }
        let taken = entries.remove(at);
        let ghost after = Seq::new(entries@.len(), |i: int| (entries@[i].0@, entries@[i].1));
        proof {
            assert(after =~= before.remove(at as int));
            lemma_remove(before, at as int);
        }
        self.entries = entries;
        assert(self.pairs() =~= after);
        Some(taken.1)
    }

    /// Appends an entry whose key comes after all others.
    pub fn push(&mut self, key: String, value: T)
        requires
            forall|i: int|
                0 <= i < old(self).pairs().len() ==> lex_less(
                    #[trigger] old(self).pairs()[i].0,
                    key@,
                ),
        ensures
            final(self).pairs() == old(self).pairs().push((key@, value)),
    {
        proof {
            use_type_invariant(&*self);
        }
        let ghost before = self.pairs();
        let mut entries: Vec<(String, T)> = Vec::new();
        std::mem::swap(&mut entries, &mut self.entries);
        entries.push((key, value));
        let ghost after = Seq::new(entries@.len(), |i: int| (entries@[i].0@, entries@[i].1));
        proof {
            assert(after =~= before.push((key@, value)));
        }
        self.entries = entries;
        assert(self.pairs() =~= after);
    }
}

/// The entries of a map are smaller than the map.
pub broadcast proof fn pairs_decrease<T>(m: StrMap<T>, i: int)
    requires
        0 <= i < m.pairs().len(),
    ensures
        #[trigger] (decreases_to!(m => m.pairs()[i].1)),
{
    assert(decreases_to!(m => m.entries));
    assert(decreases_to!(m.entries => m.entries[i]));
    assert(decreases_to!(m.entries[i] => m.entries[i].1));
}

proof fn lemma_replace<T>(s: Seq<(Seq<char>, T)>, at: int, value: T)
    requires
        sorted_pairs(s),
        0 <= at < s.len(),
    ensures
        sorted_pairs(s.update(at, (s[at].0, value))),
        map_of(s.update(at, (s[at].0, value))) == map_of(s).insert(s[at].0, value),
        forall|k: Seq<char>| #[trigger]
            lookup(s.update(at, (s[at].0, value)), k) == if k == s[at].0 {
                Some(value)
            } else {
                lookup(s, k)
            },
{
    let key = s[at].0;
    let t = s.update(at, (key, value));
    assert(sorted_pairs(t)) by {
        assert forall|i: int, j: int| 0 <= i < j < t.len() implies lex_less(
            (#[trigger] t[i]).0,
            (#[trigger] t[j]).0,
        ) by {
            assert(t[i].0 == s[i].0 && t[j].0 == s[j].0);
        }
    }
    assert forall|k: Seq<char>| #[trigger] lookup(t, k) == if k == key {
        Some(value)
    } else {
        lookup(s, k)
    } by {
        sorted_position(t, at);
        if has_key(s, k) {
            let p = key_position(s, k);
            assert(t[p].0 == k);
            sorted_position(t, p);
            sorted_position(s, p);
        } else if has_key(t, k) {
            let p = key_position(t, k);
            assert(s[p].0 == k);
        }
    }
    lemma_map_from_lookup(t, map_of(s).insert(key, value));
}

/// A sequence stands for the map that its lookups give.
proof fn lemma_map_from_lookup<T>(t: Seq<(Seq<char>, T)>, m: Map<Seq<char>, T>)
    requires
        forall|k: Seq<char>| #[trigger]
            lookup(t, k) == if m.dom().contains(k) {
                Some(m[k])
            } else {
                None
            },
    ensures
        map_of(t) == m,
{
    assert forall|k: Seq<char>| #[trigger] map_of(t).dom().contains(k) <==> m.dom().contains(k) by {
        assert(lookup(t, k) is Some <==> m.dom().contains(k));
    }
    assert forall|k: Seq<char>| m.dom().contains(k) implies #[trigger] map_of(t)[k] == m[k] by {
        assert(lookup(t, k) == Some(m[k]));
    }
    assert(map_of(t) =~= m);
}

proof fn lemma_insert<T>(s: Seq<(Seq<char>, T)>, at: int, key: Seq<char>, value: T)
    requires
        sorted_pairs(s),
        0 <= at <= s.len(),
        forall|j: int| 0 <= j < at ==> lex_less(#[trigger] s[j].0, key),
        forall|j: int| at <= j < s.len() ==> lex_less(key, #[trigger] s[j].0),
    ensures
        sorted_pairs(s.insert(at, (key, value))),
        map_of(s.insert(at, (key, value))) == map_of(s).insert(key, value),
        forall|k: Seq<char>| #[trigger]
            lookup(s.insert(at, (key, value)), k) == if k == key {
                Some(value)
            } else {
                lookup(s, k)
            },
{
    let t = s.insert(at, (key, value));
    assert(sorted_pairs(t)) by {
        assert forall|i: int, j: int| 0 <= i < j < t.len() implies lex_less(
            (#[trigger] t[i]).0,
            (#[trigger] t[j]).0,
        ) by {
            let oi = if i < at { i } else { i - 1 };
            let oj = if j < at { j } else { j - 1 };
            if i != at {
                assert(t[i] == s[oi]);
            }
            if j != at {
                assert(t[j] == s[oj]);
            }
            if i != at && j != at {
                assert(oi < oj);
                assert(lex_less(s[oi].0, s[oj].0));
            } else if i == at {
                assert(lex_less(key, s[oj].0));
            } else {
                assert(lex_less(s[oi].0, key));
            }
        }
    }
    assert forall|k: Seq<char>| #[trigger] lookup(t, k) == if k == key {
        Some(value)
    } else {
        lookup(s, k)
    } by {
        assert(t[at] == (key, value));
        sorted_position(t, at);
        if has_key(s, k) {
            let p = key_position(s, k);
            let q = if p < at { p } else { p + 1 };
            assert(t[q] == s[p]);
            sorted_position(t, q);
            sorted_position(s, p);
            lex_less_irreflexive(key);
            assert(s[p].0 == k);
        } else if has_key(t, k) {
            let q = key_position(t, k);
            assert(t[q].0 == k);
            if q != at {
                let p = if q < at { q } else { q - 1 };
                assert(t[q] == s[p]);
                assert(s[p].0 == k);
            }
        }
    }
    lemma_map_from_lookup(t, map_of(s).insert(key, value));
}

proof fn lemma_remove<T>(s: Seq<(Seq<char>, T)>, at: int)
    requires
        sorted_pairs(s),
        0 <= at < s.len(),
    ensures
        sorted_pairs(s.remove(at)),
        map_of(s.remove(at)) == map_of(s).remove(s[at].0),
        forall|k: Seq<char>| #[trigger]
            lookup(s.remove(at), k) == if k == s[at].0 {
                None
            } else {
                lookup(s, k)
            },
{
    let key = s[at].0;
    let t = s.remove(at);
    assert(sorted_pairs(t)) by {
        assert forall|i: int, j: int| 0 <= i < j < t.len() implies lex_less(
            (#[trigger] t[i]).0,
            (#[trigger] t[j]).0,
        ) by {
            let oi = if i < at { i } else { i + 1 };
            let oj = if j < at { j } else { j + 1 };
            assert(t[i] == s[oi] && t[j] == s[oj]);
            assert(lex_less(s[oi].0, s[oj].0));
        }
    }
    assert forall|k: Seq<char>| #[trigger] lookup(t, k) == if k == key {
        None
    } else {
        lookup(s, k)
    } by {
        sorted_position(s, at);
        if has_key(t, k) {
            let q = key_position(t, k);
            let p = if q < at { q } else { q + 1 };
            assert(t[q] == s[p]);
            sorted_position(s, p);
        } else if has_key(s, k) {
            let p = key_position(s, k);
            if p != at {
                let q = if p < at { p } else { p - 1 };
                assert(t[q] == s[p]);
                assert(t[q].0 == k);
            }
        }
    }
    lemma_map_from_lookup(t, map_of(s).remove(key));
}

// ---------------------------------------------------------------------------
// Set
// ---------------------------------------------------------------------------

/// A set of texts, kept in order.
#[derive(Debug, PartialEq, Eq)]
pub struct StrSet {
    map: StrMap<()>,
}

impl View for StrSet {
    type V = Set<Seq<char>>;

    open spec fn view(&self) -> Set<Seq<char>> {
        self.items().to_set()
    }
}

impl StrSet {
    /// The elements in order.
    pub closed spec fn items(&self) -> Seq<Seq<char>> {
        Seq::new(self.map.pairs().len(), |i: int| self.map.pairs()[i].0)
    }

    proof fn lemma_keys(&self)
        ensures
            forall|k: Seq<char>| #[trigger]
                self.items().contains(k) <==> has_key(self.map.pairs(), k),
            self@ == self.map@.dom(),
    {
        assert forall|k: Seq<char>| #[trigger] self.items().contains(k) <==> has_key(
            self.map.pairs(),
            k,
        ) by {
            if has_key(self.map.pairs(), k) {
                let p = key_position(self.map.pairs(), k);
                assert(self.items()[p] == k);
            }
            if self.items().contains(k) {
                let p = choose|p: int| 0 <= p < self.items().len() && self.items()[p] == k;
                assert(self.map.pairs()[p].0 == k);
            }
        }
        assert(self@ =~= self.map@.dom());
    }

    /// Every set is sorted.
    pub fn prove_sorted(&self)
        ensures
            sorted_texts(self.items()),
            self.items().no_duplicates(),
    {
        self.map.prove_sorted();
        proof {
            let s = self.items();
            assert forall|i: int, j: int| 0 <= i < j < s.len() implies lex_less(
                #[trigger] s[i],
                #[trigger] s[j],
            ) by {
                assert(self.map.pairs()[i].0 == s[i] && self.map.pairs()[j].0 == s[j]);
            }
            sorted_texts_distinct(s);
        }
    }

    /// The empty set.
    pub fn new() -> (r: Self)
        ensures
            r@ == Set::<Seq<char>>::empty(),
            r.items() == Seq::<Seq<char>>::empty(),
    {
        let r = StrSet { map: StrMap::new() };
        assert(r.items() =~= Seq::empty());
        assert(r@ =~= Set::empty());
        r
    }

    /// The number of elements.
    pub fn len(&self) -> (r: usize)
        ensures
            r == self.items().len(),
    {
        self.map.len()
    }

    /// Whether the set is empty.
    pub fn is_empty(&self) -> (r: bool)
        ensures
            r == (self.items().len() == 0),
            r == (self@ == Set::<Seq<char>>::empty()),
    {
        let r = self.map.len() == 0;
        proof {
            if self.items().len() > 0 {
                assert(self@.contains(self.items()[0]));
            } else {
                assert(self@ =~= Set::empty());
            }
        }
        r
    }

    /// The element at position `i`.
    pub fn item_at(&self, i: usize) -> (r: &str)
        requires
            i < self.items().len(),
        ensures
            r@ == self.items()[i as int],
            self@.contains(r@),
    {
        assert(self.items().contains(self.items()[i as int]));
        self.map.key_at(i)
    }

    /// Whether `item` belongs to the set.
    pub fn contains(&self, item: &str) -> (r: bool)
        ensures
            r == self@.contains(item@),
            r == self.items().contains(item@),
    {
        proof {
            self.lemma_keys();
        }
        self.map.contains_key(item)
    }

    /// Adds `item`; `true` when it was not there before.
    pub fn insert(&mut self, item: String) -> (r: bool)
        ensures
            final(self)@ == old(self)@.insert(item@),
            r == !old(self)@.contains(item@),
            sorted_texts(final(self).items()),
    {
        proof {
            self.lemma_keys();
        }
        let ghost before = self@;
        let ghost key = item@;
        let old_value = self.map.insert(item, ());
        proof {
            self.lemma_keys();
            assert(self@ =~= before.insert(key));
            let s = self.items();
            assert forall|i: int, j: int| 0 <= i < j < s.len() implies lex_less(
                #[trigger] s[i],
                #[trigger] s[j],
            ) by {
                assert(self.map.pairs()[i].0 == s[i] && self.map.pairs()[j].0 == s[j]);
            }
        }
        old_value.is_none()
    }

    /// Removes `item`; `true` when it was there.
    pub fn remove(&mut self, item: &str) -> (r: bool)
        ensures
            final(self)@ == old(self)@.remove(item@),
            r == old(self)@.contains(item@),
    {
        proof {
            self.lemma_keys();
        }
        let ghost before = self@;
        let old_value = self.map.remove(item);
        proof {
            self.lemma_keys();
            assert(self@ =~= before.remove(item@));
        }
        old_value.is_some()
    }

    /// Whether the two sets have no element in common.
    pub fn is_disjoint(&self, other: &StrSet) -> (r: bool)
        ensures
            r == self@.disjoint(other@),
    {
        let mut i: usize = 0;
        while i < self.len()
            invariant
                i <= self.items().len(),
                forall|j: int| 0 <= j < i ==> !other@.contains(#[trigger] self.items()[j]),
            decreases self.items().len() - i,
        {
            if other.contains(self.item_at(i)) {
                assert(self@.contains(self.items()[i as int]));
                return false;
            }
            i = i + 1;
        }
        true
    }

    /// Adds every element of `other`.
    pub fn extend(&mut self, other: &StrSet)
        ensures
            final(self)@ == old(self)@.union(other@),
    {
        let ghost before = self@;
        let mut i: usize = 0;
        while i < other.len()
            invariant
                i <= other.items().len(),
                self@ == before.union(other.items().take(i as int).to_set()),
            decreases other.items().len() - i,
        {
            self.insert(other.item_at(i).to_owned());
            proof {
                let taken = other.items().take(i as int);
                let next = other.items().take(i + 1);
                assert(next =~= taken.push(other.items()[i as int]));
                assert forall|k: Seq<char>| #[trigger] next.contains(k) <==> taken.contains(k) || k
                    == other.items()[i as int] by {
                    if taken.contains(k) {
                        let p = choose|p: int| 0 <= p < taken.len() && taken[p] == k;
                        assert(next[p] == k);
                    }
                    assert(next[i as int] == other.items()[i as int]);
                }
                assert(self@ =~= before.union(next.to_set()));
            }
            i = i + 1;
        }
        proof {
            assert(other.items().take(i as int) =~= other.items());
        }
    }
}

impl Clone for StrSet {
    fn clone(&self) -> (r: Self)
        ensures
            r@ == self@,
            r.items() == self.items(),
    {
        let mut out: StrMap<()> = StrMap::new();
        let mut i: usize = 0;
        self.map.prove_sorted();
        while i < self.map.len()
            invariant
                i <= self.map.pairs().len(),
                sorted_pairs(self.map.pairs()),
                out.pairs() == self.map.pairs().take(i as int),
            decreases self.map.pairs().len() - i,
        {
            let key = self.map.key_at(i).to_owned();
            assert forall|j: int| 0 <= j < out.pairs().len() implies lex_less(
                #[trigger] out.pairs()[j].0,
                key@,
            ) by {
                assert(out.pairs()[j] == self.map.pairs()[j]);
                assert(lex_less(self.map.pairs()[j].0, self.map.pairs()[i as int].0));
            }
            out.push(key, ());
            i = i + 1;
            assert(self.map.pairs().take(i as int) =~= self.map.pairs().take(i - 1).push(
                self.map.pairs()[i - 1],
            ));
        }
        assert(self.map.pairs().take(i as int) =~= self.map.pairs());
        let r = StrSet { map: out };
        assert(r.items() =~= self.items());
        r
    }
}

/// Strictly increasing texts are distinct.
pub proof fn sorted_texts_distinct(s: Seq<Seq<char>>)
    requires
        sorted_texts(s),
    ensures
        s.no_duplicates(),
{
    assert forall|i: int, j: int| 0 <= i < s.len() && 0 <= j < s.len() && i != j implies s[i]
        != s[j] by {
        if i < j {
            lex_less_asymmetric(s[i], s[j]);
        } else {
            lex_less_asymmetric(s[j], s[i]);
        }
    }
}

/// Two strictly increasing sequences of the same texts are the same.
pub proof fn sorted_texts_unique(a: Seq<Seq<char>>, b: Seq<Seq<char>>)
    requires
        sorted_texts(a),
        sorted_texts(b),
        a.to_set() == b.to_set(),
    ensures
        a == b,
{
    let pa = Seq::new(a.len(), |i: int| (a[i], ()));
    let pb = Seq::new(b.len(), |i: int| (b[i], ()));
    assert(sorted_pairs(pa));
    assert(sorted_pairs(pb));
    assert forall|k: Seq<char>| #[trigger] lookup(pa, k) == lookup(pb, k) by {
        assert(a.to_set().contains(k) == a.contains(k));
        assert(b.to_set().contains(k) == b.contains(k));
        if has_key(pa, k) {
            let p = key_position(pa, k);
            assert(a[p] == k);
            assert(a.contains(k));
            let q = choose|q: int| 0 <= q < b.len() && b[q] == k;
            assert(pb[q].0 == k);
        }
        if has_key(pb, k) {
            let p = key_position(pb, k);
            assert(b[p] == k);
            assert(b.contains(k));
            let q = choose|q: int| 0 <= q < a.len() && a[q] == k;
            assert(pa[q].0 == k);
        }
    }
    sorted_pairs_unique(pa, pb);
    assert(a =~= b) by {
        assert forall|i: int| 0 <= i < a.len() implies a[i] == b[i] by {
            assert(pa[i] == pb[i]);
        }
    }
}
/// The elements of a finite set of texts in order.
pub open spec fn in_order(s: Set<Seq<char>>) -> Seq<Seq<char>> {
    choose|q: Seq<Seq<char>>| sorted_texts(q) && q.to_set() == s
}

/// There is one way to put the elements of a set in order.
pub proof fn in_order_unique(q: Seq<Seq<char>>)
    requires
        sorted_texts(q),
    ensures
        in_order(q.to_set()) == q,
{
    let p = in_order(q.to_set());
    assert(sorted_texts(p) && p.to_set() == q.to_set());
    sorted_texts_unique(p, q);
}

/// What was already produced, followed by what the rest gives.
pub open spec fn prepend<T, E>(done: Seq<T>, rest: Result<Seq<T>, E>) -> Result<Seq<T>, E> {
    match rest {
        Ok(more) => Ok(done + more),
        Err(e) => Err(e),
    }
}

/// A result agrees with what the model gives.
pub open spec fn gives<T: View, E: View>(r: Result<T, E>, m: Result<T::V, E::V>) -> bool {
    match (r, m) {
        (Ok(v), Ok(w)) => v@ == w,
        (Err(e), Err(f)) => e@ == f,
        _ => false,
    }
}

/// A map with the views of its values.
pub open spec fn map_view<T: View>(m: StrMap<T>) -> Map<Seq<char>, T::V> {
    Map::new(|k: Seq<char>| m@.dom().contains(k), |k: Seq<char>| m@[k]@)
}

/// Storing a value stores its view.
pub proof fn map_view_insert<T: View>(before: StrMap<T>, after: StrMap<T>, key: Seq<char>, value: T)
    requires
        after@ == before@.insert(key, value),
    ensures
        map_view(after) == map_view(before).insert(key, value@),
{
    assert(map_view(after) =~= map_view(before).insert(key, value@));
}

} // verus!
