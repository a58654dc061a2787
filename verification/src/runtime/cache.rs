//! Tool output caching.

use vstd::prelude::*;

use crate::json::{Json, Value};
use crate::ordered::StrSet;
use crate::text::{same_opt_text, same_text};

verus! {

use crate::ordered::opt_view;

/// Cache key for one tool call: adapter, tool, optional tool version, and
/// the canonical JSON of the resolved input.
///
/// Bumping the version invalidates previously cached outputs of the tool
/// without touching other entries.
#[derive(Debug, PartialEq, Eq)]
pub struct CacheKey {
    /// Adapter executing the call.
    pub adapter: String,
    /// Tool name.
    pub tool: String,
    /// Tool behavior version, when declared.
    pub version: Option<String>,
    /// Canonical JSON of the resolved input.
    pub input: String,
}

/// A cache key as a mathematical value.
#[verifier::ext_equal]
pub struct CacheKeyV {
    pub adapter: Seq<char>,
    pub tool: Seq<char>,
    pub version: Option<Seq<char>>,
    pub input: Seq<char>,
}

impl View for CacheKey {
    type V = CacheKeyV;

    open spec fn view(&self) -> CacheKeyV {
        CacheKeyV {
            adapter: self.adapter@,
            tool: self.tool@,
            version: opt_view(self.version),
            input: self.input@,
        }
    }
}

impl CacheKey {
    /// Whether two keys are the same.
    pub fn same(&self, other: &CacheKey) -> (r: bool)
        ensures
            r == (self@ == other@),
    {
        same_text(self.adapter.as_str(), other.adapter.as_str()) && same_text(
            self.tool.as_str(),
            other.tool.as_str(),
        ) && same_opt_text(&self.version, &other.version) && same_text(
            self.input.as_str(),
            other.input.as_str(),
        )
    }
}

impl Clone for CacheKey {
    fn clone(&self) -> (r: Self)
        ensures
            r@ == self@,
    {
        CacheKey {
            adapter: self.adapter.clone(),
            tool: self.tool.clone(),
            version: match &self.version {
                Some(v) => Some(v.clone()),
                None => None,
            },
            input: self.input.clone(),
        }
    }
}

/// One stored output.
#[derive(Debug)]
struct Entry {
    key: CacheKey,
    output: Value,
    reads: StrSet,
    inserted: u64,
    last_used: u64,
}

/// A stored output as a mathematical value: what it is, which resources the
/// call read, when it was stored, and the clock of its last use.
#[verifier::ext_equal]
pub struct EntryV {
    pub output: Json,
    pub reads: Set<Seq<char>>,
    pub inserted: u64,
    pub last_used: u64,
}

impl Entry {
    spec fn model(self) -> EntryV {
        EntryV {
            output: self.output@,
            reads: self.reads@,
            inserted: self.inserted,
            last_used: self.last_used,
        }
    }
}

/// The contents of a cache as a mathematical value. The clock counts the
/// operations that touch recency.
#[verifier::ext_equal]
pub struct CacheV {
    pub entries: Map<CacheKeyV, EntryV>,
    pub clock: u64,
    pub max_entries: nat,
    pub ttl: Option<u64>,
}

/// The entry is older than the time-to-live at the time `now`.
pub open spec fn expired(e: EntryV, ttl: Option<u64>, now: u64) -> bool {
    match ttl {
        Some(t) => now - e.inserted > t,
        None => false,
    }
}

/// What a lookup finds.
pub open spec fn found(c: CacheV, k: CacheKeyV, now: u64) -> Option<Json> {
    if c.entries.dom().contains(k) && !expired(c.entries[k], c.ttl, now) {
        Some(c.entries[k].output)
    } else {
        None
    }
}

/// The cache after a lookup: a hit is the most recently used entry, and an
/// expired entry is gone.
pub open spec fn after_get(c: CacheV, k: CacheKeyV, now: u64) -> CacheV {
    let clock = (c.clock + 1) as u64;
    CacheV {
        entries: if !c.entries.dom().contains(k) {
            c.entries
        } else if expired(c.entries[k], c.ttl, now) {
            c.entries.remove(k)
        } else {
            c.entries.insert(k, EntryV { last_used: clock, ..c.entries[k] })
        },
        clock,
        ..c
    }
}

/// The entry that was used least recently.
pub open spec fn is_oldest(entries: Map<CacheKeyV, EntryV>, k: CacheKeyV) -> bool {
    &&& entries.dom().contains(k)
    &&& forall|o: CacheKeyV| #[trigger]
        entries.dom().contains(o) ==> entries[k].last_used <= entries[o].last_used
}

/// The entry that makes room for another.
pub open spec fn oldest(entries: Map<CacheKeyV, EntryV>) -> CacheKeyV {
    choose|k: CacheKeyV| is_oldest(entries, k)
}

/// The entries that stay when `k` is stored: all others, without the one used
/// least recently when the cache is full.
pub open spec fn room_for(c: CacheV, k: CacheKeyV) -> Map<CacheKeyV, EntryV> {
    let rest = c.entries.remove(k);
    if rest.dom().len() >= c.max_entries {
        rest.remove(oldest(rest))
    } else {
        rest
    }
}

/// The cache after an output was stored at the time `now`.
pub open spec fn after_insert(
    c: CacheV,
    k: CacheKeyV,
    output: Json,
    reads: Set<Seq<char>>,
    now: u64,
) -> CacheV {
    let clock = (c.clock + 1) as u64;
    CacheV {
        entries: room_for(c, k).insert(
            k,
            EntryV { output, reads, inserted: now, last_used: clock },
        ),
        clock,
        ..c
    }
}

/// The cache after the resources were written: entries that read any of them
/// are gone.
pub open spec fn after_write(c: CacheV, resources: Set<Seq<char>>) -> CacheV {
    CacheV {
        entries: Map::new(
            |k: CacheKeyV| c.entries.dom().contains(k) && c.entries[k].reads.disjoint(resources),
            |k: CacheKeyV| c.entries[k],
        ),
        ..c
    }
}

/// The cache holds at most what it may, and no two entries were used last at
/// the same time.
pub open spec fn cache_wf(c: CacheV) -> bool {
    &&& c.max_entries >= 1
    &&& c.entries.dom().finite()
    &&& c.entries.dom().len() <= c.max_entries
    &&& forall|k: CacheKeyV| #[trigger]
        c.entries.dom().contains(k) ==> c.entries[k].last_used <= c.clock
    &&& forall|a: CacheKeyV, b: CacheKeyV|
        #![trigger c.entries[a], c.entries[b]]
        c.entries.dom().contains(a) && c.entries.dom().contains(b) && c.entries[a].last_used
            == c.entries[b].last_used ==> a == b
}

/// The map that a list of entries with distinct keys stands for.
spec fn index_of(s: Seq<Entry>, k: CacheKeyV) -> int {
    choose|i: int| 0 <= i < s.len() && (#[trigger] s[i]).key@ == k
}

spec fn has_entry(s: Seq<Entry>, k: CacheKeyV) -> bool {
    exists|i: int| 0 <= i < s.len() && (#[trigger] s[i]).key@ == k
}

spec fn entries_map(s: Seq<Entry>) -> Map<CacheKeyV, EntryV> {
    Map::new(|k: CacheKeyV| has_entry(s, k), |k: CacheKeyV| s[index_of(s, k)].model())
}

spec fn distinct_keys(s: Seq<Entry>) -> bool {
    forall|i: int, j: int|
        0 <= i < s.len() && 0 <= j < s.len() && (#[trigger] s[i]).key@ == (#[trigger] s[j]).key@ ==> i
            == j
}

proof fn lemma_entry(s: Seq<Entry>, i: int)
    requires
        distinct_keys(s),
        0 <= i < s.len(),
    ensures
        has_entry(s, s[i].key@),
        index_of(s, s[i].key@) == i,
        entries_map(s).dom().contains(s[i].key@),
        entries_map(s)[s[i].key@] == s[i].model(),
{
    assert(has_entry(s, s[i].key@));
}

proof fn lemma_push(s: Seq<Entry>, e: Entry)
    requires
        distinct_keys(s),
        !has_entry(s, e.key@),
    ensures
        distinct_keys(s.push(e)),
        entries_map(s.push(e)) == entries_map(s).insert(e.key@, e.model()),
{
    let t = s.push(e);
    assert(t[s.len() as int] == e);
    assert forall|i: int, j: int|
        0 <= i < t.len() && 0 <= j < t.len() && (#[trigger] t[i]).key@ == (
        #[trigger] t[j]).key@ implies i == j by {
        if i < s.len() && j < s.len() {
            assert(s[i].key@ == s[j].key@);
        } else if i < s.len() {
            assert(s[i].key@ == e.key@);
        } else if j < s.len() {
            assert(s[j].key@ == e.key@);
        }
    }
    assert forall|k: CacheKeyV| #[trigger] has_entry(t, k) <==> has_entry(s, k) || k == e.key@ by {
        if has_entry(s, k) {
            assert(t[index_of(s, k)] == s[index_of(s, k)]);
        }
        if has_entry(t, k) {
            let i = index_of(t, k);
            if i < s.len() {
                assert(s[i].key@ == k);
            }
        }
        assert(t[s.len() as int].key@ == e.key@);
    }
    assert forall|k: CacheKeyV| has_entry(t, k) implies #[trigger] entries_map(t)[k] == entries_map(
        s,
    ).insert(e.key@, e.model())[k] by {
        if k == e.key@ {
            lemma_entry(t, s.len() as int);
        } else {
            let i = index_of(s, k);
            assert(has_entry(s, k));
            assert(t[i] == s[i]);
            lemma_entry(t, i);
            lemma_entry(s, i);
        }
    }
    assert(entries_map(t) =~= entries_map(s).insert(e.key@, e.model()));
}

proof fn lemma_remove(s: Seq<Entry>, at: int)
    requires
        distinct_keys(s),
        0 <= at < s.len(),
    ensures
        distinct_keys(s.remove(at)),
        !has_entry(s.remove(at), s[at].key@),
        entries_map(s.remove(at)) == entries_map(s).remove(s[at].key@),
{
    let t = s.remove(at);
    assert forall|i: int| 0 <= i < t.len() implies #[trigger] t[i] == s[if i < at {
        i
    } else {
        i + 1
    }] by {}
    assert forall|i: int, j: int|
        0 <= i < t.len() && 0 <= j < t.len() && (#[trigger] t[i]).key@ == (
        #[trigger] t[j]).key@ implies i == j by {
        let a = if i < at { i } else { i + 1 };
        let b = if j < at { j } else { j + 1 };
        assert(s[a].key@ == s[b].key@);
    }
    assert forall|k: CacheKeyV| #[trigger] has_entry(t, k) <==> has_entry(s, k) && k != s[at].key@ by {
        if has_entry(t, k) {
            let i = index_of(t, k);
            let a = if i < at { i } else { i + 1 };
            assert(s[a].key@ == k);
        }
        if has_entry(s, k) && k != s[at].key@ {
            let a = index_of(s, k);
            let i = if a < at { a } else { a - 1 };
            assert(t[i] == s[a]);
        }
    }
    assert forall|k: CacheKeyV| has_entry(t, k) implies #[trigger] entries_map(t)[k] == entries_map(
        s,
    )[k] by {
        let i = index_of(t, k);
        let a = if i < at { i } else { i + 1 };
        lemma_entry(t, i);
        lemma_entry(s, a);
    }
    assert(entries_map(t) =~= entries_map(s).remove(s[at].key@));
}

proof fn lemma_size(s: Seq<Entry>)
    requires
        distinct_keys(s),
    ensures
        entries_map(s).dom().finite(),
        entries_map(s).dom().len() == s.len(),
    decreases s.len(),
{
    if s.len() == 0 {
        assert(entries_map(s).dom() =~= Set::empty());
    } else {
        let rest = s.drop_last();
        assert(distinct_keys(rest)) by {
            assert forall|i: int, j: int|
                0 <= i < rest.len() && 0 <= j < rest.len() && (#[trigger] rest[i]).key@ == (
                #[trigger] rest[j]).key@ implies i == j by {
                assert(s[i].key@ == s[j].key@);
            }
        }
        assert(!has_entry(rest, s.last().key@)) by {
            if has_entry(rest, s.last().key@) {
                let i = index_of(rest, s.last().key@);
                assert(s[i].key@ == s[s.len() - 1].key@);
            }
        }
        lemma_size(rest);
        lemma_push(rest, s.last());
        assert(rest.push(s.last()) =~= s);
        assert(entries_map(s).dom() =~= entries_map(rest).dom().insert(s.last().key@));
    }
}

/// In-memory cache with eviction of the least recently used entry and an
/// optional time-to-live. Times are counted in any one unit.
pub struct MemoryCache {
    entries: Vec<Entry>,
    clock: u64,
    max_entries: usize,
    ttl: Option<u64>,
}

impl View for MemoryCache {
    type V = CacheV;

    closed spec fn view(&self) -> CacheV {
        CacheV {
            entries: entries_map(self.entries@),
            clock: self.clock,
            max_entries: self.max_entries as nat,
            ttl: self.ttl,
        }
    }
}

/// Default maximum number of entries.
pub const DEFAULT_MAX_ENTRIES: usize = 1024;

/// An empty cache with the limits.
pub open spec fn empty_cache(max_entries: nat, ttl: Option<u64>) -> CacheV {
    CacheV {
        entries: Map::empty(),
        clock: 0,
        max_entries: if max_entries < 1 {
            1
        } else {
            max_entries
        },
        ttl,
    }
}

impl MemoryCache {
    #[verifier::type_invariant]
    spec fn wf(&self) -> bool {
        &&& self.max_entries >= 1
        &&& self.entries@.len() <= self.max_entries
        &&& distinct_keys(self.entries@)
        &&& forall|i: int|
            0 <= i < self.entries@.len() ==> (#[trigger] self.entries@[i]).last_used <= self.clock
        &&& forall|i: int, j: int|
            0 <= i < self.entries@.len() && 0 <= j < self.entries@.len() && (
            #[trigger] self.entries@[i]).last_used == (#[trigger] self.entries@[j]).last_used ==> i
                == j
    }

    /// Every cache is within its limits.
    pub fn prove_wf(&self)
        ensures
            cache_wf(self@),
    {
        proof {
            use_type_invariant(self);
            let s = self.entries@;
            lemma_size(s);
            assert forall|k: CacheKeyV| #[trigger] self@.entries.dom().contains(k) implies self@.entries[k].last_used
                <= self@.clock by {
                lemma_entry(s, index_of(s, k));
            }
            assert forall|a: CacheKeyV, b: CacheKeyV|
                #![trigger self@.entries[a], self@.entries[b]]
                self@.entries.dom().contains(a) && self@.entries.dom().contains(b)
                    && self@.entries[a].last_used == self@.entries[b].last_used implies a == b by {
                lemma_entry(s, index_of(s, a));
                lemma_entry(s, index_of(s, b));
                assert(s[index_of(s, a)].last_used == s[index_of(s, b)].last_used);
            }
        }
    }

    /// Creates a cache with [`DEFAULT_MAX_ENTRIES`] and no TTL.
    pub fn new() -> (r: Self)
        ensures
            r@ == empty_cache(DEFAULT_MAX_ENTRIES as nat, None),
    {
        MemoryCache::with_limits(DEFAULT_MAX_ENTRIES, None)
    }

    /// Creates a cache with an entry cap and an optional time-to-live.
    pub fn with_limits(max_entries: usize, ttl: Option<u64>) -> (r: Self)
        ensures
            r@ == empty_cache(max_entries as nat, ttl),
    {
        let r = MemoryCache {
            entries: Vec::new(),
            clock: 0,
            max_entries: if max_entries < 1 {
                1
            } else {
                max_entries
            },
            ttl,
        };
        assert(r@.entries =~= Map::empty());
        r
    }

    /// How many outputs are stored.
    pub fn len(&self) -> (r: usize)
        ensures
            r == self@.entries.dom().len(),
    {
        proof {
            use_type_invariant(self);
            lemma_size(self.entries@);
        }
        self.entries.len()
    }

    fn position(&self, key: &CacheKey) -> (r: Option<usize>)
        ensures
            match r {
                Some(i) => i < self.entries@.len() && self.entries@[i as int].key@ == key@,
                None => !has_entry(self.entries@, key@),
            },
    {
        let mut i: usize = 0;
        while i < self.entries.len()
            invariant
                i <= self.entries@.len(),
                forall|j: int| 0 <= j < i ==> (#[trigger] self.entries@[j]).key@ != key@,
            decreases self.entries.len() - i,
        {
            if self.entries[i].key.same(key) {
                return Some(i);
            }
            i = i + 1;
        }
        None
    }

    /// Looks up a cached output at the time `now`.
    pub fn get(&mut self, key: &CacheKey, now: u64) -> (r: Option<Value>)
        requires
            old(self)@.clock < u64::MAX,
        ensures
            opt_view(r) == found(old(self)@, key@, now),
            final(self)@ == after_get(old(self)@, key@, now),
    {
        proof {
            use_type_invariant(&*self);
        }
        let ghost k = key@;
        let ghost before = self.entries@;
        let clock: u64 = self.clock + 1;
        let at = match self.position(key) {
            Some(at) => at,
            None => {
                self.clock = clock;
                assert(self@ =~= after_get(old(self)@, k, now));
                return None;
            },
        };
        proof {
            lemma_entry(before, at as int);
        }
        let stale = match self.ttl {
            Some(ttl) => {
                let inserted = self.entries[at].inserted;
                now > inserted && now - inserted > ttl
            },
            None => false,
        };
        let mut taken = MemoryCache::new();
        std::mem::swap(self, &mut taken);
        let MemoryCache { mut entries, clock: _, max_entries, ttl } = taken;
        let entry = entries.remove(at);
        let ghost rest = entries@;
        proof {
            lemma_remove(before, at as int);
            assert forall|i: int| 0 <= i < rest.len() implies #[trigger] rest[i] == before[if i < at {
                i
            } else {
                i + 1
            }] by {}
        }
        if stale {
            *self = MemoryCache { entries, clock, max_entries, ttl };
            assert(self@ =~= after_get(old(self)@, k, now));
            return None;
        }
        let output = entry.output.clone();
        let Entry { key: own, output: kept, reads, inserted, last_used: _ } = entry;
        let renewed = Entry { key: own, output: kept, reads, inserted, last_used: clock };
        proof {
            lemma_push(rest, renewed);
        }
        entries.push(renewed);
        *self = MemoryCache { entries, clock, max_entries, ttl };
        assert(self@ =~= after_get(old(self)@, k, now));
        Some(output)
    }

    /// Stores an output together with the resources the call read.
    pub fn insert(&mut self, key: CacheKey, output: Value, reads: StrSet, now: u64)
        requires
            old(self)@.clock < u64::MAX,
        ensures
            final(self)@ == after_insert(old(self)@, key@, output@, reads@, now),
    {
        proof {
            use_type_invariant(&*self);
        }
        let ghost k = key@;
        let ghost before = self.entries@;
        let clock: u64 = self.clock + 1;
        let at = self.position(&key);
        let mut taken = MemoryCache::new();
        std::mem::swap(self, &mut taken);
        let MemoryCache { mut entries, clock: _, max_entries, ttl } = taken;
        if let Some(at) = at {
            entries.remove(at);
            proof {
                lemma_remove(before, at as int);
                assert forall|i: int| 0 <= i < entries@.len() implies #[trigger] entries@[i]
                    == before[if i < at {
                    i
                } else {
                    i + 1
                }] by {}
            }
        } else {
            assert(entries_map(before).remove(k) =~= entries_map(before));
        }
        let ghost rest = entries@;
        assert(entries_map(rest) == old(self)@.entries.remove(k));
        assert(forall|i: int| 0 <= i < rest.len() ==> (#[trigger] rest[i]).last_used <= clock - 1);
        proof {
            lemma_size(rest);
        }
        if entries.len() >= max_entries {
            let victim = least_recent(&entries);
            proof {
                lemma_entry(rest, victim as int);
                lemma_oldest(rest, victim as int);
                lemma_remove(rest, victim as int);
            }
            entries.remove(victim);
            proof {
                assert forall|i: int| 0 <= i < entries@.len() implies #[trigger] entries@[i]
                    == rest[if i < victim {
                    i
                } else {
                    i + 1
                }] by {}
            }
        }
        let ghost kept = entries@;
        assert(entries_map(kept) =~= room_for(old(self)@, k));
        assert(!has_entry(kept, k)) by {
            assert(!entries_map(kept).dom().contains(k));
        }
        let entry = Entry { key, output, reads, inserted: now, last_used: clock };
        proof {
            lemma_push(kept, entry);
        }
        entries.push(entry);
        *self = MemoryCache { entries, clock, max_entries, ttl };
        assert(self@ =~= after_insert(old(self)@, k, output@, reads@, now));
    }

    /// Drops every entry whose recorded reads intersect `resources`.
    pub fn invalidate_reads(&mut self, resources: &StrSet)
        ensures
            final(self)@ == after_write(old(self)@, resources@),
    {
        proof {
            use_type_invariant(&*self);
        }
        let ghost before = self.entries@;
        let ghost w = resources@;
        let mut taken = MemoryCache::new();
        std::mem::swap(self, &mut taken);
        let MemoryCache { mut entries, clock, max_entries, ttl } = taken;
        let mut kept: Vec<Entry> = Vec::new();
        assert(entries_map(kept@) =~= Map::empty());
        assert(before.take(before.len() as int) =~= before);
        while entries.len() > 0
            invariant
                entries@.len() <= before.len(),
                entries@ == before.take(entries@.len() as int),
                distinct_keys(before),
                distinct_keys(kept@),
                kept@.len() <= before.len() - entries@.len(),
                before.len() <= max_entries,
                max_entries >= 1,
                forall|i: int| 0 <= i < before.len() ==> (#[trigger] before[i]).last_used <= clock,
                forall|i: int, j: int|
                    0 <= i < before.len() && 0 <= j < before.len() && (
                    #[trigger] before[i]).last_used == (#[trigger] before[j]).last_used ==> i == j,
                forall|i: int|
                    0 <= i < kept@.len() ==> exists|j: int|
                        entries@.len() <= j < before.len() && before[j] == #[trigger] kept@[i],
                forall|j: int|
                    entries@.len() <= j < before.len() ==> (#[trigger] before[j]).reads@.disjoint(w)
                        == has_entry(kept@, before[j].key@),
                forall|i: int| 0 <= i < kept@.len() ==> (#[trigger] kept@[i]).reads@.disjoint(w),
                w == resources@,
            decreases entries@.len(),
        {
            let ghost n = entries@.len() - 1;
            let entry = entries.pop().unwrap();
            proof {
                assert(entry == before[n]);
                assert(entries@ =~= before.take(n));
                assert(!has_entry(kept@, entry.key@)) by {
                    if has_entry(kept@, entry.key@) {
                        let i = index_of(kept@, entry.key@);
                        let j = choose|j: int|
                            n + 1 <= j < before.len() && before[j] == #[trigger] kept@[i];
                        assert(before[j].key@ == before[n].key@);
                    }
                }
            }
            let ghost old_kept = kept@;
            if entry.reads.is_disjoint(resources) {
                proof {
                    lemma_push(old_kept, entry);
                }
                kept.push(entry);
                proof {
                    assert(kept@[old_kept.len() as int] == before[n]);
                    assert forall|i: int| 0 <= i < kept@.len() implies exists|j: int|
                        n <= j < before.len() && before[j] == #[trigger] kept@[i] by {
                        if i < old_kept.len() {
                            assert(kept@[i] == old_kept[i]);
                            let j = choose|j: int|
                                n + 1 <= j < before.len() && before[j] == #[trigger] old_kept[i];
                            assert(before[j] == kept@[i]);
                        } else {
                            assert(before[n] == kept@[i]);
                        }
                    }
                    assert forall|j: int| n <= j < before.len() implies (
                    #[trigger] before[j]).reads@.disjoint(w) == has_entry(kept@, before[j].key@) by {
                        if j > n {
                            assert(before[j].key@ != before[n].key@);
                            assert(entries_map(kept@).dom().contains(before[j].key@)
                                == entries_map(old_kept).dom().contains(before[j].key@));
                        } else {
                            assert(kept@[old_kept.len() as int].key@ == before[n].key@);
                        }
                    }
                }
            }
        }
        proof {
            let m = entries_map(before);
            let want = after_write(old(self)@, w).entries;
            assert forall|k: CacheKeyV| #[trigger] has_entry(kept@, k) <==> want.dom().contains(k) by {
                if has_entry(kept@, k) {
                    let i = index_of(kept@, k);
                    let j = choose|j: int| 0 <= j < before.len() && before[j] == #[trigger] kept@[i];
                    lemma_entry(before, j);
                }
                if want.dom().contains(k) {
                    let j = index_of(before, k);
                    lemma_entry(before, j);
                    assert(before[j].reads@.disjoint(w));
                }
            }
            assert forall|k: CacheKeyV| has_entry(kept@, k) implies #[trigger] entries_map(kept@)[k]
                == want[k] by {
                let i = index_of(kept@, k);
                lemma_entry(kept@, i);
                let j = choose|j: int| 0 <= j < before.len() && before[j] == #[trigger] kept@[i];
                lemma_entry(before, j);
            }
            assert(entries_map(kept@) =~= want);
            assert forall|i: int, j: int|
                0 <= i < kept@.len() && 0 <= j < kept@.len() && (#[trigger] kept@[i]).last_used == (
                #[trigger] kept@[j]).last_used implies i == j by {
                let a = choose|a: int| 0 <= a < before.len() && before[a] == #[trigger] kept@[i];
                let b = choose|b: int| 0 <= b < before.len() && before[b] == #[trigger] kept@[j];
                assert(a == b);
                assert(kept@[i].key@ == kept@[j].key@);
            }
        }
        *self = MemoryCache { entries: kept, clock, max_entries, ttl };
        assert(self@ =~= after_write(old(self)@, w));
    }

    /// Drops everything.
    pub fn clear(&mut self)
        ensures
            final(self)@ == (CacheV { entries: Map::empty(), ..old(self)@ }),
    {
        proof {
            use_type_invariant(&*self);
        }
        let none: Vec<Entry> = Vec::new();
        self.entries = none;
        assert(self@.entries =~= Map::empty());
        assert(self@ =~= (CacheV { entries: Map::empty(), ..old(self)@ }));
    }
}

impl Default for MemoryCache {
    fn default() -> (r: Self)
        ensures
            r@ == empty_cache(DEFAULT_MAX_ENTRIES as nat, None),
    {
        MemoryCache::new()
    }
}

fn least_recent(entries: &Vec<Entry>) -> (r: usize)
    requires
        entries@.len() > 0,
    ensures
        r < entries@.len(),
        forall|i: int|
            0 <= i < entries@.len() ==> entries@[r as int].last_used <= (
            #[trigger] entries@[i]).last_used,
{
    let mut best: usize = 0;
    let mut i: usize = 1;
    while i < entries.len()
        invariant
            best < entries@.len(),
            1 <= i <= entries@.len(),
            forall|j: int|
                0 <= j < i ==> entries@[best as int].last_used <= (#[trigger] entries@[j]).last_used,
        decreases entries.len() - i,
    {
        if entries[i].last_used < entries[best].last_used {
            best = i;
        }
        i = i + 1;
    }
    best
}

proof fn lemma_oldest(s: Seq<Entry>, at: int)
    requires
        distinct_keys(s),
        0 <= at < s.len(),
        forall|i: int| 0 <= i < s.len() ==> s[at].last_used <= (#[trigger] s[i]).last_used,
        forall|i: int, j: int|
            0 <= i < s.len() && 0 <= j < s.len() && (#[trigger] s[i]).last_used == (
            #[trigger] s[j]).last_used ==> i == j,
    ensures
        oldest(entries_map(s)) == s[at].key@,
{
    let m = entries_map(s);
    lemma_entry(s, at);
    assert forall|o: CacheKeyV| #[trigger] m.dom().contains(o) implies m[s[at].key@].last_used
        <= m[o].last_used by {
        lemma_entry(s, index_of(s, o));
    }
    assert(is_oldest(m, s[at].key@));
    let k = oldest(m);
    assert(is_oldest(m, k));
    let i = index_of(s, k);
    lemma_entry(s, i);
    assert(m[k].last_used <= m[s[at].key@].last_used);
    assert(s[i].last_used == s[at].last_used);
}

// ---------------------------------------------------------------------------
// Laws
// ---------------------------------------------------------------------------

/// A lookup gives back what was stored last under the key, for as long as the
/// entry lives and nothing it read was written.
pub proof fn get_returns_what_was_inserted(
    c: CacheV,
    k: CacheKeyV,
    output: Json,
    reads: Set<Seq<char>>,
    stored: u64,
    now: u64,
)
    requires
        c.ttl is None || now - stored <= c.ttl->0,
    ensures
        found(after_insert(c, k, output, reads, stored), k, now) == Some(output),
{
}

/// A stored output is not found under any other key, such as one of another
/// version of the tool.
pub proof fn insert_leaves_other_keys(
    c: CacheV,
    k: CacheKeyV,
    other: CacheKeyV,
    output: Json,
    reads: Set<Seq<char>>,
    now: u64,
)
    requires
        k != other,
        found(c, other, now) is None,
    ensures
        found(after_insert(c, k, output, reads, now), other, now) is None,
{
}

/// After resources were written no output is found that had read any of them.
pub proof fn written_reads_are_not_found(c: CacheV, w: Set<Seq<char>>, k: CacheKeyV, now: u64)
    requires
        c.entries.dom().contains(k) ==> !c.entries[k].reads.disjoint(w),
    ensures
        found(after_write(c, w), k, now) is None,
{
}

/// Writing resources leaves every output alone that read none of them.
pub proof fn unrelated_writes_keep_entries(c: CacheV, w: Set<Seq<char>>, k: CacheKeyV, now: u64)
    requires
        c.entries.dom().contains(k) ==> c.entries[k].reads.disjoint(w),
    ensures
        found(after_write(c, w), k, now) == found(c, k, now),
{
}

/// An entry that was just used survives the next insertion, unless the cache
/// has room for one entry only.
pub proof fn used_entries_survive_eviction(
    c: CacheV,
    used: CacheKeyV,
    k: CacheKeyV,
    output: Json,
    reads: Set<Seq<char>>,
    now: u64,
)
    requires
        cache_wf(c),
        c.clock < u64::MAX - 1,
        c.max_entries > 1,
        found(c, used, now) is Some,
    ensures
        found(after_insert(after_get(c, used, now), k, output, reads, now), used, now) is Some,
{
    let a = after_get(c, used, now);
    let rest = a.entries.remove(k);
    if used != k && rest.dom().len() >= a.max_entries {
        assert(a.entries.dom() =~= c.entries.dom());
        assert(rest.dom().contains(used));
        assert(rest.dom().len() > 1);
        assert(rest.dom().remove(used).len() > 0);
        let o = rest.dom().remove(used).choose();
        assert(rest.dom().remove(used).contains(o));
        lemma_has_oldest(rest);
        let victim = oldest(rest);
        assert(is_oldest(rest, victim));
        assert(rest[victim].last_used <= rest[o].last_used);
        assert(c.entries.dom().contains(o));
        assert(rest[o].last_used <= c.clock);
        assert(rest[used].last_used == c.clock + 1);
    }
}

proof fn lemma_has_oldest(m: Map<CacheKeyV, EntryV>)
    requires
        m.dom().finite(),
        m.dom().len() > 0,
    ensures
        exists|k: CacheKeyV| is_oldest(m, k),
    decreases m.dom().len(),
{
    let x = m.dom().choose();
    if m.dom().len() == 1 {
        assert forall|o: CacheKeyV| #[trigger] m.dom().contains(o) implies m[x].last_used
            <= m[o].last_used by {
            if o != x {
                assert(m.dom().remove(x).contains(o));
                assert(m.dom().remove(x).len() == 0);
            }
        }
        assert(is_oldest(m, x));
    } else {
        let less = m.remove(x);
        assert(less.dom() =~= m.dom().remove(x));
        lemma_has_oldest(less);
        let y = choose|k: CacheKeyV| is_oldest(less, k);
        if m[x].last_used <= m[y].last_used {
            assert forall|o: CacheKeyV| #[trigger] m.dom().contains(o) implies m[x].last_used
                <= m[o].last_used by {
                if o != x {
                    assert(less.dom().contains(o));
                    assert(less[y].last_used <= less[o].last_used);
                }
            }
            assert(is_oldest(m, x));
        } else {
            assert forall|o: CacheKeyV| #[trigger] m.dom().contains(o) implies m[y].last_used
                <= m[o].last_used by {
                if o != x {
                    assert(less.dom().contains(o));
                }
            }
            assert(is_oldest(m, y));
        }
    }
}

} // verus!
