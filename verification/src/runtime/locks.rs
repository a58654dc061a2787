//! Resource-lock accounting for the scheduler.
//!
//! Units acquire every resource they touch before they start and release
//! them when they end. Lock modes mirror the effect rules of the graph:
//! reads share, writes exclude, same-tool commutative writes overlap each
//! other, and a unit of unknown effects runs alone.

use vstd::multiset::Multiset;
use vstd::prelude::*;

use crate::graph::resolved::{ResolvedEffects, ResolvedV};
use crate::ordered::{StrMap, StrSet};
use crate::text::{same_opt_text, same_text};

verus! {

use crate::graph::resolved::{coherent, compatible};
use crate::ordered::{lookup, opt_view};

// ---------------------------------------------------------------------------
// Requests
// ---------------------------------------------------------------------------

/// The lock demand of one schedulable unit, derived from resolved effects.
#[derive(Debug)]
pub struct LockRequest {
    reads: StrSet,
    writes: StrSet,
    commutative_tool: Option<String>,
    /// Undeclared effects: the unit must run alone.
    world: bool,
}

/// A lock demand as a mathematical value.
#[verifier::ext_equal]
pub struct RequestV {
    pub reads: Set<Seq<char>>,
    pub writes: Set<Seq<char>>,
    pub commutative_tool: Option<Seq<char>>,
    pub world: bool,
}

impl View for LockRequest {
    type V = RequestV;

    closed spec fn view(&self) -> RequestV {
        RequestV {
            reads: self.reads@,
            writes: self.writes@,
            commutative_tool: opt_view(self.commutative_tool),
            world: self.world,
        }
    }
}

/// The demand of a unit that touches nothing.
pub open spec fn no_demand() -> RequestV {
    RequestV {
        reads: Set::empty(),
        writes: Set::empty(),
        commutative_tool: None,
        world: false,
    }
}

/// The demand of a node with the effects.
pub open spec fn demand(e: ResolvedV) -> RequestV {
    if e.declared {
        RequestV {
            reads: e.reads,
            writes: e.writes,
            commutative_tool: if e.commutative {
                Some(e.tool)
            } else {
                None
            },
            world: false,
        }
    } else {
        RequestV { world: true, ..no_demand() }
    }
}

/// The demand of two nodes together. Where they do not agree on which tool's
/// writes commute, none do.
pub open spec fn merged_demand(a: RequestV, b: RequestV) -> RequestV {
    RequestV {
        reads: a.reads.union(b.reads),
        writes: a.writes.union(b.writes),
        commutative_tool: if a.commutative_tool == b.commutative_tool {
            a.commutative_tool
        } else {
            None
        },
        world: a.world || b.world,
    }
}

/// The writes of both units commute.
pub open spec fn commute(a: RequestV, b: RequestV) -> bool {
    a.commutative_tool is Some && a.commutative_tool == b.commutative_tool
}

/// Two units may run at the same time.
pub open spec fn may_overlap(a: RequestV, b: RequestV) -> bool {
    &&& !a.world
    &&& !b.world
    &&& a.writes.disjoint(b.reads)
    &&& b.writes.disjoint(a.reads)
    &&& a.writes.disjoint(b.writes) || commute(a, b)
}

/// Whether two units may overlap does not depend on which of them is asked.
pub proof fn overlap_symmetric(a: RequestV, b: RequestV)
    ensures
        may_overlap(a, b) == may_overlap(b, a),
{
    assert(a.writes.disjoint(b.writes) == b.writes.disjoint(a.writes));
}

/// The locks allow exactly the overlaps that the effect rules allow.
pub proof fn locks_mirror_effects(a: ResolvedV, b: ResolvedV)
    requires
        coherent(a),
        coherent(b),
    ensures
        may_overlap(demand(a), demand(b)) == compatible(a, b),
{
    if a.declared && b.declared && a.pure && b.pure {
        assert(a.writes.disjoint(b.reads));
        assert(b.writes.disjoint(a.reads));
        assert(a.writes.disjoint(b.writes));
    }
}

/// A unit of unknown effects overlaps no other.
pub proof fn undeclared_overlaps_nothing(a: ResolvedV, b: RequestV)
    requires
        !a.declared,
    ensures
        !may_overlap(demand(a), b),
        !may_overlap(b, demand(a)),
{
}

impl LockRequest {
    /// The demand of a unit that touches nothing.
    pub fn new() -> (r: Self)
        ensures
            r@ == no_demand(),
    {
        LockRequest {
            reads: StrSet::new(),
            writes: StrSet::new(),
            commutative_tool: None,
            world: false,
        }
    }

    /// The demand of a node with the effects.
    pub fn for_effects(effects: &ResolvedEffects) -> (r: Self)
        ensures
            r@ == demand(effects@),
    {
        if !effects.declared {
            return LockRequest {
                reads: StrSet::new(),
                writes: StrSet::new(),
                commutative_tool: None,
                world: true,
            };
        }
        LockRequest {
            reads: effects.reads.clone(),
            writes: effects.writes.clone(),
            commutative_tool: if effects.commutative {
                Some(effects.tool.clone())
            } else {
                None
            },
            world: false,
        }
    }

    /// Adds the demand of another member of the same unit.
    pub fn merge(&mut self, other: &Self)
        ensures
            final(self)@ == merged_demand(old(self)@, other@),
    {
        self.reads.extend(&other.reads);
        self.writes.extend(&other.writes);
        self.world = self.world || other.world;
        if !same_opt_text(&self.commutative_tool, &other.commutative_tool) {
            // Mixed commutativity in one unit falls back to exclusive writes.
            self.commutative_tool = None;
        }
        assert(self@ =~= merged_demand(old(self)@, other@));
    }
}

impl Default for LockRequest {
    fn default() -> (r: Self)
        ensures
            r@ == no_demand(),
    {
        LockRequest::new()
    }
}

impl Clone for LockRequest {
    fn clone(&self) -> (r: Self)
        ensures
            r@ == self@,
    {
        LockRequest {
            reads: self.reads.clone(),
            writes: self.writes.clone(),
            commutative_tool: match &self.commutative_tool {
                Some(t) => Some(t.clone()),
                None => None,
            },
            world: self.world,
        }
    }
}

// ---------------------------------------------------------------------------
// Counting holders
// ---------------------------------------------------------------------------

/// How many of the requests satisfy `p`.
spec fn tally(held: Seq<RequestV>, p: spec_fn(RequestV) -> bool) -> nat
    decreases held.len(),
{
    if held.len() == 0 {
        0
    } else {
        tally(held.drop_last(), p) + if p(held.last()) {
            1nat
        } else {
            0nat
        }
    }
}

proof fn lemma_tally_push(held: Seq<RequestV>, q: RequestV, p: spec_fn(RequestV) -> bool)
    ensures
        tally(held.push(q), p) == tally(held, p) + if p(q) {
            1nat
        } else {
            0nat
        },
{
    assert(held.push(q).drop_last() =~= held);
}

proof fn lemma_tally_remove(held: Seq<RequestV>, i: int, p: spec_fn(RequestV) -> bool)
    requires
        0 <= i < held.len(),
    ensures
        tally(held, p) == tally(held.remove(i), p) + if p(held[i]) {
            1nat
        } else {
            0nat
        },
    decreases held.len(),
{
    if i == held.len() - 1 {
        assert(held.remove(i) =~= held.drop_last());
    } else {
        let rest = held.drop_last();
        lemma_tally_remove(rest, i, p);
        assert(held.remove(i).drop_last() =~= rest.remove(i));
        assert(held.remove(i).last() == held.last());
        assert(rest[i] == held[i]);
    }
}

proof fn lemma_tally_some(held: Seq<RequestV>, i: int, p: spec_fn(RequestV) -> bool)
    requires
        0 <= i < held.len(),
        p(held[i]),
    ensures
        tally(held, p) > 0,
{
    lemma_tally_remove(held, i, p);
}

proof fn lemma_tally_none(held: Seq<RequestV>, p: spec_fn(RequestV) -> bool)
    requires
        forall|i: int| 0 <= i < held.len() ==> !p(#[trigger] held[i]),
    ensures
        tally(held, p) == 0,
    decreases held.len(),
{
    if held.len() > 0 {
        let rest = held.drop_last();
        assert forall|i: int| 0 <= i < rest.len() implies !p(#[trigger] rest[i]) by {
            assert(rest[i] == held[i]);
        }
        lemma_tally_none(rest, p);
    }
}

proof fn lemma_tally_bound(held: Seq<RequestV>, p: spec_fn(RequestV) -> bool)
    ensures
        tally(held, p) <= held.len(),
    decreases held.len(),
{
    if held.len() > 0 {
        lemma_tally_bound(held.drop_last(), p);
    }
}

/// The unit holds a write lock on the resource.
spec fn writes_it(r: Seq<char>) -> spec_fn(RequestV) -> bool {
    |q: RequestV| !q.world && q.writes.contains(r)
}

/// The unit holds a read lock on the resource. A unit that also writes the
/// resource holds the write lock only.
spec fn reads_it(r: Seq<char>) -> spec_fn(RequestV) -> bool {
    |q: RequestV| !q.world && q.reads.contains(r) && !q.writes.contains(r)
}

// ---------------------------------------------------------------------------
// The table
// ---------------------------------------------------------------------------

#[derive(Debug)]
enum LockState {
    Read(usize),
    Write,
    Commutative { tool: String, count: usize },
}

/// How a lock is held, as a mathematical value.
enum LockStateV {
    Read(nat),
    Write,
    Commutative { tool: Seq<char>, count: nat },
}

impl LockState {
    spec fn model(self) -> LockStateV {
        match self {
            LockState::Read(n) => LockStateV::Read(n as nat),
            LockState::Write => LockStateV::Write,
            LockState::Commutative { tool, count } => LockStateV::Commutative {
                tool: tool@,
                count: count as nat,
            },
        }
    }
}

/// How a resource is held in the table.
spec fn state_of(m: StrMap<LockState>, r: Seq<char>) -> Option<LockStateV> {
    match lookup(m.pairs(), r) {
        Some(s) => Some(s.model()),
        None => None,
    }
}

/// The tool whose writes to the resource the unit commutes with. A unit that
/// also reads the resource commutes with none.
spec fn shared_tool(q: RequestV, r: Seq<char>) -> Option<Seq<char>> {
    if q.reads.contains(r) {
        None
    } else {
        q.commutative_tool
    }
}

/// Every holder of a write lock shares it with the writes of `tool`.
spec fn writers_share(held: Seq<RequestV>, r: Seq<char>, tool: Option<Seq<char>>) -> bool {
    forall|i: int|
        0 <= i < held.len() && writes_it(r)(held[i]) ==> shared_tool(#[trigger] held[i], r) == tool
}

/// The recorded state of a resource agrees with who holds it.
spec fn state_matches(st: Option<LockStateV>, held: Seq<RequestV>, r: Seq<char>) -> bool {
    let w = tally(held, writes_it(r));
    let n = tally(held, reads_it(r));
    match st {
        None => w == 0 && n == 0,
        Some(LockStateV::Read(count)) => count == n && n > 0 && w == 0,
        Some(LockStateV::Write) => w == 1 && n == 0 && writers_share(held, r, None),
        Some(LockStateV::Commutative { tool, count }) => count == w && w > 0 && n == 0
            && writers_share(held, r, Some(tool)),
    }
}

/// The state of a resource leaves room for the request.
spec fn fits(st: Option<LockStateV>, q: RequestV, r: Seq<char>) -> bool {
    &&& q.reads.contains(r) ==> st is None || st->0 is Read
    &&& q.writes.contains(r) ==> match st {
        None => true,
        Some(LockStateV::Commutative { tool, count }) => q.commutative_tool == Some(tool),
        _ => false,
    }
}

/// The state of a resource after the request was granted.
spec fn granted(st: Option<LockStateV>, q: RequestV, r: Seq<char>) -> Option<LockStateV> {
    if q.writes.contains(r) {
        match (shared_tool(q, r), st) {
            (Some(t), Some(LockStateV::Commutative { tool, count })) => Some(
                LockStateV::Commutative { tool, count: count + 1 },
            ),
            (Some(t), _) => Some(LockStateV::Commutative { tool: t, count: 1 }),
            (None, _) => Some(LockStateV::Write),
        }
    } else if q.reads.contains(r) {
        match st {
            Some(LockStateV::Read(n)) => Some(LockStateV::Read(n + 1)),
            _ => Some(LockStateV::Read(1)),
        }
    } else {
        st
    }
}

/// The state of a resource after the request was given back.
spec fn given_back(st: Option<LockStateV>, q: RequestV, r: Seq<char>) -> Option<LockStateV> {
    if q.writes.contains(r) {
        match st {
            Some(LockStateV::Commutative { tool, count }) => if count > 1 {
                Some(LockStateV::Commutative { tool, count: (count - 1) as nat })
            } else {
                None
            },
            _ => None,
        }
    } else if q.reads.contains(r) {
        match st {
            Some(LockStateV::Read(n)) => if n > 1 {
                Some(LockStateV::Read((n - 1) as nat))
            } else {
                None
            },
            _ => st,
        }
    } else {
        st
    }
}

/// What two units do to one resource does not clash.
spec fn no_clash(h: RequestV, q: RequestV, r: Seq<char>) -> bool {
    &&& !(h.writes.contains(r) && q.reads.contains(r))
    &&& !(q.writes.contains(r) && h.reads.contains(r))
    &&& h.writes.contains(r) && q.writes.contains(r) ==> commute(h, q)
}

proof fn lemma_tally_pick(held: Seq<RequestV>, p: spec_fn(RequestV) -> bool) -> (i: int)
    requires
        tally(held, p) > 0,
    ensures
        0 <= i < held.len(),
        p(held[i]),
{
    if forall|i: int| 0 <= i < held.len() ==> !p(#[trigger] held[i]) {
        lemma_tally_none(held, p);
    }
    choose|i: int| 0 <= i < held.len() && p(#[trigger] held[i])
}

/// The recorded state leaves room exactly when no holder clashes.
proof fn lemma_fits(st: Option<LockStateV>, held: Seq<RequestV>, q: RequestV, r: Seq<char>)
    requires
        state_matches(st, held, r),
        forall|i: int| 0 <= i < held.len() ==> !(#[trigger] held[i]).world,
    ensures
        fits(st, q, r) <==> forall|i: int|
            0 <= i < held.len() ==> no_clash(#[trigger] held[i], q, r),
{
    let w = writes_it(r);
    let n = reads_it(r);
    assert forall|i: int| 0 <= i < held.len() implies (tally(held, w) == 0 ==> !(
    #[trigger] held[i]).writes.contains(r)) && (tally(held, n) == 0 ==> (held[i].reads.contains(r)
        ==> held[i].writes.contains(r))) by {
        if held[i].writes.contains(r) {
            assert(w(held[i]));
            lemma_tally_some(held, i, w);
        } else if held[i].reads.contains(r) {
            assert(n(held[i]));
            lemma_tally_some(held, i, n);
        }
    }
    match st {
        None => {},
        Some(LockStateV::Read(count)) => {
            let k = lemma_tally_pick(held, n);
            assert(n(held[k]));
            assert(!no_clash(held[k], q, r) <== q.writes.contains(r));
        },
        Some(LockStateV::Write) => {
            let k = lemma_tally_pick(held, w);
            assert(w(held[k]));
            assert(shared_tool(held[k], r) is None);
        },
        Some(LockStateV::Commutative { tool, count }) => {
            let k = lemma_tally_pick(held, w);
            assert(w(held[k]));
            assert(shared_tool(held[k], r) == Some(tool));
            if fits(st, q, r) {
                assert forall|i: int| 0 <= i < held.len() implies no_clash(
                    #[trigger] held[i],
                    q,
                    r,
                ) by {
                    if held[i].writes.contains(r) {
                        assert(w(held[i]));
                        assert(shared_tool(held[i], r) == Some(tool));
                    }
                }
            }
        },
    }
}

/// Two units may overlap when they clash on no resource.
proof fn lemma_overlap(h: RequestV, q: RequestV)
    requires
        !h.world,
        !q.world,
    ensures
        may_overlap(h, q) <==> forall|r: Seq<char>| #[trigger] no_clash(h, q, r),
{
    if may_overlap(h, q) {
        assert forall|r: Seq<char>| #[trigger] no_clash(h, q, r) by {
            if h.writes.contains(r) && q.writes.contains(r) {
                assert(!h.writes.disjoint(q.writes));
            }
        }
    }
    if forall|r: Seq<char>| #[trigger] no_clash(h, q, r) {
        assert forall|r: Seq<char>| !(h.writes.contains(r) && q.reads.contains(r)) by {
            assert(no_clash(h, q, r));
        }
        assert forall|r: Seq<char>| !(q.writes.contains(r) && h.reads.contains(r)) by {
            assert(no_clash(h, q, r));
        }
        assert(h.writes.disjoint(q.reads));
        assert(q.writes.disjoint(h.reads));
        if !h.writes.disjoint(q.writes) {
            let r = choose|r: Seq<char>| h.writes.contains(r) && q.writes.contains(r);
            assert(no_clash(h, q, r));
        }
    }
}

proof fn lemma_granted(st: Option<LockStateV>, held: Seq<RequestV>, q: RequestV, r: Seq<char>)
    requires
        state_matches(st, held, r),
        fits(st, q, r),
        !q.world,
    ensures
        state_matches(granted(st, q, r), held.push(q), r),
{
    let w = writes_it(r);
    let n = reads_it(r);
    let next = held.push(q);
    lemma_tally_push(held, q, w);
    lemma_tally_push(held, q, n);
    assert(w(q) == q.writes.contains(r));
    assert(n(q) == (q.reads.contains(r) && !q.writes.contains(r)));
    assert forall|i: int| 0 <= i < next.len() implies #[trigger] next[i] == if i < held.len() {
        held[i]
    } else {
        q
    } by {}
    if tally(held, w) == 0 {
        assert forall|i: int| 0 <= i < held.len() implies !w(#[trigger] held[i]) by {
            if w(held[i]) {
                lemma_tally_some(held, i, w);
            }
        }
    }
    match granted(st, q, r) {
        Some(LockStateV::Commutative { tool, count }) => {
            assert forall|i: int| 0 <= i < next.len() && w(next[i]) implies shared_tool(
                #[trigger] next[i],
                r,
            ) == Some(tool) by {
                if i < held.len() {
                    assert(w(held[i]));
                }
            }
        },
        Some(LockStateV::Write) => {
            assert forall|i: int| 0 <= i < next.len() && w(next[i]) implies shared_tool(
                #[trigger] next[i],
                r,
            ) == None::<Seq<char>> by {
                if i < held.len() {
                    assert(w(held[i]));
                }
            }
        },
        _ => {},
    }
}

proof fn lemma_given_back(st: Option<LockStateV>, held: Seq<RequestV>, at: int, r: Seq<char>)
    requires
        state_matches(st, held, r),
        0 <= at < held.len(),
        !held[at].world,
    ensures
        state_matches(given_back(st, held[at], r), held.remove(at), r),
{
    let q = held[at];
    let w = writes_it(r);
    let n = reads_it(r);
    let next = held.remove(at);
    lemma_tally_remove(held, at, w);
    lemma_tally_remove(held, at, n);
    assert(w(q) == q.writes.contains(r));
    assert(n(q) == (q.reads.contains(r) && !q.writes.contains(r)));
    assert forall|i: int| 0 <= i < next.len() implies #[trigger] next[i] == if i < at {
        held[i]
    } else {
        held[i + 1]
    } by {}
    match given_back(st, q, r) {
        Some(LockStateV::Commutative { tool, count }) => {
            assert forall|i: int| 0 <= i < next.len() && w(next[i]) implies shared_tool(
                #[trigger] next[i],
                r,
            ) == Some(tool) by {
                let o = if i < at {
                    i
                } else {
                    i + 1
                };
                assert(w(held[o]));
            }
        },
        Some(LockStateV::Write) => {
            assert forall|i: int| 0 <= i < next.len() && w(next[i]) implies shared_tool(
                #[trigger] next[i],
                r,
            ) == None::<Seq<char>> by {
                let o = if i < at {
                    i
                } else {
                    i + 1
                };
                assert(w(held[o]));
            }
        },
        _ => {},
    }
}

/// Who holds which resource. The view is what was acquired and not yet
/// released.
pub struct LockTable {
    resources: StrMap<LockState>,
    /// Number of running units; used by undeclared-effects units, which
    /// require global exclusivity.
    running: usize,
    /// Whether the currently running unit demands global exclusivity.
    exclusive: bool,
    held: Ghost<Seq<RequestV>>,
}

impl View for LockTable {
    type V = Multiset<RequestV>;

    closed spec fn view(&self) -> Multiset<RequestV> {
        self.held@.to_multiset()
    }
}

impl LockTable {
    #[verifier::type_invariant]
    spec fn wf(&self) -> bool {
        &&& self.running == self.held@.len()
        &&& self.exclusive ==> self.held@.len() == 1 && self.held@[0].world
        &&& !self.exclusive ==> forall|i: int|
            0 <= i < self.held@.len() ==> !(#[trigger] self.held@[i]).world
        &&& forall|r: Seq<char>|
            #![trigger lookup(self.resources.pairs(), r)]
            state_matches(state_of(self.resources, r), self.held@, r)
    }

    /// How many units hold locks.
    pub fn running(&self) -> (r: usize)
        ensures
            r == self@.len(),
    {
        proof {
            use_type_invariant(self);
            self.held@.to_multiset_ensures();
        }
        self.running
    }

    /// A table in which nothing is held.
    pub fn new() -> (r: Self)
        ensures
            r@ == Multiset::<RequestV>::empty(),
    {
        let ghost none = Seq::<RequestV>::empty();
        let resources: StrMap<LockState> = StrMap::new();
        proof {
            assert forall|r: Seq<char>| #![trigger lookup(resources.pairs(), r)] state_matches(
                state_of(resources, r),
                none,
                r,
            ) by {
                assert(lookup(resources.pairs(), r) is None);
            }
            none.to_multiset_ensures();
            assert(none.to_multiset() =~= Multiset::empty());
        }
        LockTable { resources, running: 0, exclusive: false, held: Ghost(none) }
    }

    /// Whether every resource leaves room for the request.
    fn is_compatible(&self, request: &LockRequest) -> (r: bool)
        ensures
            r == forall|x: Seq<char>| #[trigger] fits(state_of(self.resources, x), request@, x),
    {
        let mut i: usize = 0;
        while i < request.reads.len()
            invariant
                i <= request.reads.items().len(),
                forall|j: int|
                    0 <= j < i ==> {
                        let st = state_of(self.resources, #[trigger] request.reads.items()[j]);
                        st is None || st->0 is Read
                    },
            decreases request.reads.items().len() - i,
        {
            let ghost x = request.reads.items()[i as int];
            assert(request.reads@.contains(x));
            match self.resources.get(request.reads.item_at(i)) {
                None => {},
                Some(LockState::Read(_)) => {},
                Some(_) => {
                    assert(!fits(state_of(self.resources, x), request@, x));
                    return false;
                },
            }
            i = i + 1;
        }
        let mut k: usize = 0;
        while k < request.writes.len()
            invariant
                k <= request.writes.items().len(),
                forall|j: int|
                    0 <= j < k ==> fits_write(
                        state_of(self.resources, #[trigger] request.writes.items()[j]),
                        request@,
                    ),
            decreases request.writes.items().len() - k,
        {
            let ghost x = request.writes.items()[k as int];
            assert(request.writes@.contains(x));
            let ok = match self.resources.get(request.writes.item_at(k)) {
                None => true,
                Some(LockState::Commutative { tool, count }) => match &request.commutative_tool {
                    Some(mine) => same_text(tool.as_str(), mine.as_str()),
                    None => false,
                },
                Some(_) => false,
            };
            if !ok {
                assert(!fits(state_of(self.resources, x), request@, x));
                return false;
            }
            k = k + 1;
        }
        proof {
            assert forall|x: Seq<char>| #[trigger] fits(state_of(self.resources, x), request@, x) by {
                if request.reads@.contains(x) {
                    let j = choose|j: int|
                        0 <= j < request.reads.items().len() && request.reads.items()[j] == x;
                    assert(request.reads.items()[j] == x);
                }
                if request.writes@.contains(x) {
                    let j = choose|j: int|
                        0 <= j < request.writes.items().len() && request.writes.items()[j] == x;
                    assert(request.writes.items()[j] == x);
                }
            }
        }
        true
    }

    /// Attempts to acquire every resource in `request` atomically.
    ///
    /// Succeeds exactly when no unit that holds locks may not overlap the
    /// request; a unit that must run alone needs an empty table.
    pub fn try_acquire(&mut self, request: &LockRequest) -> (r: bool)
        requires
            old(self)@.len() < usize::MAX,
        ensures
            r == grants(old(self)@, request@),
            final(self)@ == if r {
                old(self)@.insert(request@)
            } else {
                old(self)@
            },
    {
        proof {
            use_type_invariant(&*self);
            self.held@.to_multiset_ensures();
        }
        let ghost q = request@;
        let ghost before = self.held@;
        if self.exclusive {
            proof {
                assert(before[0].world);
                assert(before.contains(before[0]));
                assert(self@.contains(before[0]));
                assert(!may_overlap(before[0], q));
            }
            return false;
        }
        if request.world {
            if self.running > 0 {
                proof {
                    assert(before.contains(before[0]));
                assert(self@.contains(before[0]));
                    assert(!may_overlap(before[0], q));
                }
                return false;
            }
            let mut taken = LockTable::new();
            std::mem::swap(self, &mut taken);
            let LockTable { resources, running: _, exclusive: _, held: _ } = taken;
            let ghost one = before.push(q);
            proof {
                assert forall|x: Seq<char>| #![trigger lookup(resources.pairs(), x)] state_matches(
                    state_of(resources, x),
                    one,
                    x,
                ) by {
                    assert(state_matches(state_of(resources, x), before, x));
                    lemma_tally_push(before, q, writes_it(x));
                    lemma_tally_push(before, q, reads_it(x));
                    lemma_tally_none(before, writes_it(x));
                    lemma_tally_none(before, reads_it(x));
                }
                assert(one[0] == q);
                assert forall|h: RequestV| before.to_multiset().count(h) > 0 implies may_overlap(h, q) by {
                    assert(before.contains(h));
                }
            }
            *self = LockTable { resources, running: 1, exclusive: true, held: Ghost(one) };
            return true;
        }
        let fit = self.is_compatible(request);
        proof {
            lemma_grants(self.resources, before, q);
        }
        if !fit {
            return false;
        }
        let mut taken = LockTable::new();
        std::mem::swap(self, &mut taken);
        let LockTable { resources: old_resources, running, exclusive: _, held: _ } = taken;
        let resources = grant(old_resources, request, running, Ghost(before));
        let ghost next = before.push(q);
        proof {
            assert forall|x: Seq<char>| #![trigger lookup(resources.pairs(), x)] state_matches(
                state_of(resources, x),
                next,
                x,
            ) by {
                assert(state_of(resources, x) == granted(state_of(old_resources, x), q, x));
                assert(state_matches(state_of(old_resources, x), before, x));
                assert(fits(state_of(old_resources, x), q, x));
                lemma_granted(state_of(old_resources, x), before, q, x);
            }
            assert forall|i: int| 0 <= i < next.len() implies !(#[trigger] next[i]).world by {
                if i < before.len() {
                    assert(next[i] == before[i]);
                }
            }
        }
        *self = LockTable { resources, running: running + 1, exclusive: false, held: Ghost(next) };
        true
    }

    /// Releases a previously acquired request.
    pub fn release(&mut self, request: &LockRequest)
        requires
            old(self)@.contains(request@),
        ensures
            final(self)@ == old(self)@.remove(request@),
    {
        proof {
            use_type_invariant(&*self);
            self.held@.to_multiset_ensures();
        }
        let ghost q = request@;
        let ghost before = self.held@;
        let ghost at = choose|i: int| 0 <= i < before.len() && before[i] == q;
        assert(before.contains(q));
        assert(0 <= at < before.len() && before[at] == q);
        let ghost next = before.remove(at);
        let mut taken = LockTable::new();
        std::mem::swap(self, &mut taken);
        let LockTable { resources: old_resources, running, exclusive, held: _ } = taken;
        if request.world {
            proof {
                if !exclusive {
                    assert(!before[at].world);
                }
                assert(next =~= Seq::empty());
                assert forall|x: Seq<char>| #![trigger lookup(old_resources.pairs(), x)] state_matches(
                    state_of(old_resources, x),
                    next,
                    x,
                ) by {
                    assert(state_matches(state_of(old_resources, x), before, x));
                    lemma_tally_remove(before, at, writes_it(x));
                    lemma_tally_remove(before, at, reads_it(x));
                }
            }
            *self = LockTable {
                resources: old_resources,
                running: running - 1,
                exclusive: false,
                held: Ghost(next),
            };
            return;
        }
        assert(!exclusive);
        let resources = give_back(old_resources, request);
        proof {
            assert forall|x: Seq<char>| #![trigger lookup(resources.pairs(), x)] state_matches(
                state_of(resources, x),
                next,
                x,
            ) by {
                assert(state_of(resources, x) == given_back(state_of(old_resources, x), q, x));
                assert(state_matches(state_of(old_resources, x), before, x));
                lemma_given_back(state_of(old_resources, x), before, at, x);
            }
            assert forall|i: int| 0 <= i < next.len() implies !(#[trigger] next[i]).world by {
                assert(!before[if i < at { i } else { i + 1 }].world);
            }
        }
        *self = LockTable { resources, running: running - 1, exclusive: false, held: Ghost(next) };
    }
}

/// The table has room for the request.
pub open spec fn grants(held: Multiset<RequestV>, q: RequestV) -> bool {
    forall|h: RequestV| #[trigger] held.contains(h) ==> may_overlap(h, q)
}

/// The write part of [`fits`].
spec fn fits_write(st: Option<LockStateV>, q: RequestV) -> bool {
    match st {
        None => true,
        Some(LockStateV::Commutative { tool, count }) => q.commutative_tool == Some(tool),
        _ => false,
    }
}

proof fn lemma_grants(m: StrMap<LockState>, held: Seq<RequestV>, q: RequestV)
    requires
        !q.world,
        forall|i: int| 0 <= i < held.len() ==> !(#[trigger] held[i]).world,
        forall|r: Seq<char>|
            #![trigger lookup(m.pairs(), r)]
            state_matches(state_of(m, r), held, r),
    ensures
        grants(held.to_multiset(), q) <==> forall|x: Seq<char>| #[trigger]
            fits(state_of(m, x), q, x),
{
    held.to_multiset_ensures();
    if grants(held.to_multiset(), q) {
        assert forall|x: Seq<char>| #[trigger] fits(state_of(m, x), q, x) by {
            assert(state_matches(state_of(m, x), held, x)) by {
                assert(lookup(m.pairs(), x) == lookup(m.pairs(), x));
            }
            assert forall|i: int| 0 <= i < held.len() implies no_clash(#[trigger] held[i], q, x) by {
                assert(held.contains(held[i]));
                assert(held.to_multiset().contains(held[i]));
                lemma_overlap(held[i], q);
            }
            lemma_fits(state_of(m, x), held, q, x);
        }
    }
    if forall|x: Seq<char>| #[trigger] fits(state_of(m, x), q, x) {
        assert forall|h: RequestV| #[trigger] held.to_multiset().contains(h) implies may_overlap(
            h,
            q,
        ) by {
            assert(held.contains(h));
            let i = choose|i: int| 0 <= i < held.len() && held[i] == h;
            assert forall|x: Seq<char>| #[trigger] no_clash(h, q, x) by {
                assert(fits(state_of(m, x), q, x));
                assert(state_matches(state_of(m, x), held, x)) by {
                    assert(lookup(m.pairs(), x) == lookup(m.pairs(), x));
                }
                lemma_fits(state_of(m, x), held, q, x);
                assert(no_clash(held[i], q, x));
            }
            lemma_overlap(h, q);
        }
    }
}

fn grant(
    table: StrMap<LockState>,
    request: &LockRequest,
    running: usize,
    Ghost(held): Ghost<Seq<RequestV>>,
) -> (r: StrMap<LockState>)
    requires
        running == held.len() < usize::MAX,
        forall|x: Seq<char>|
            #![trigger lookup(table.pairs(), x)]
            state_matches(state_of(table, x), held, x),
        forall|x: Seq<char>| #[trigger] fits(state_of(table, x), request@, x),
    ensures
        forall|x: Seq<char>|
            #![trigger lookup(r.pairs(), x)]
            state_of(r, x) == granted(state_of(table, x), request@, x),
{
    let ghost q = request@;
    let ghost reads = request.reads.items();
    let ghost writes = request.writes.items();
    let ghost old_table = table;
    let mut m = table;
    let mut i: usize = 0;
    while i < request.reads.len()
        invariant
            q == request@,
            reads == request.reads.items(),
            i <= reads.len(),
            running == held.len() < usize::MAX,
            forall|x: Seq<char>|
                #![trigger lookup(old_table.pairs(), x)]
                state_matches(state_of(old_table, x), held, x),
            forall|x: Seq<char>| #[trigger] fits(state_of(old_table, x), q, x),
            forall|x: Seq<char>|
                #![trigger lookup(m.pairs(), x)]
                state_of(m, x) == if reads.take(i as int).contains(x) && !q.writes.contains(x) {
                    granted(state_of(old_table, x), q, x)
                } else {
                    state_of(old_table, x)
                },
        decreases reads.len() - i,
    {
        request.reads.prove_sorted();
        let resource = request.reads.item_at(i);
        let ghost x = resource@;
        let ghost before = m;
        proof {
            assert(q.reads.contains(x));
            lemma_fresh(reads, i as int);
            assert(fits(state_of(old_table, x), q, x));
            assert(state_of(before, x) == state_of(old_table, x)) by {
                assert(lookup(before.pairs(), x) == lookup(before.pairs(), x));
            }
            assert(state_matches(state_of(old_table, x), held, x)) by {
                assert(lookup(old_table.pairs(), x) == lookup(old_table.pairs(), x));
            }
            lemma_tally_bound(held, reads_it(x));
        }
        if !request.writes.contains(resource) {
            let next = match m.get(resource) {
                Some(LockState::Read(count)) => LockState::Read(*count + 1),
                _ => LockState::Read(1),
            };
            m.insert(resource.to_owned(), next);
        }
        proof {
            let seen = reads.take(i as int);
            let more = reads.take(i + 1);
            assert(more =~= seen.push(x));
            assert forall|y: Seq<char>| #![trigger lookup(m.pairs(), y)] state_of(m, y) == if more.contains(
                y,
            ) && !q.writes.contains(y) {
                granted(state_of(old_table, y), q, y)
            } else {
                state_of(old_table, y)
            } by {
                lemma_push_contains(seen, x, y);
                assert(lookup(before.pairs(), y) == lookup(before.pairs(), y));
            }
        }
        i = i + 1;
    }
    let mut k: usize = 0;
    assert(reads.take(i as int) =~= reads);
    proof {
        assert forall|x: Seq<char>| #![trigger lookup(m.pairs(), x)] state_of(m, x) == if writes.take(
            0,
        ).contains(x) || !q.writes.contains(x) {
            granted(state_of(old_table, x), q, x)
        } else {
            state_of(old_table, x)
        } by {
            assert(q.reads.contains(x) == reads.contains(x));
        }
    }
    while k < request.writes.len()
        invariant
            q == request@,
            writes == request.writes.items(),
            k <= writes.len(),
            running == held.len() < usize::MAX,
            forall|x: Seq<char>|
                #![trigger lookup(old_table.pairs(), x)]
                state_matches(state_of(old_table, x), held, x),
            forall|x: Seq<char>| #[trigger] fits(state_of(old_table, x), q, x),
            forall|x: Seq<char>|
                #![trigger lookup(m.pairs(), x)]
                state_of(m, x) == if writes.take(k as int).contains(x) || !q.writes.contains(x) {
                    granted(state_of(old_table, x), q, x)
                } else {
                    state_of(old_table, x)
                },
        decreases writes.len() - k,
    {
        request.writes.prove_sorted();
        let resource = request.writes.item_at(k);
        let ghost x = resource@;
        let ghost before = m;
        proof {
            assert(q.writes.contains(x));
            lemma_fresh(writes, k as int);
            assert(fits(state_of(old_table, x), q, x));
            assert(state_of(before, x) == state_of(old_table, x)) by {
                assert(lookup(before.pairs(), x) == lookup(before.pairs(), x));
            }
            assert(state_matches(state_of(old_table, x), held, x)) by {
                assert(lookup(old_table.pairs(), x) == lookup(old_table.pairs(), x));
            }
            lemma_tally_bound(held, writes_it(x));
        }
        let shared = if request.reads.contains(resource) {
            &None
        } else {
            &request.commutative_tool
        };
        let next = match shared {
            None => LockState::Write,
            Some(mine) => match m.get(resource) {
                Some(LockState::Commutative { tool, count }) => LockState::Commutative {
                    tool: tool.clone(),
                    count: *count + 1,
                },
                _ => LockState::Commutative { tool: mine.clone(), count: 1 },
            },
        };
        assert(Some(next.model()) == granted(state_of(old_table, x), q, x));
        m.insert(resource.to_owned(), next);
        proof {
            let seen = writes.take(k as int);
            let more = writes.take(k + 1);
            assert(more =~= seen.push(x));
            assert forall|y: Seq<char>| #![trigger lookup(m.pairs(), y)] state_of(m, y) == if more.contains(
                y,
            ) || !q.writes.contains(y) {
                granted(state_of(old_table, y), q, y)
            } else {
                state_of(old_table, y)
            } by {
                lemma_push_contains(seen, x, y);
                assert(lookup(before.pairs(), y) == lookup(before.pairs(), y));
            }
        }
        k = k + 1;
    }
    assert(writes.take(k as int) =~= writes);
    proof {
        assert forall|x: Seq<char>| #![trigger lookup(m.pairs(), x)] state_of(m, x) == granted(
            state_of(old_table, x),
            q,
            x,
        ) by {
            assert(q.writes.contains(x) == writes.contains(x));
        }
    }
    m
}

/// In a sorted list an element does not stand before its position.
proof fn lemma_fresh(s: Seq<Seq<char>>, i: int)
    requires
        crate::ordered::sorted_texts(s),
        0 <= i < s.len(),
    ensures
        !s.take(i).contains(s[i]),
{
    let t = s.take(i);
    if t.contains(s[i]) {
        let p = choose|p: int| 0 <= p < t.len() && t[p] == s[i];
        assert(crate::text::lex_less(s[p], s[i]));
        crate::text::lex_less_irreflexive(s[i]);
    }
}

proof fn lemma_push_contains(s: Seq<Seq<char>>, x: Seq<char>, y: Seq<char>)
    ensures
        s.push(x).contains(y) == (s.contains(y) || y == x),
{
    let t = s.push(x);
    if s.contains(y) {
        let p = choose|p: int| 0 <= p < s.len() && s[p] == y;
        assert(t[p] == y);
    }
    assert(t[s.len() as int] == x);
    if t.contains(y) {
        let p = choose|p: int| 0 <= p < t.len() && t[p] == y;
        if p < s.len() {
            assert(s[p] == y);
        }
    }
}

fn give_back(table: StrMap<LockState>, request: &LockRequest) -> (r: StrMap<LockState>)
    ensures
        forall|x: Seq<char>|
            #![trigger lookup(r.pairs(), x)]
            state_of(r, x) == given_back(state_of(table, x), request@, x),
{
    let ghost q = request@;
    let ghost reads = request.reads.items();
    let ghost writes = request.writes.items();
    let ghost old_table = table;
    let mut m = table;
    let mut i: usize = 0;
    while i < request.reads.len()
        invariant
            q == request@,
            reads == request.reads.items(),
            i <= reads.len(),
            forall|x: Seq<char>|
                #![trigger lookup(m.pairs(), x)]
                state_of(m, x) == if reads.take(i as int).contains(x) && !q.writes.contains(x) {
                    given_back(state_of(old_table, x), q, x)
                } else {
                    state_of(old_table, x)
                },
        decreases reads.len() - i,
    {
        request.reads.prove_sorted();
        let resource = request.reads.item_at(i);
        let ghost x = resource@;
        let ghost before = m;
        proof {
            assert(q.reads.contains(x));
            lemma_fresh(reads, i as int);
            assert(state_of(before, x) == state_of(old_table, x)) by {
                assert(lookup(before.pairs(), x) == lookup(before.pairs(), x));
            }
        }
        if !request.writes.contains(resource) {
            let left: Option<usize> = match m.get(resource) {
                Some(LockState::Read(count)) => Some(*count),
                _ => None,
            };
            if let Some(count) = left {
                if count > 1 {
                    m.insert(resource.to_owned(), LockState::Read(count - 1));
                } else {
                    m.remove(resource);
                }
            }
        }
        proof {
            let seen = reads.take(i as int);
            let more = reads.take(i + 1);
            assert(more =~= seen.push(x));
            assert forall|y: Seq<char>| #![trigger lookup(m.pairs(), y)] state_of(m, y) == if more.contains(
                y,
            ) && !q.writes.contains(y) {
                given_back(state_of(old_table, y), q, y)
            } else {
                state_of(old_table, y)
            } by {
                lemma_push_contains(seen, x, y);
                assert(lookup(before.pairs(), y) == lookup(before.pairs(), y));
            }
        }
        i = i + 1;
    }
    let mut k: usize = 0;
    assert(reads.take(i as int) =~= reads);
    proof {
        assert forall|x: Seq<char>| #![trigger lookup(m.pairs(), x)] state_of(m, x) == if writes.take(
            0,
        ).contains(x) || !q.writes.contains(x) {
            given_back(state_of(old_table, x), q, x)
        } else {
            state_of(old_table, x)
        } by {
            assert(q.reads.contains(x) == reads.contains(x));
        }
    }
    while k < request.writes.len()
        invariant
            q == request@,
            writes == request.writes.items(),
            k <= writes.len(),
            forall|x: Seq<char>|
                #![trigger lookup(m.pairs(), x)]
                state_of(m, x) == if writes.take(k as int).contains(x) || !q.writes.contains(x) {
                    given_back(state_of(old_table, x), q, x)
                } else {
                    state_of(old_table, x)
                },
        decreases writes.len() - k,
    {
        request.writes.prove_sorted();
        let resource = request.writes.item_at(k);
        let ghost x = resource@;
        let ghost before = m;
        proof {
            assert(q.writes.contains(x));
            lemma_fresh(writes, k as int);
            assert(state_of(before, x) == state_of(old_table, x)) by {
                assert(lookup(before.pairs(), x) == lookup(before.pairs(), x));
            }
        }
        let next: Option<LockState> = match m.get(resource) {
            Some(LockState::Commutative { tool, count }) => if *count > 1 {
                Some(LockState::Commutative { tool: tool.clone(), count: *count - 1 })
            } else {
                None
            },
            _ => None,
        };
        match next {
            Some(state) => {
                m.insert(resource.to_owned(), state);
            },
            None => {
                m.remove(resource);
            },
        }
        proof {
            let seen = writes.take(k as int);
            let more = writes.take(k + 1);
            assert(more =~= seen.push(x));
            assert forall|y: Seq<char>| #![trigger lookup(m.pairs(), y)] state_of(m, y) == if more.contains(
                y,
            ) || !q.writes.contains(y) {
                given_back(state_of(old_table, y), q, y)
            } else {
                state_of(old_table, y)
            } by {
                lemma_push_contains(seen, x, y);
                assert(lookup(before.pairs(), y) == lookup(before.pairs(), y));
            }
        }
        k = k + 1;
    }
    assert(writes.take(k as int) =~= writes);
    proof {
        assert forall|x: Seq<char>| #![trigger lookup(m.pairs(), x)] state_of(m, x) == given_back(
            state_of(old_table, x),
            q,
            x,
        ) by {
            assert(q.writes.contains(x) == writes.contains(x));
        }
    }
    m
}

impl Default for LockTable {
    fn default() -> (r: Self)
        ensures
            r@ == Multiset::<RequestV>::empty(),
    {
        LockTable::new()
    }
}

/// No two units that hold locks clash.
pub open spec fn conflict_free(held: Multiset<RequestV>) -> bool {
    forall|a: RequestV, b: RequestV|
        #![trigger held.count(a), held.count(b)]
        held.count(a) > 0 && held.count(b) > 0 && (a != b || held.count(a) > 1) ==> may_overlap(a, b)
}

/// Granted requests never clash with one another: granting what fits keeps
/// the table free of conflicts, and so does every release.
pub proof fn grants_keep_conflict_free(held: Multiset<RequestV>, q: RequestV)
    requires
        conflict_free(held),
    ensures
        grants(held, q) ==> conflict_free(held.insert(q)),
        conflict_free(held.remove(q)),
{
    if grants(held, q) {
        let next = held.insert(q);
        assert forall|a: RequestV, b: RequestV|
            #![trigger next.count(a), next.count(b)]
            next.count(a) > 0 && next.count(b) > 0 && (a != b || next.count(a) > 1) implies may_overlap(
            a,
            b,
        ) by {
            if a == q && b == q {
                assert(held.contains(q));
            } else if a == q {
                assert(held.contains(b));
                overlap_symmetric(b, q);
            } else if b == q {
                assert(held.contains(a));
            } else {
                assert(held.count(a) > 0 && held.count(b) > 0);
            }
        }
    }
    let less = held.remove(q);
    assert forall|a: RequestV, b: RequestV|
        #![trigger less.count(a), less.count(b)]
        less.count(a) > 0 && less.count(b) > 0 && (a != b || less.count(a) > 1) implies may_overlap(
        a,
        b,
    ) by {
        assert(held.count(a) > 0 && held.count(b) > 0);
    }
}

/// An empty table is free of conflicts.
pub proof fn empty_is_conflict_free()
    ensures
        conflict_free(Multiset::empty()),
{
}

/// Releasing what was just acquired gives the table back as it was.
pub proof fn release_undoes_acquire(held: Multiset<RequestV>, q: RequestV)
    ensures
        held.insert(q).remove(q) == held,
{
    assert(held.insert(q).remove(q) =~= held);
}

} // verus!
