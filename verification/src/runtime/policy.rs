//! Retry and timeout policies around tool calls, and the table that lets one
//! caller at a time execute a call.

use vstd::prelude::*;

use crate::adapters::api::{ToolErrorV, ToolExecutionError};
use crate::effects::{Effects, EffectsV};
use crate::optimizer::rewrite::set_items;
use crate::runtime::cache::{CacheKey, CacheKeyV};
use crate::scan::contains_text;
use crate::text::{copy_texts, decimal_text, same_text, wrapped};

verus! {

use crate::ordered::{in_order, in_order_unique};
use crate::scan::has_part;
use crate::text::{decimal, texts_view};

/// The first delay of a policy that names none.
pub const DEFAULT_BACKOFF_MS: u64 = 100;

/// The longest delay.
pub const MAX_BACKOFF_MS: u64 = 5000;

/// Per-call execution policy derived from effects and run configuration.
#[derive(Debug, PartialEq, Eq)]
pub struct CallPolicy {
    pub timeout_ms: Option<u64>,
    pub max_attempts: u8,
    pub backoff_ms: u64,
    pub retryable_errors: Vec<String>,
}

/// A call policy as a mathematical value.
#[verifier::ext_equal]
pub struct PolicyV {
    pub timeout_ms: Option<u64>,
    pub max_attempts: u8,
    pub backoff_ms: u64,
    pub retryable_errors: Seq<Seq<char>>,
}

impl View for CallPolicy {
    type V = PolicyV;

    open spec fn view(&self) -> PolicyV {
        PolicyV {
            timeout_ms: self.timeout_ms,
            max_attempts: self.max_attempts,
            backoff_ms: self.backoff_ms,
            retryable_errors: texts_view(self.retryable_errors@),
        }
    }
}

/// The policy of a tool with the effects. Only idempotent and pure tools are
/// ever called more than once.
pub open spec fn policy_for(effects: Option<EffectsV>, default_timeout_ms: Option<u64>) -> PolicyV {
    let timeout_ms = match effects {
        Some(e) => match e.timeout_ms {
            Some(t) => Some(t),
            None => default_timeout_ms,
        },
        None => default_timeout_ms,
    };
    match effects {
        Some(e) => match e.retry {
            Some(retry) => PolicyV {
                timeout_ms,
                max_attempts: if (e.idempotent || e.pure) && retry.max_attempts > 1 {
                    retry.max_attempts
                } else {
                    1
                },
                backoff_ms: match retry.backoff_ms {
                    Some(b) => b,
                    None => DEFAULT_BACKOFF_MS,
                },
                retryable_errors: in_order(retry.retryable_errors),
            },
            None => PolicyV {
                timeout_ms,
                max_attempts: 1,
                backoff_ms: DEFAULT_BACKOFF_MS,
                retryable_errors: Seq::empty(),
            },
        },
        None => PolicyV {
            timeout_ms,
            max_attempts: 1,
            backoff_ms: DEFAULT_BACKOFF_MS,
            retryable_errors: Seq::empty(),
        },
    }
}

/// The error matches one of the filters: by its code or by what its message
/// contains.
pub open spec fn matches_filter(e: ToolErrorV, needle: Seq<char>) -> bool {
    e.code == Some(needle) || has_part(e.message, needle)
}

/// Another attempt may succeed. The verdict of the adapter wins; without one
/// every error counts, or those that match a filter where there are filters.
pub open spec fn retryable(p: PolicyV, e: ToolErrorV) -> bool {
    match e.retryable {
        Some(verdict) => verdict,
        None => p.retryable_errors.len() == 0 || exists|i: int|
            0 <= i < p.retryable_errors.len() && matches_filter(e, #[trigger] p.retryable_errors[i]),
    }
}

/// Two to the power of `n`.
pub open spec fn doubled(n: nat) -> nat
    decreases n,
{
    if n == 0 {
        1
    } else {
        2 * doubled((n - 1) as nat)
    }
}

/// The delay after the attempt, before jitter: it doubles with every attempt
/// up to a ceiling.
pub open spec fn base_delay(backoff_ms: u64, attempt: u8) -> nat {
    let exponent = if attempt == 0 {
        0
    } else if attempt - 1 > 16 {
        16
    } else {
        attempt - 1
    };
    let delay = backoff_ms as nat * doubled(exponent as nat);
    if delay > MAX_BACKOFF_MS {
        MAX_BACKOFF_MS as nat
    } else {
        delay
    }
}

/// The delay after the attempt. The sub-second nanoseconds of the clock
/// spread concurrent retries over a quarter of the delay, up to the ceiling.
pub open spec fn delay(backoff_ms: u64, attempt: u8, nanos: u64) -> nat {
    let base = base_delay(backoff_ms, attempt);
    let spread = base + (nanos as nat) % (base / 4 + 1);
    if spread > MAX_BACKOFF_MS {
        MAX_BACKOFF_MS as nat
    } else {
        spread
    }
}

/// The delay lies between the undisturbed delay and a quarter more, and never
/// exceeds the ceiling.
pub proof fn delay_is_bounded(backoff_ms: u64, attempt: u8, nanos: u64)
    ensures
        base_delay(backoff_ms, attempt) <= delay(backoff_ms, attempt, nanos),
        delay(backoff_ms, attempt, nanos) <= base_delay(backoff_ms, attempt) + base_delay(
            backoff_ms,
            attempt,
        ) / 4,
        delay(backoff_ms, attempt, nanos) <= MAX_BACKOFF_MS,
{
    let base = base_delay(backoff_ms, attempt);
    assert((nanos as nat) % (base / 4 + 1) < base / 4 + 1) by (nonlinear_arith)
        requires
            base >= 0,
    ;
}

/// A tool that is neither idempotent nor pure is called once at most.
pub proof fn only_repeatable_tools_are_retried(effects: Option<EffectsV>, default_timeout_ms: Option<u64>)
    requires
        effects is None || !(effects->0.idempotent || effects->0.pure),
    ensures
        policy_for(effects, default_timeout_ms).max_attempts == 1,
{
}

impl CallPolicy {
    /// The policy of a tool with the effects.
    pub fn from_effects(effects: Option<&Effects>, default_timeout_ms: Option<u64>) -> (r: Self)
        ensures
            r@ == policy_for(
                match effects {
                    Some(e) => Some(e@),
                    None => None,
                },
                default_timeout_ms,
            ),
    {
        let none: Vec<String> = Vec::new();
        assert(texts_view(none@) =~= Seq::empty());
        let timeout_ms = match effects {
            Some(e) => match e.timeout_ms {
                Some(t) => Some(t),
                None => default_timeout_ms,
            },
            None => default_timeout_ms,
        };
        match effects {
            Some(e) => match &e.retry {
                Some(retry) => {
                    let errors = set_items(&retry.retryable_errors);
                    proof {
                        in_order_unique(texts_view(errors@));
                    }
                    CallPolicy {
                        timeout_ms,
                        max_attempts: if (e.idempotent || e.pure) && retry.max_attempts > 1 {
                            retry.max_attempts
                        } else {
                            1
                        },
                        backoff_ms: match retry.backoff_ms {
                            Some(b) => b,
                            None => DEFAULT_BACKOFF_MS,
                        },
                        retryable_errors: errors,
                    }
                },
                None => CallPolicy {
                    timeout_ms,
                    max_attempts: 1,
                    backoff_ms: DEFAULT_BACKOFF_MS,
                    retryable_errors: none,
                },
            },
            None => CallPolicy {
                timeout_ms,
                max_attempts: 1,
                backoff_ms: DEFAULT_BACKOFF_MS,
                retryable_errors: none,
            },
        }
    }

    /// Whether another attempt may succeed after the error.
    pub fn is_retryable(&self, error: &ToolExecutionError) -> (r: bool)
        ensures
            r == retryable(self@, error@),
    {
        if let Some(verdict) = error.retryable {
            return verdict;
        }
        if self.retryable_errors.len() == 0 {
            return true;
        }
        let mut i: usize = 0;
        while i < self.retryable_errors.len()
            invariant
                i <= self.retryable_errors@.len(),
                error.retryable is None,
                self.retryable_errors@.len() > 0,
                forall|j: int| 0 <= j < i ==> !matches_filter(error@, #[trigger] self@.retryable_errors[j]),
            decreases self.retryable_errors.len() - i,
        {
            let needle = self.retryable_errors[i].as_str();
            assert(self@.retryable_errors[i as int] == needle@);
            let by_code = match &error.code {
                Some(code) => same_text(code.as_str(), needle),
                None => false,
            };
            if by_code || contains_text(error.message.as_str(), needle) {
                assert(matches_filter(error@, self@.retryable_errors[i as int]));
                return true;
            }
            i = i + 1;
        }
        false
    }

    /// The delay in milliseconds before the attempt after `attempt`, with the
    /// sub-second nanoseconds of the clock as jitter.
    pub fn backoff(&self, attempt: u8, nanos: u64) -> (r: u64)
        ensures
            r == delay(self@.backoff_ms, attempt, nanos),
    {
        let exponent: u8 = if attempt == 0 {
            0
        } else if attempt - 1 > 16 {
            16
        } else {
            attempt - 1
        };
        let mut base: u64 = self.backoff_ms;
        let mut i: u8 = 0;
        let ghost full = base as nat;
        assert(full * doubled(0) == full) by (nonlinear_arith)
            requires
                doubled(0) == 1,
        ;
        while i < exponent
            invariant
                i <= exponent <= 16,
                full == self.backoff_ms,
                base == full * doubled(i as nat) || (base > MAX_BACKOFF_MS && full * doubled(
                    i as nat,
                ) > MAX_BACKOFF_MS),
            decreases exponent - i,
        {
            proof {
                let d = doubled(i as nat);
                assert(doubled((i + 1) as nat) == 2 * d);
                assert(full * (2 * d) == 2 * (full * d)) by (nonlinear_arith);
            }
            if base <= MAX_BACKOFF_MS {
                base = base * 2;
            }
            i = i + 1;
        }
        if base > MAX_BACKOFF_MS {
            base = MAX_BACKOFF_MS;
        }
        let jitter: u64 = nanos % (base / 4 + 1);
        let spread: u64 = base + jitter;
        if spread > MAX_BACKOFF_MS {
            MAX_BACKOFF_MS
        } else {
            spread
        }
    }
}

impl Clone for CallPolicy {
    fn clone(&self) -> (r: Self)
        ensures
            r@ == self@,
    {
        CallPolicy {
            timeout_ms: self.timeout_ms,
            max_attempts: self.max_attempts,
            backoff_ms: self.backoff_ms,
            retryable_errors: copy_texts(&self.retryable_errors),
        }
    }
}

/// The error of a call that did not end in time.
pub open spec fn timed_out(limit_ms: u64) -> ToolErrorV {
    ToolErrorV {
        message: "timed out after "@ + decimal(limit_ms as nat) + "ms"@,
        code: Some("timeout"@),
        retryable: None,
    }
}

/// The error of a call that did not end in time.
pub fn timeout_error(limit_ms: u64) -> (r: ToolExecutionError)
    ensures
        r@ == timed_out(limit_ms),
{
    ToolExecutionError::new(
        wrapped("timed out after ", decimal_text(limit_ms).as_str(), "ms").as_str(),
    ).with_code("timeout")
}

// ---------------------------------------------------------------------------
// Attempts
// ---------------------------------------------------------------------------

/// What follows a failed attempt.
#[derive(Debug)]
pub enum AfterFailure {
    /// The call failed for good, with this error.
    GiveUp(ToolExecutionError),
    /// Wait so many milliseconds and try again.
    RetryAfter(u64),
}

/// The attempts of one call so far.
#[derive(Debug)]
pub struct Attempts {
    attempt: u8,
    retries: Vec<ToolExecutionError>,
}

/// The attempts of a call as a mathematical value: the number of the current
/// attempt and the errors of those before it.
#[verifier::ext_equal]
pub struct AttemptsV {
    pub attempt: nat,
    pub retries: Seq<ToolErrorV>,
}

impl View for Attempts {
    type V = AttemptsV;

    closed spec fn view(&self) -> AttemptsV {
        AttemptsV {
            attempt: self.attempt as nat,
            retries: crate::ordered::views(self.retries@),
        }
    }
}

/// The call is over with the attempt.
pub open spec fn gives_up(p: PolicyV, attempt: nat, e: ToolErrorV) -> bool {
    attempt >= p.max_attempts || !retryable(p, e)
}

impl Attempts {
    /// The first attempt.
    pub fn new() -> (r: Self)
        ensures
            r@ == (AttemptsV { attempt: 1, retries: Seq::empty() }),
    {
        let r = Attempts { attempt: 1, retries: Vec::new() };
        assert(r@.retries =~= Seq::empty());
        r
    }

    /// The errors of the attempts that were followed by another.
    pub fn retries(&self) -> (r: &Vec<ToolExecutionError>)
        ensures
            crate::ordered::views(r@) == self@.retries,
    {
        &self.retries
    }

    /// Decides what follows the failure of the current attempt.
    pub fn failed(&mut self, policy: &CallPolicy, error: ToolExecutionError, nanos: u64) -> (r:
        AfterFailure)
        ensures
            match r {
                AfterFailure::GiveUp(e) => {
                    &&& gives_up(policy@, old(self)@.attempt, error@)
                    &&& e@ == error@
                    &&& final(self)@ == old(self)@
                },
                AfterFailure::RetryAfter(ms) => {
                    &&& !gives_up(policy@, old(self)@.attempt, error@)
                    &&& ms == delay(policy@.backoff_ms, old(self)@.attempt as u8, nanos)
                    &&& final(self)@ == (AttemptsV {
                        attempt: old(self)@.attempt + 1,
                        retries: old(self)@.retries.push(error@),
                    })
                },
            },
    {
        if self.attempt >= policy.max_attempts || !policy.is_retryable(&error) {
            return AfterFailure::GiveUp(error);
        }
        let wait: u64 = policy.backoff(self.attempt, nanos);
        let ghost before = self@.retries;
        let ghost e = error@;
        self.retries.push(error);
        self.attempt = self.attempt + 1;
        assert(self@.retries =~= before.push(e));
        AfterFailure::RetryAfter(wait)
    }
}

/// A call makes at most as many attempts as its policy allows: a call that
/// may go on has made fewer.
pub proof fn attempts_are_bounded(p: PolicyV, attempt: nat, e: ToolErrorV)
    requires
        !gives_up(p, attempt, e),
    ensures
        attempt + 1 <= p.max_attempts,
        retryable(p, e),
{
}

// ---------------------------------------------------------------------------
// Single flight
// ---------------------------------------------------------------------------

#[derive(Debug)]
struct Slot {
    key: CacheKey,
    guards: usize,
}

/// Which calls are in flight, and how many callers hold or await each.
///
/// The first caller of a key executes while later callers wait. A key stays
/// in the table only as long as a caller holds it, so a long-lived runtime
/// does not accumulate one slot per distinct call.
pub struct SingleFlight {
    slots: Vec<Slot>,
}

spec fn slot_at(s: Seq<Slot>, k: CacheKeyV) -> int {
    choose|i: int| 0 <= i < s.len() && (#[trigger] s[i]).key@ == k
}

spec fn has_slot(s: Seq<Slot>, k: CacheKeyV) -> bool {
    exists|i: int| 0 <= i < s.len() && (#[trigger] s[i]).key@ == k
}

spec fn slots_map(s: Seq<Slot>) -> Map<CacheKeyV, nat> {
    Map::new(|k: CacheKeyV| has_slot(s, k), |k: CacheKeyV| s[slot_at(s, k)].guards as nat)
}

spec fn distinct_slots(s: Seq<Slot>) -> bool {
    forall|i: int, j: int|
        0 <= i < s.len() && 0 <= j < s.len() && (#[trigger] s[i]).key@ == (#[trigger] s[j]).key@ ==> i
            == j
}

impl View for SingleFlight {
    type V = Map<CacheKeyV, nat>;

    closed spec fn view(&self) -> Map<CacheKeyV, nat> {
        slots_map(self.slots@)
    }
}

/// How many callers hold or await the key.
pub open spec fn guards_of(m: Map<CacheKeyV, nat>, k: CacheKeyV) -> nat {
    if m.dom().contains(k) {
        m[k]
    } else {
        0
    }
}

/// One caller more.
pub open spec fn entered(m: Map<CacheKeyV, nat>, k: CacheKeyV) -> Map<CacheKeyV, nat> {
    m.insert(k, guards_of(m, k) + 1)
}

/// One caller less; the last one takes the slot away.
pub open spec fn left(m: Map<CacheKeyV, nat>, k: CacheKeyV) -> Map<CacheKeyV, nat> {
    if guards_of(m, k) > 1 {
        m.insert(k, (guards_of(m, k) - 1) as nat)
    } else {
        m.remove(k)
    }
}

/// A caller that leaves undoes its entering, so no slot outlives its callers.
pub proof fn leaving_undoes_entering(m: Map<CacheKeyV, nat>, k: CacheKeyV)
    requires
        m.dom().contains(k) ==> m[k] > 0,
    ensures
        left(entered(m, k), k) == m,
{
    if m.dom().contains(k) {
        assert(left(entered(m, k), k) =~= m);
    } else {
        assert(left(entered(m, k), k) =~= m);
    }
}

impl SingleFlight {
    #[verifier::type_invariant]
    spec fn wf(&self) -> bool {
        &&& distinct_slots(self.slots@)
        &&& forall|i: int| 0 <= i < self.slots@.len() ==> (#[trigger] self.slots@[i]).guards > 0
    }

    /// A table in which nothing is in flight.
    pub fn new() -> (r: Self)
        ensures
            r@ == Map::<CacheKeyV, nat>::empty(),
    {
        let r = SingleFlight { slots: Vec::new() };
        assert(r@ =~= Map::empty());
        r
    }

    /// How many keys are in flight.
    pub fn len(&self) -> (r: usize)
        ensures
            self@.dom().finite(),
            r == self@.dom().len(),
    {
        proof {
            use_type_invariant(self);
            let keys = Seq::new(self.slots@.len(), |i: int| self.slots@[i].key@);
            assert forall|k: CacheKeyV| self@.dom().contains(k) <==> keys.to_set().contains(k) by {
                if has_slot(self.slots@, k) {
                    assert(keys[slot_at(self.slots@, k)] == k);
                }
                if keys.contains(k) {
                    let i = choose|i: int| 0 <= i < keys.len() && keys[i] == k;
                    assert(self.slots@[i].key@ == k);
                }
            }
            assert(self@.dom() =~= keys.to_set());
            keys.unique_seq_to_set();
        }
        self.slots.len()
    }

    fn position(&self, key: &CacheKey) -> (r: Option<usize>)
        ensures
            match r {
                Some(i) => i < self.slots@.len() && self.slots@[i as int].key@ == key@,
                None => !has_slot(self.slots@, key@),
            },
    {
        let mut i: usize = 0;
        while i < self.slots.len()
            invariant
                i <= self.slots@.len(),
                forall|j: int| 0 <= j < i ==> (#[trigger] self.slots@[j]).key@ != key@,
            decreases self.slots.len() - i,
        {
            if self.slots[i].key.same(key) {
                return Some(i);
            }
            i = i + 1;
        }
        None
    }

    /// Registers a caller of the key. The caller executes at once when it is
    /// the only one.
    pub fn enter(&mut self, key: &CacheKey) -> (r: bool)
        requires
            guards_of(old(self)@, key@) < usize::MAX,
        ensures
            r == (guards_of(old(self)@, key@) == 0),
            final(self)@ == entered(old(self)@, key@),
    {
        proof {
            use_type_invariant(&*self);
        }
        let ghost k = key@;
        let ghost before = self.slots@;
        let at = self.position(key);
        let mut slots: Vec<Slot> = Vec::new();
        std::mem::swap(&mut slots, &mut self.slots);
        match at {
            Some(at) => {
                proof {
                    assert(has_slot(before, k));
                    assert(slot_at(before, k) == at);
                }
                let Slot { key: own, guards } = slots.remove(at);
                slots.insert(at, Slot { key: own, guards: guards + 1 });
                proof {
                    assert(slots@ =~= before.update(at as int, slots@[at as int]));
                    lemma_slots_update(before, at as int, slots@[at as int]);
                }
                self.slots = slots;
                assert(self@ =~= entered(old(self)@, k));
                false
            },
            None => {
                let slot = Slot { key: key.clone(), guards: 1 };
                proof {
                    lemma_slots_push(before, slot);
                }
                slots.push(slot);
                self.slots = slots;
                assert(self@ =~= entered(old(self)@, k));
                true
            },
        }
    }

    /// Takes a caller of the key away.
    pub fn leave(&mut self, key: &CacheKey)
        ensures
            final(self)@ == left(old(self)@, key@),
    {
        proof {
            use_type_invariant(&*self);
        }
        let ghost k = key@;
        let ghost before = self.slots@;
        let at = match self.position(key) {
            Some(at) => at,
            None => {
                assert(self@ =~= left(old(self)@, k));
                return;
            },
        };
        proof {
            assert(has_slot(before, k));
            assert(slot_at(before, k) == at);
        }
        let mut slots: Vec<Slot> = Vec::new();
        std::mem::swap(&mut slots, &mut self.slots);
        let Slot { key: own, guards } = slots.remove(at);
        if guards > 1 {
            slots.insert(at, Slot { key: own, guards: guards - 1 });
            proof {
                assert(slots@ =~= before.update(at as int, slots@[at as int]));
                lemma_slots_update(before, at as int, slots@[at as int]);
            }
        } else {
            proof {
                lemma_slots_remove(before, at as int);
            }
        }
        self.slots = slots;
        assert(self@ =~= left(old(self)@, k));
    }
}

impl Default for SingleFlight {
    fn default() -> (r: Self)
        ensures
            r@ == Map::<CacheKeyV, nat>::empty(),
    {
        SingleFlight::new()
    }
}

proof fn lemma_slot(s: Seq<Slot>, i: int)
    requires
        distinct_slots(s),
        0 <= i < s.len(),
    ensures
        slots_map(s).dom().contains(s[i].key@),
        slots_map(s)[s[i].key@] == s[i].guards,
        slot_at(s, s[i].key@) == i,
{
    assert(has_slot(s, s[i].key@));
}

proof fn lemma_slots_update(s: Seq<Slot>, at: int, slot: Slot)
    requires
        distinct_slots(s),
        0 <= at < s.len(),
        slot.key@ == s[at].key@,
    ensures
        distinct_slots(s.update(at, slot)),
        slots_map(s.update(at, slot)) == slots_map(s).insert(slot.key@, slot.guards as nat),
{
    let t = s.update(at, slot);
    assert forall|i: int| 0 <= i < t.len() implies (#[trigger] t[i]).key@ == s[i].key@ by {}
    assert(distinct_slots(t)) by {
        assert forall|i: int, j: int|
            0 <= i < t.len() && 0 <= j < t.len() && (#[trigger] t[i]).key@ == (
            #[trigger] t[j]).key@ implies i == j by {
            assert(s[i].key@ == s[j].key@);
        }
    }
    assert forall|k: CacheKeyV| #[trigger] has_slot(t, k) <==> has_slot(s, k) by {
        if has_slot(t, k) {
            assert(s[slot_at(t, k)].key@ == k);
        }
        if has_slot(s, k) {
            assert(t[slot_at(s, k)].key@ == k);
        }
    }
    assert(has_slot(s, slot.key@)) by {
        assert(s[at].key@ == slot.key@);
    }
    assert forall|k: CacheKeyV| has_slot(t, k) implies #[trigger] slots_map(t)[k] == slots_map(
        s,
    ).insert(slot.key@, slot.guards as nat)[k] by {
        let i = slot_at(t, k);
        lemma_slot(t, i);
        lemma_slot(s, i);
        if k == slot.key@ {
            assert(s[i].key@ == s[at].key@);
        }
    }
    assert(slots_map(t) =~= slots_map(s).insert(slot.key@, slot.guards as nat));
}

proof fn lemma_slots_push(s: Seq<Slot>, slot: Slot)
    requires
        distinct_slots(s),
        !has_slot(s, slot.key@),
    ensures
        distinct_slots(s.push(slot)),
        slots_map(s.push(slot)) == slots_map(s).insert(slot.key@, slot.guards as nat),
{
    let t = s.push(slot);
    assert(t[s.len() as int] == slot);
    assert(distinct_slots(t)) by {
        assert forall|i: int, j: int|
            0 <= i < t.len() && 0 <= j < t.len() && (#[trigger] t[i]).key@ == (
            #[trigger] t[j]).key@ implies i == j by {
            if i < s.len() && j < s.len() {
                assert(s[i].key@ == s[j].key@);
            } else if i < s.len() {
                assert(s[i].key@ == slot.key@);
            } else if j < s.len() {
                assert(s[j].key@ == slot.key@);
            }
        }
    }
    assert forall|k: CacheKeyV| #[trigger] has_slot(t, k) <==> has_slot(s, k) || k == slot.key@ by {
        if has_slot(s, k) {
            assert(t[slot_at(s, k)] == s[slot_at(s, k)]);
        }
        if has_slot(t, k) {
            let i = slot_at(t, k);
            if i < s.len() {
                assert(s[i].key@ == k);
            }
        }
        assert(t[s.len() as int].key@ == slot.key@);
    }
    assert forall|k: CacheKeyV| has_slot(t, k) implies #[trigger] slots_map(t)[k] == slots_map(
        s,
    ).insert(slot.key@, slot.guards as nat)[k] by {
        if k == slot.key@ {
            lemma_slot(t, s.len() as int);
        } else {
            let i = slot_at(s, k);
            assert(has_slot(s, k));
            assert(t[i] == s[i]);
            lemma_slot(t, i);
            lemma_slot(s, i);
        }
    }
    assert(slots_map(t) =~= slots_map(s).insert(slot.key@, slot.guards as nat));
}

proof fn lemma_slots_remove(s: Seq<Slot>, at: int)
    requires
        distinct_slots(s),
        0 <= at < s.len(),
    ensures
        distinct_slots(s.remove(at)),
        slots_map(s.remove(at)) == slots_map(s).remove(s[at].key@),
{
    let t = s.remove(at);
    assert forall|i: int| 0 <= i < t.len() implies #[trigger] t[i] == s[if i < at {
        i
    } else {
        i + 1
    }] by {}
    assert(distinct_slots(t)) by {
        assert forall|i: int, j: int|
            0 <= i < t.len() && 0 <= j < t.len() && (#[trigger] t[i]).key@ == (
            #[trigger] t[j]).key@ implies i == j by {
            let a = if i < at { i } else { i + 1 };
            let b = if j < at { j } else { j + 1 };
            assert(s[a].key@ == s[b].key@);
        }
    }
    assert forall|k: CacheKeyV| #[trigger] has_slot(t, k) <==> has_slot(s, k) && k != s[at].key@ by {
        if has_slot(t, k) {
            let i = slot_at(t, k);
            let a = if i < at { i } else { i + 1 };
            assert(s[a].key@ == k);
        }
        if has_slot(s, k) && k != s[at].key@ {
            let a = slot_at(s, k);
            let i = if a < at { a } else { a - 1 };
            assert(t[i] == s[a]);
        }
    }
    assert forall|k: CacheKeyV| has_slot(t, k) implies #[trigger] slots_map(t)[k] == slots_map(
        s,
    )[k] by {
        let i = slot_at(t, k);
        let a = if i < at { i } else { i + 1 };
        lemma_slot(t, i);
        lemma_slot(s, a);
    }
    assert(slots_map(t) =~= slots_map(s).remove(s[at].key@));
}

} // verus!
