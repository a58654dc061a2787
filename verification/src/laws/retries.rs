//! Retries: which failures are tried again, how often, and after what delay.

use vstd::prelude::*;

use crate::adapters::api::ToolErrorV;
use crate::effects::EffectsV;
use crate::runtime::policy::PolicyV;

verus! {

use crate::ordered::in_order;
use crate::runtime::policy::{
    base_delay, delay, doubled, gives_up, matches_filter, policy_for, retryable, timed_out,
};
use crate::scan::{has_at, has_part};

/// The text reads `before`, then `part`, then something.
pub open spec fn reads(text: Seq<char>, before: Seq<char>, part: Seq<char>, after: Seq<char>) -> bool {
    text == before + part + after
}

/// A text holds a part exactly when it can be cut into something, the part
/// and something.
pub proof fn parts_are_cut_out(text: Seq<char>, part: Seq<char>)
    ensures
        has_part(text, part) <==> exists|before: Seq<char>, after: Seq<char>|
            reads(text, before, part, after),
{
    if has_part(text, part) {
        let at = choose|at: int| has_at(text, part, at);
        let before = text.take(at);
        let after = text.skip(at + part.len());
        assert(text =~= before + text.subrange(at, at + part.len()) + after);
        assert(reads(text, before, part, after));
    }
    if exists|before: Seq<char>, after: Seq<char>| reads(text, before, part, after) {
        let (before, after) = choose|before: Seq<char>, after: Seq<char>|
            reads(text, before, part, after);
        assert(text.subrange(before.len() as int, (before.len() + part.len()) as int) =~= part);
        assert(has_at(text, part, before.len() as int));
    }
}

/// Where the adapter gave no verdict and there are filters, an error whose
/// code is a filter is retried whatever its message says.
pub proof fn matching_codes_are_retried(p: PolicyV, e: ToolErrorV, i: int)
    requires
        e.retryable is None,
        0 <= i < p.retryable_errors.len(),
        e.code == Some(p.retryable_errors[i]),
    ensures
        retryable(p, e),
{
    assert(matches_filter(e, p.retryable_errors[i]));
}

/// Where the adapter gave no verdict and there are filters, an error whose
/// message holds a filter is retried whatever its code is.
pub proof fn matching_messages_are_retried(
    p: PolicyV,
    e: ToolErrorV,
    i: int,
    before: Seq<char>,
    after: Seq<char>,
)
    requires
        e.retryable is None,
        0 <= i < p.retryable_errors.len(),
        e.message == before + p.retryable_errors[i] + after,
    ensures
        retryable(p, e),
{
    assert(reads(e.message, before, p.retryable_errors[i], after));
    parts_are_cut_out(e.message, p.retryable_errors[i]);
    assert(matches_filter(e, p.retryable_errors[i]));
}

/// Where the adapter gave no verdict and there are filters, an error that
/// matches none of them, by code or by message, is final.
pub proof fn other_errors_are_final(p: PolicyV, e: ToolErrorV)
    requires
        e.retryable is None,
        p.retryable_errors.len() > 0,
        forall|i: int|
            0 <= i < p.retryable_errors.len() ==> e.code != Some(#[trigger] p.retryable_errors[i]),
        forall|i: int, before: Seq<char>, after: Seq<char>|
            0 <= i < p.retryable_errors.len() ==> !#[trigger] reads(
                e.message,
                before,
                p.retryable_errors[i],
                after,
            ),
    ensures
        !retryable(p, e),
{
    assert forall|i: int| 0 <= i < p.retryable_errors.len() implies !matches_filter(
        e,
        #[trigger] p.retryable_errors[i],
    ) by {
        parts_are_cut_out(e.message, p.retryable_errors[i]);
    }
}

/// The verdict of the adapter decides, whatever the filters are; without a
/// verdict and without filters every error is retried.
pub proof fn verdicts_come_first(p: PolicyV, e: ToolErrorV)
    ensures
        e.retryable == Some(true) ==> retryable(p, e),
        e.retryable == Some(false) ==> !retryable(p, e),
        e.retryable is None && p.retryable_errors.len() == 0 ==> retryable(p, e),
{
}

/// A call goes on exactly while attempts are left and the error may go away.
pub proof fn calls_go_on_while_attempts_are_left(p: PolicyV, attempt: nat, e: ToolErrorV)
    ensures
        attempt < p.max_attempts && e.retryable == Some(true) ==> !gives_up(p, attempt, e),
        attempt < p.max_attempts && e.retryable is None && p.retryable_errors.len() == 0
            ==> !gives_up(p, attempt, e),
        attempt >= p.max_attempts ==> gives_up(p, attempt, e),
        e.retryable == Some(false) ==> gives_up(p, attempt, e),
        forall|i: int|
            attempt < p.max_attempts && e.retryable is None && 0 <= i < p.retryable_errors.len()
                && e.code == Some(#[trigger] p.retryable_errors[i]) ==> !gives_up(p, attempt, e),
{
    assert forall|i: int|
        attempt < p.max_attempts && e.retryable is None && 0 <= i < p.retryable_errors.len()
            && e.code == Some(#[trigger] p.retryable_errors[i]) implies !gives_up(p, attempt, e) by {
        matching_codes_are_retried(p, e, i);
    }
}

/// The policy of a tool: as many attempts as it declares where it may be
/// called again, and one otherwise; its own timeout before the default one;
/// its own backoff and filters.
pub proof fn policies_follow_effects(e: EffectsV, default_timeout_ms: Option<u64>)
    ensures
        ({
            let p = policy_for(Some(e), default_timeout_ms);
            &&& e.timeout_ms is Some ==> p.timeout_ms == e.timeout_ms
            &&& e.timeout_ms is None ==> p.timeout_ms == default_timeout_ms
            &&& e.retry matches Some(retry) ==> {
                &&& (e.idempotent || e.pure) && retry.max_attempts >= 1 ==> p.max_attempts
                    == retry.max_attempts
                &&& p.max_attempts >= 1
                &&& !e.idempotent && !e.pure ==> p.max_attempts == 1
                &&& retry.backoff_ms is Some ==> Some(p.backoff_ms) == retry.backoff_ms
                &&& retry.backoff_ms is None ==> p.backoff_ms == 100
                &&& p.retryable_errors == in_order(retry.retryable_errors)
            }
            &&& e.retry is None ==> p.max_attempts == 1 && p.retryable_errors.len() == 0
        }),
        policy_for(None, default_timeout_ms).timeout_ms == default_timeout_ms,
        policy_for(None, default_timeout_ms).max_attempts == 1,
{
}

proof fn lemma_doubled_grows(n: nat)
    ensures
        doubled(n) >= 1,
        doubled((n + 1) as nat) == 2 * doubled(n),
    decreases n,
{
    if n > 0 {
        lemma_doubled_grows((n - 1) as nat);
    }
}

/// The first delay is the declared one; each further one doubles it up to the
/// ceiling of five seconds.
pub proof fn delays_double(backoff_ms: u64, attempt: u8)
    requires
        1 <= attempt < 17,
    ensures
        backoff_ms <= 5000 ==> base_delay(backoff_ms, 1) == backoff_ms,
        backoff_ms > 5000 ==> base_delay(backoff_ms, 1) == 5000,
        2 * base_delay(backoff_ms, attempt) <= 5000 ==> base_delay(backoff_ms, (attempt + 1) as u8)
            == 2 * base_delay(backoff_ms, attempt),
        2 * base_delay(backoff_ms, attempt) > 5000 ==> base_delay(backoff_ms, (attempt + 1) as u8)
            == 5000,
{
    let n = (attempt - 1) as nat;
    lemma_doubled_grows(n);
    let b = backoff_ms as nat;
    let d = doubled(n);
    assert(b * (2 * d) == 2 * (b * d)) by (nonlinear_arith);
    assert(b * 1 == b);
}

/// Without jitter the delay is the undisturbed one, and no delay is longer
/// than five seconds.
pub proof fn delays_have_a_ceiling(backoff_ms: u64, attempt: u8, nanos: u64)
    ensures
        delay(backoff_ms, attempt, 0) == base_delay(backoff_ms, attempt),
        delay(backoff_ms, attempt, nanos) <= 5000,
        base_delay(backoff_ms, attempt) + nanos <= 5000 && nanos <= base_delay(backoff_ms, attempt)
            / 4 ==> delay(backoff_ms, attempt, nanos) == base_delay(backoff_ms, attempt) + nanos,
{
    let base = base_delay(backoff_ms, attempt);
    assert(0nat % (base / 4 + 1) == 0) by (nonlinear_arith)
        requires
            base >= 0,
    ;
    if nanos <= base / 4 {
        vstd::arithmetic::div_mod::lemma_small_mod(nanos as nat, (base / 4 + 1) as nat);
    }
}

/// A call that runs out of time fails with the code `timeout` and leaves the
/// verdict to the filters.
pub proof fn timeouts_are_coded(p: PolicyV, limit_ms: u64, i: int)
    ensures
        timed_out(limit_ms).code == Some("timeout"@),
        timed_out(limit_ms).retryable is None,
        p.retryable_errors.len() == 0 ==> retryable(p, timed_out(limit_ms)),
        0 <= i < p.retryable_errors.len() && p.retryable_errors[i] == "timeout"@ ==> retryable(
            p,
            timed_out(limit_ms),
        ),
{
    if 0 <= i < p.retryable_errors.len() && p.retryable_errors[i] == "timeout"@ {
        matching_codes_are_retried(p, timed_out(limit_ms), i);
    }
}

} // verus!
