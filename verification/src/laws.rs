//! The laws of the limiter, each proved of the model: burst capacity,
//! per-key independence, refill correctness and cap enforcement, determinism,
//! drift-free refill, the VIP override, and pruning.

use crate::bucket::fresh_bucket;
use crate::bucket::lemma_bucket_request_wf;
use crate::bucket::lemma_refill_drift_free;
use crate::bucket::lemma_refill_noop;
use crate::bucket::lemma_refill_wf;
use crate::bucket::nat_min;
use crate::bucket::sat_sub;
use crate::bucket::spec_refill;
use crate::bucket::BucketModel;
use crate::limiter::empty_limiter;
use crate::limiter::spec_limiter_request;
use crate::limiter::spec_prune;
use crate::limiter::spec_set_vip;
use crate::limiter::LimiterModel;
use vstd::arithmetic::div_mod::lemma_div_is_ordered;
use vstd::arithmetic::div_mod::lemma_div_by_self;
use vstd::arithmetic::mul::lemma_mul_inequality;
use vstd::prelude::*;

verus! {

/// One request as the model sees it: a key and the timestamp it arrives at.
pub ghost struct Call {
    pub key: Seq<char>,
    pub now: nat,
}

/// Every timestamp in the sequence is machine-representable.
pub open spec fn calls_ok(calls: Seq<Call>) -> bool {
    forall|i: int| 0 <= i < calls.len() ==> (#[trigger] calls[i]).now <= u64::MAX
}

/// The limiter state after serving the calls in order.
pub open spec fn run_state(l: LimiterModel, calls: Seq<Call>) -> LimiterModel
    decreases calls.len(),
{
    if calls.len() == 0 {
        l
    } else {
        run_state(spec_limiter_request(l, calls[0].key, calls[0].now).0, calls.skip(1))
    }
}

/// The admission decisions for the calls, in order.
pub open spec fn run_outcomes(l: LimiterModel, calls: Seq<Call>) -> Seq<bool>
    decreases calls.len(),
{
    if calls.len() == 0 {
        Seq::empty()
    } else {
        seq![spec_limiter_request(l, calls[0].key, calls[0].now).1] + run_outcomes(
            spec_limiter_request(l, calls[0].key, calls[0].now).0,
            calls.skip(1),
        )
    }
}

/// `n` requests for the same key, all at time `now`.
pub open spec fn repeat_call(k: Seq<char>, now: nat, n: nat) -> Seq<Call> {
    Seq::new(n, |i: int| Call { key: k, now: now })
}

/// There is one decision per call.
pub proof fn lemma_run_outcomes_len(l: LimiterModel, calls: Seq<Call>)
    ensures
        run_outcomes(l, calls).len() == calls.len(),
    decreases calls.len(),
{
    if calls.len() > 0 {
        lemma_run_outcomes_len(spec_limiter_request(l, calls[0].key, calls[0].now).0, calls.skip(1));
    }
}

/// One request preserves well-formedness of the limiter model.
pub proof fn lemma_step_wf(l: LimiterModel, k: Seq<char>, now: nat)
    requires
        l.wf(),
        now <= u64::MAX,
    ensures
        spec_limiter_request(l, k, now).0.wf(),
{
    let b0 = if l.buckets.dom().contains(k) {
        l.buckets[k]
    } else {
        fresh_bucket(l.default_size, l.default_rate, l.default_interval, now)
    };
    lemma_bucket_request_wf(b0, now);
}

/// Cap enforcement as an invariant: serving any sequence of requests keeps
/// the limiter well-formed, so no bucket ever holds more tokens than its
/// size.
pub proof fn lemma_run_wf(l: LimiterModel, calls: Seq<Call>)
    requires
        l.wf(),
        calls_ok(calls),
    ensures
        run_state(l, calls).wf(),
    decreases calls.len(),
{
    if calls.len() > 0 {
        lemma_step_wf(l, calls[0].key, calls[0].now);
        lemma_run_wf(spec_limiter_request(l, calls[0].key, calls[0].now).0, calls.skip(1));
    }
}

/// Requests for a key whose bucket needs no refill (less than one interval
/// has passed since its anchor) are admitted exactly while tokens remain:
/// of `n` such requests, the first `tokens` are admitted and the rest are
/// denied, and the bucket ends with its anchor unchanged and its token count
/// reduced by `n`, saturating at zero.
pub proof fn lemma_repeat_requests(l: LimiterModel, k: Seq<char>, now: nat, n: nat)
    requires
        l.wf(),
        now <= u64::MAX,
        l.buckets.dom().contains(k),
        sat_sub(now, l.buckets[k].last_filled) < l.buckets[k].refill_interval,
    ensures
        forall|i: int|
            0 <= i < n ==> (run_outcomes(l, repeat_call(k, now, n))[i] <==> i < l.buckets[k].tokens),
        run_state(l, repeat_call(k, now, n)).buckets.dom().contains(k),
        run_state(l, repeat_call(k, now, n)).buckets[k].tokens == sat_sub(
            l.buckets[k].tokens,
            n,
        ),
        run_state(l, repeat_call(k, now, n)).buckets[k].last_filled == l.buckets[k].last_filled,
        run_state(l, repeat_call(k, now, n)).buckets[k].size == l.buckets[k].size,
        run_state(l, repeat_call(k, now, n)).buckets[k].refill_rate == l.buckets[k].refill_rate,
        run_state(l, repeat_call(k, now, n)).buckets[k].refill_interval == l.buckets[
            k
        ].refill_interval,
    decreases n,
{
    let calls = repeat_call(k, now, n);
    lemma_run_outcomes_len(l, calls);
    if n > 0 {
        let b0 = l.buckets[k];
        lemma_refill_noop(b0, now);
        let step = spec_limiter_request(l, k, now);
        let l1 = step.0;
        lemma_step_wf(l, k, now);
        assert(l1.buckets[k].last_filled == b0.last_filled);
        assert(l1.buckets[k].tokens == sat_sub(b0.tokens, 1));
        assert(step.1 <==> b0.tokens > 0);
        assert(calls.skip(1) =~= repeat_call(k, now, (n - 1) as nat));
        lemma_repeat_requests(l1, k, now, (n - 1) as nat);
        lemma_run_outcomes_len(l1, calls.skip(1));
        let out = run_outcomes(l, calls);
        let out1 = run_outcomes(l1, calls.skip(1));
        assert forall|i: int| 0 <= i < n implies (out[i] <==> i < b0.tokens) by {
            if i == 0 {
                assert(out[0] == step.1);
            } else {
                assert(out[i] == out1[i - 1]);
                assert(out1[i - 1] <==> i - 1 < l1.buckets[k].tokens);
            }
        }
        assert(sat_sub(sat_sub(b0.tokens, 1), (n - 1) as nat) == sat_sub(b0.tokens, n));
    }
}

/// Burst capacity: on a fresh limiter with default bucket size `size`, of
/// any number of immediate requests for one key (no time passing), exactly
/// the first `size` are admitted and every later one is denied.
pub proof fn lemma_fresh_burst(
    size: nat,
    rate: nat,
    interval: nat,
    k: Seq<char>,
    now: nat,
    n: nat,
)
    requires
        1 <= size <= u32::MAX,
        1 <= rate <= u32::MAX,
        1 <= interval <= u64::MAX,
        now <= u64::MAX,
    ensures
        forall|i: int|
            0 <= i < n ==> (run_outcomes(empty_limiter(size, rate, interval), repeat_call(k, now, n))[i]
                <==> i < size),
    decreases n,
{
    let l = empty_limiter(size, rate, interval);
    let calls = repeat_call(k, now, n);
    lemma_run_outcomes_len(l, calls);
    if n > 0 {
        let b0 = fresh_bucket(size, rate, interval, now);
        lemma_refill_noop(b0, now);
        let step = spec_limiter_request(l, k, now);
        let l1 = step.0;
        lemma_step_wf(l, k, now);
        assert(step.1);
        assert(l1.buckets[k].tokens == size - 1);
        assert(l1.buckets[k].last_filled == now);
        assert(calls.skip(1) =~= repeat_call(k, now, (n - 1) as nat));
        lemma_repeat_requests(l1, k, now, (n - 1) as nat);
        lemma_run_outcomes_len(l1, calls.skip(1));
        let out = run_outcomes(l, calls);
        let out1 = run_outcomes(l1, calls.skip(1));
        assert forall|i: int| 0 <= i < n implies (out[i] <==> i < size) by {
            if i == 0 {
                assert(out[0] == step.1);
            } else {
                assert(out[i] == out1[i - 1]);
                assert(out1[i - 1] <==> i - 1 < l1.buckets[k].tokens);
            }
        }
    }
}

/// Independence, one step: a request for `k1` neither moves `k2`'s bucket
/// nor changes the outcome a request for `k2` would get, for any other key.
pub proof fn lemma_independence(
    l: LimiterModel,
    k1: Seq<char>,
    k2: Seq<char>,
    now1: nat,
    now2: nat,
)
    requires
        k1 != k2,
    ensures
        spec_limiter_request(l, k1, now1).0.buckets.dom().contains(k2) == l.buckets.dom().contains(
            k2,
        ),
        l.buckets.dom().contains(k2) ==> spec_limiter_request(l, k1, now1).0.buckets[k2]
            == l.buckets[k2],
        spec_limiter_request(spec_limiter_request(l, k1, now1).0, k2, now2).1
            == spec_limiter_request(l, k2, now2).1,
{
}

/// Independence, any number of steps: requests for other keys — however many,
/// enough to exhaust their buckets included — never move `k`'s bucket nor
/// change the outcome of `k`'s next request.
pub proof fn lemma_independence_many(l: LimiterModel, calls: Seq<Call>, k: Seq<char>, now: nat)
    requires
        forall|i: int| 0 <= i < calls.len() ==> (#[trigger] calls[i]).key != k,
    ensures
        run_state(l, calls).buckets.dom().contains(k) == l.buckets.dom().contains(k),
        l.buckets.dom().contains(k) ==> run_state(l, calls).buckets[k] == l.buckets[k],
        run_state(l, calls).default_size == l.default_size,
        run_state(l, calls).default_rate == l.default_rate,
        run_state(l, calls).default_interval == l.default_interval,
        spec_limiter_request(run_state(l, calls), k, now).1 == spec_limiter_request(l, k, now).1,
    decreases calls.len(),
{
    if calls.len() > 0 {
        let l1 = spec_limiter_request(l, calls[0].key, calls[0].now).0;
        lemma_independence_many(l1, calls.skip(1), k, now);
    }
}

/// Determinism: the decisions and the final state are functions of the
/// initial state and the `(key, timestamp)` sequence alone, so any
/// interleaving of callers that serializes into the same per-key order
/// observes the same outcomes.
pub proof fn lemma_deterministic(l1: LimiterModel, l2: LimiterModel, calls: Seq<Call>)
    requires
        l1 == l2,
    ensures
        run_outcomes(l1, calls) == run_outcomes(l2, calls),
        run_state(l1, calls) == run_state(l2, calls),
{
}

/// The bucket after refilling at each time in `times`, in order.
pub open spec fn refill_times(b: BucketModel, times: Seq<nat>) -> BucketModel
    decreases times.len(),
{
    if times.len() == 0 {
        b
    } else {
        refill_times(spec_refill(b, times[0]), times.skip(1))
    }
}

/// Drift-free refill, any number of times: refilling at every intermediate
/// time in `times` and then at `t` leaves the bucket exactly as the single
/// refill at `t` would — repeated refills in rapid succession can neither
/// add tokens nor lose credit compared to one refill over the same total
/// elapsed time.
pub proof fn lemma_refill_many_drift_free(b: BucketModel, times: Seq<nat>, t: nat)
    requires
        b.wf(),
        t <= u64::MAX,
        times.len() > 0 ==> b.last_filled <= times[0],
        forall|i: int, j: int| 0 <= i <= j < times.len() ==> times[i] <= times[j],
        forall|i: int| 0 <= i < times.len() ==> (#[trigger] times[i]) <= t,
    ensures
        spec_refill(refill_times(b, times), t) == spec_refill(b, t),
    decreases times.len(),
{
    if times.len() > 0 {
        let b1 = spec_refill(b, times[0]);
        lemma_refill_wf(b, times[0]);
        assert(b1.last_filled <= times[0]);
        lemma_refill_many_drift_free(b1, times.skip(1), t);
        lemma_refill_drift_free(b, times[0], t);
    }
}

/// VIP override: right after `set_vip`, the key's bucket is exactly a fresh
/// bucket with the requested size and rate (and the limiter's default
/// interval), and the key's very next request — at any later or equal or
/// even earlier timestamp — is admitted, whatever the key's history was.
pub proof fn lemma_vip_override(
    l: LimiterModel,
    k: Seq<char>,
    size: nat,
    rate: nat,
    now: nat,
    later: nat,
)
    requires
        l.wf(),
        1 <= size <= u32::MAX,
        1 <= rate <= u32::MAX,
        now <= u64::MAX,
        later <= u64::MAX,
    ensures
        spec_set_vip(l, k, size, rate, now).buckets[k] == fresh_bucket(
            size,
            rate,
            l.default_interval,
            now,
        ),
        spec_limiter_request(spec_set_vip(l, k, size, rate, now), k, later).1 == true,
{
    let b0 = fresh_bucket(size, rate, l.default_interval, now);
    let r = spec_refill(b0, later);
    if later >= now {
        assert(r.tokens == nat_min(
            size + ((later - now) as nat / l.default_interval) * rate,
            size,
        ));
        assert(((later - now) as nat / l.default_interval) * rate >= 0);
        assert(r.tokens == size);
    } else {
        assert(r == b0);
    }
    assert(r.tokens >= 1);
}

/// Refill correctness: once a key's bucket is exhausted, waiting at least
/// one full refill interval admits at least `min(refill_rate, size)` further
/// requests for that key, all made at the moment the wait ends.
pub proof fn lemma_refill_after_wait(l: LimiterModel, k: Seq<char>, now: nat, n: nat)
    requires
        l.wf(),
        now <= u64::MAX,
        l.buckets.dom().contains(k),
        l.buckets[k].tokens == 0,
        now >= l.buckets[k].last_filled + l.buckets[k].refill_interval,
        n <= nat_min(l.buckets[k].refill_rate, l.buckets[k].size),
    ensures
        forall|i: int| 0 <= i < n ==> run_outcomes(l, repeat_call(k, now, n))[i] == true,
{
    let calls = repeat_call(k, now, n);
    lemma_run_outcomes_len(l, calls);
    if n > 0 {
        let b0 = l.buckets[k];
        let iv = b0.refill_interval;
        let elapsed = (now - b0.last_filled) as nat;
        let q = elapsed / iv;
        assert(iv / iv == 1) by {
            lemma_div_by_self(iv as int);
        }
        assert(q >= 1) by {
            lemma_div_is_ordered(iv as int, elapsed as int, iv as int);
        }
        assert(q * b0.refill_rate >= 1 * b0.refill_rate) by {
            lemma_mul_inequality(1, q as int, b0.refill_rate as int);
        }
        let r = spec_refill(b0, now);
        lemma_refill_wf(b0, now);
        assert(r.tokens == nat_min(q * b0.refill_rate, b0.size));
        assert(r.tokens >= nat_min(b0.refill_rate, b0.size));
        assert(r.tokens >= n);
        let step = spec_limiter_request(l, k, now);
        let l1 = step.0;
        lemma_step_wf(l, k, now);
        assert(step.1);
        assert(l1.buckets[k].tokens == r.tokens - 1);
        assert(l1.buckets[k].last_filled == r.last_filled);
        assert(sat_sub(now, r.last_filled) < iv);
        assert(calls.skip(1) =~= repeat_call(k, now, (n - 1) as nat));
        lemma_repeat_requests(l1, k, now, (n - 1) as nat);
        lemma_run_outcomes_len(l1, calls.skip(1));
        let out = run_outcomes(l, calls);
        let out1 = run_outcomes(l1, calls.skip(1));
        assert forall|i: int| 0 <= i < n implies out[i] == true by {
            if i == 0 {
                assert(out[0] == step.1);
            } else {
                assert(out[i] == out1[i - 1]);
                assert(out1[i - 1] <==> i - 1 < l1.buckets[k].tokens);
            }
        }
    }
}

/// Whether a call is for key `k`.
pub open spec fn for_key(k: Seq<char>) -> spec_fn(Call) -> bool {
    |c: Call| c.key == k
}

/// The calls in `calls` that are for key `k`, in order.
pub open spec fn calls_for(calls: Seq<Call>, k: Seq<char>) -> Seq<Call> {
    calls.filter(for_key(k))
}

/// The decisions that key `k`'s requests receive within a mixed sequence,
/// in order.
pub open spec fn run_outcomes_for(l: LimiterModel, calls: Seq<Call>, k: Seq<char>) -> Seq<bool>
    decreases calls.len(),
{
    if calls.len() == 0 {
        Seq::empty()
    } else {
        let step = spec_limiter_request(l, calls[0].key, calls[0].now);
        let rest = run_outcomes_for(step.0, calls.skip(1), k);
        if calls[0].key == k {
            seq![step.1] + rest
        } else {
            rest
        }
    }
}

/// Two limiters that agree on `k`'s bucket and on the defaults hand a
/// sequence of requests for `k` the same decisions.
proof fn lemma_outcomes_local_to_key(
    l1: LimiterModel,
    l2: LimiterModel,
    calls: Seq<Call>,
    k: Seq<char>,
)
    requires
        forall|i: int| 0 <= i < calls.len() ==> (#[trigger] calls[i]).key == k,
        l1.buckets.dom().contains(k) == l2.buckets.dom().contains(k),
        l1.buckets.dom().contains(k) ==> l1.buckets[k] == l2.buckets[k],
        l1.default_size == l2.default_size,
        l1.default_rate == l2.default_rate,
        l1.default_interval == l2.default_interval,
    ensures
        run_outcomes(l1, calls) == run_outcomes(l2, calls),
    decreases calls.len(),
{
    if calls.len() > 0 {
        let s1 = spec_limiter_request(l1, calls[0].key, calls[0].now);
        let s2 = spec_limiter_request(l2, calls[0].key, calls[0].now);
        assert(s1.1 == s2.1);
        lemma_outcomes_local_to_key(s1.0, s2.0, calls.skip(1), k);
    }
}

/// Serialization per key: within any mixed sequence of calls, the decisions
/// key `k`'s requests receive are exactly the decisions `k`'s calls would
/// receive run on their own, other keys' traffic notwithstanding. Together
/// with determinism, the outcome of every request depends only on the
/// per-key serial order.
pub proof fn lemma_serialized_per_key(l: LimiterModel, calls: Seq<Call>, k: Seq<char>)
    ensures
        run_outcomes_for(l, calls, k) == run_outcomes(l, calls_for(calls, k)),
    decreases calls.len(),
{
    reveal(Seq::filter);
    let p = for_key(k);
    if calls.len() > 0 {
        let c0 = calls[0];
        let step = spec_limiter_request(l, c0.key, c0.now);
        lemma_serialized_per_key(step.0, calls.skip(1), k);
        assert(calls =~= seq![c0] + calls.skip(1));
        Seq::<Call>::filter_distributes_over_add(seq![c0], calls.skip(1), p);
        assert(seq![c0].drop_last() =~= Seq::<Call>::empty());
        assert(Seq::<Call>::empty().filter(p) =~= Seq::<Call>::empty());
        if c0.key == k {
            assert(seq![c0].filter(p) =~= seq![c0]);
            let tail = calls_for(calls.skip(1), k);
            assert(calls_for(calls, k) =~= seq![c0] + tail);
            assert((seq![c0] + tail)[0] == c0);
            assert((seq![c0] + tail).skip(1) =~= tail);
            assert(run_outcomes(l, calls_for(calls, k)) == seq![step.1] + run_outcomes(
                step.0,
                tail,
            ));
        } else {
            assert(seq![c0].filter(p) =~= Seq::<Call>::empty());
            let tail = calls_for(calls.skip(1), k);
            assert(calls_for(calls, k) =~= tail);
            assert forall|i: int| 0 <= i < tail.len() implies (#[trigger] tail[i]).key == k by {
                Seq::<Call>::lemma_filter_pred(calls.skip(1), p, i);
            }
            lemma_outcomes_local_to_key(step.0, l, tail, k);
        }
    }
}

/// Pruning: after `prune`, a key owns a bucket exactly when it owned one
/// before and no more than `age` nanoseconds had passed since that bucket's
/// anchor; every surviving bucket is unchanged.
pub proof fn lemma_prune_membership(l: LimiterModel, age: nat, now: nat, k: Seq<char>)
    ensures
        spec_prune(l, age, now).buckets.dom().contains(k) <==> (l.buckets.dom().contains(k)
            && sat_sub(now, l.buckets[k].last_filled) <= age),
        spec_prune(l, age, now).buckets.dom().contains(k) ==> spec_prune(l, age, now).buckets[k]
            == l.buckets[k],
{
}

} // verus!

