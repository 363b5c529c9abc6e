//! The token bucket for a single key: its mathematical model, the executable
//! state, and the refill arithmetic.
//!
//! Timestamps and durations are nanosecond counts. A refill credits
//! `refill_rate` tokens for every whole `refill_interval` that has elapsed
//! since `last_filled`, capped at `size`, and then re-anchors `last_filled`
//! to the current time minus the leftover fraction of an interval, so that
//! repeated refills never credit the same elapsed time twice and integer
//! truncation never accumulates into drift.

use vstd::arithmetic::div_mod::lemma_basic_div;
use vstd::arithmetic::div_mod::lemma_div_multiples_vanish_fancy;
use vstd::arithmetic::div_mod::lemma_fundamental_div_mod;
use vstd::arithmetic::div_mod::lemma_mod_decreases;
use vstd::arithmetic::div_mod::lemma_mod_division_less_than_divisor;
use vstd::arithmetic::div_mod::lemma_mod_multiples_vanish;
use vstd::arithmetic::div_mod::lemma_small_mod;
use vstd::arithmetic::mul::lemma_mul_is_distributive_add;
use vstd::arithmetic::mul::lemma_mul_is_distributive_add_other_way;
use vstd::arithmetic::mul::lemma_mul_upper_bound;
use vstd::prelude::*;

verus! {

/// The smaller of two natural numbers.
pub open spec fn nat_min(a: nat, b: nat) -> nat {
    if a <= b {
        a
    } else {
        b
    }
}

/// `a - b`, saturating at zero.
pub open spec fn sat_sub(a: nat, b: nat) -> nat {
    if a >= b {
        (a - b) as nat
    } else {
        0
    }
}

/// `x + 1`, saturating at the largest value a 64-bit counter can hold.
pub open spec fn sat_inc64(x: nat) -> nat {
    if x < u64::MAX {
        x + 1
    } else {
        x
    }
}

/// The mathematical state of one token bucket.
pub ghost struct BucketModel {
    /// Maximum tokens the bucket can hold (burst allowance).
    pub size: nat,
    /// Tokens currently available.
    pub tokens: nat,
    /// Tokens credited per elapsed refill interval.
    pub refill_rate: nat,
    /// Length of one refill interval, in nanoseconds.
    pub refill_interval: nat,
    /// The timestamp the token count was last reconciled to, in nanoseconds.
    pub last_filled: nat,
    /// Requests this bucket has admitted.
    pub allowed: nat,
    /// Requests this bucket has denied.
    pub denied: nat,
}

impl BucketModel {
    /// Well-formedness: positive, machine-representable parameters and a
    /// token count that never exceeds the bucket's size.
    pub open spec fn wf(self) -> bool {
        &&& 1 <= self.size <= u32::MAX
        &&& self.tokens <= self.size
        &&& 1 <= self.refill_rate <= u32::MAX
        &&& 1 <= self.refill_interval <= u64::MAX
        &&& self.last_filled <= u64::MAX
        &&& self.allowed <= u64::MAX
        &&& self.denied <= u64::MAX
    }
}

/// A bucket as it stands right after construction: full, anchored at `now`,
/// with zeroed counters.
pub open spec fn fresh_bucket(size: nat, rate: nat, interval: nat, now: nat) -> BucketModel {
    BucketModel {
        size: size,
        tokens: size,
        refill_rate: rate,
        refill_interval: interval,
        last_filled: now,
        allowed: 0,
        denied: 0,
    }
}

/// What a refill at time `now` does to a bucket: credit `refill_rate` tokens
/// per whole interval elapsed since `last_filled`, cap at `size`, and anchor
/// `last_filled` to `now` minus the leftover fraction of an interval.
/// A timestamp earlier than the anchor credits nothing and changes nothing.
pub open spec fn spec_refill(b: BucketModel, now: nat) -> BucketModel {
    if now < b.last_filled {
        b
    } else {
        let elapsed: nat = (now - b.last_filled) as nat;
        let intervals: nat = elapsed / b.refill_interval;
        let remainder: nat = elapsed % b.refill_interval;
        BucketModel {
            tokens: nat_min(b.tokens + intervals * b.refill_rate, b.size),
            last_filled: (now - remainder) as nat,
            ..b
        }
    }
}

/// What a request at time `now` does to a bucket: refill, then consume one
/// token if any is available. Returns the new bucket and the admission
/// decision.
pub open spec fn spec_bucket_request(b: BucketModel, now: nat) -> (BucketModel, bool) {
    let r: BucketModel = spec_refill(b, now);
    if r.tokens > 0 {
        (
            BucketModel { tokens: (r.tokens - 1) as nat, allowed: sat_inc64(r.allowed), ..r },
            true,
        )
    } else {
        (BucketModel { denied: sat_inc64(r.denied), ..r }, false)
    }
}

/// A refill preserves well-formedness; in particular the token count never
/// exceeds the bucket's size, and the new anchor lies at or before `now`.
pub proof fn lemma_refill_wf(b: BucketModel, now: nat)
    requires
        b.wf(),
        now <= u64::MAX,
    ensures
        spec_refill(b, now).wf(),
        spec_refill(b, now).tokens <= b.size,
        spec_refill(b, now).last_filled <= if now >= b.last_filled {
            now
        } else {
            b.last_filled
        },
{
    if now >= b.last_filled {
        let elapsed: nat = (now - b.last_filled) as nat;
        lemma_mod_division_less_than_divisor(elapsed as int, b.refill_interval as int);
        lemma_mod_decreases(elapsed, b.refill_interval);
    }
}

/// A request preserves well-formedness.
pub proof fn lemma_bucket_request_wf(b: BucketModel, now: nat)
    requires
        b.wf(),
        now <= u64::MAX,
    ensures
        spec_bucket_request(b, now).0.wf(),
{
    lemma_refill_wf(b, now);
}

/// When less than one full interval has elapsed since the anchor (or the
/// timestamp lies before the anchor), a refill changes nothing.
pub proof fn lemma_refill_noop(b: BucketModel, now: nat)
    requires
        b.wf(),
        sat_sub(now, b.last_filled) < b.refill_interval,
    ensures
        spec_refill(b, now) == b,
{
    if now >= b.last_filled {
        let elapsed: nat = (now - b.last_filled) as nat;
        lemma_basic_div(elapsed as int, b.refill_interval as int);
        lemma_small_mod(elapsed, b.refill_interval);
        assert(spec_refill(b, now).tokens == nat_min(b.tokens + 0 * b.refill_rate, b.size));
        assert(0 * b.refill_rate == 0);
        assert(nat_min(b.tokens, b.size) == b.tokens);
    }
}

/// Drift-free refill: refilling at `t1` and then at `t2` leaves the bucket in
/// exactly the state a single refill at `t2` would, whole state included.
/// Integer truncation at `t1` is compensated by the remainder anchoring, so
/// no sequence of intermediate refills can ever lose or duplicate credit.
pub proof fn lemma_refill_drift_free(b: BucketModel, t1: nat, t2: nat)
    requires
        b.wf(),
        b.last_filled <= t1 <= t2,
    ensures
        spec_refill(spec_refill(b, t1), t2) == spec_refill(b, t2),
{
    let iv: int = b.refill_interval as int;
    let e1: int = t1 - b.last_filled;
    let q1: int = e1 / iv;
    let r1: int = e1 % iv;
    lemma_mod_division_less_than_divisor(e1, iv);
    lemma_mod_decreases((t1 - b.last_filled) as nat, b.refill_interval);
    let b1: BucketModel = spec_refill(b, t1);
    assert(b1.last_filled == t1 - r1);
    assert(b1.last_filled <= t2);

    let e2: int = t2 - b1.last_filled;
    assert(e2 == t2 - t1 + r1);
    let q2: int = e2 / iv;
    let r2: int = e2 % iv;
    lemma_fundamental_div_mod(e2, iv);
    lemma_mod_division_less_than_divisor(e2, iv);

    let e: int = t2 - b.last_filled;
    lemma_fundamental_div_mod(e1, iv);
    assert(e == iv * q1 + r1 + (t2 - t1));
    assert(e == iv * q1 + e2);
    assert(e == iv * q1 + (iv * q2 + r2));
    assert(iv * (q1 + q2) == iv * q1 + iv * q2) by {
        lemma_mul_is_distributive_add(iv, q1, q2);
    }
    assert(e == iv * (q1 + q2) + r2);
    lemma_div_multiples_vanish_fancy(q1 + q2, r2, iv);
    assert(e / iv == q1 + q2);
    lemma_mod_multiples_vanish(q1 + q2, r2, iv);
    lemma_small_mod(r2 as nat, b.refill_interval);
    assert(e % iv == r2);

    // The two anchors agree.
    assert(spec_refill(b, t2).last_filled == t2 - r2);
    assert(spec_refill(b1, t2).last_filled == t2 - r2);

    // The two token counts agree: capping at `size` in the middle cannot
    // change the final capped sum.
    let rate: int = b.refill_rate as int;
    assert((q1 + q2) * rate == q1 * rate + q2 * rate) by {
        lemma_mul_is_distributive_add_other_way(rate, q1, q2);
    }
    let a: int = b.tokens + q1 * rate;
    let s: int = b.size as int;
    assert(q2 * rate >= 0);
    assert(b1.tokens == nat_min((b.tokens + q1 * rate) as nat, b.size));
    if a <= s {
        assert(b1.tokens == a);
    } else {
        assert(b1.tokens == s);
        assert(b.tokens + (q1 + q2) * rate >= s);
    }
    assert(spec_refill(b1, t2).tokens == spec_refill(b, t2).tokens);
}

/// The executable token bucket for one key.
#[derive(Clone, Copy)]
pub struct Bucket {
    pub size: u32,
    pub tokens: u32,
    pub refill_rate: u32,
    pub refill_interval: u64,
    pub last_filled: u64,
    pub allowed: u64,
    pub denied: u64,
}

impl View for Bucket {
    type V = BucketModel;

    open spec fn view(&self) -> BucketModel {
        BucketModel {
            size: self.size as nat,
            tokens: self.tokens as nat,
            refill_rate: self.refill_rate as nat,
            refill_interval: self.refill_interval as nat,
            last_filled: self.last_filled as nat,
            allowed: self.allowed as nat,
            denied: self.denied as nat,
        }
    }
}

impl Bucket {
    /// Well-formedness of the executable state, stated on the model.
    pub open spec fn wf(&self) -> bool {
        self@.wf()
    }

    /// Construct a full bucket anchored at `now`.
    pub(crate) fn make(size: u32, refill_rate: u32, refill_interval: u64, now: u64) -> (b: Bucket)
        requires
            1 <= size,
            1 <= refill_rate,
            1 <= refill_interval,
        ensures
            b@ == fresh_bucket(size as nat, refill_rate as nat, refill_interval as nat, now as nat),
            b.wf(),
    {
        Bucket {
            size,
            tokens: size,
            refill_rate,
            refill_interval,
            last_filled: now,
            allowed: 0,
            denied: 0,
        }
    }

    /// Reconcile the token count with the time elapsed up to `now`.
    pub(crate) fn refill(&mut self, now: u64)
        requires
            old(self).wf(),
        ensures
            final(self)@ == spec_refill(old(self)@, now as nat),
            final(self).wf(),
    {
        proof {
            lemma_refill_wf(old(self)@, now as nat);
        }
        if now >= self.last_filled {
            let elapsed: u64 = now - self.last_filled;
            let intervals: u64 = elapsed / self.refill_interval;
            proof {
                lemma_mul_upper_bound(
                    intervals as int,
                    u64::MAX as int,
                    self.refill_rate as int,
                    u32::MAX as int,
                );
            }
            let credit: u128 = (intervals as u128) * (self.refill_rate as u128);
            let total: u128 = (self.tokens as u128) + credit;
            if total >= self.size as u128 {
                self.tokens = self.size;
            } else {
                self.tokens = total as u32;
            }
            let remainder: u64 = elapsed % self.refill_interval;
            proof {
                lemma_mod_decreases(elapsed as nat, self.refill_interval as nat);
            }
            self.last_filled = now - remainder;
        }
    }

    /// Refill, then admit the request if a token is available, consuming it.
    /// The per-bucket counters saturate rather than wrap.
    pub(crate) fn request(&mut self, now: u64) -> (admitted: bool)
        requires
            old(self).wf(),
        ensures
            final(self)@ == spec_bucket_request(old(self)@, now as nat).0,
            admitted == spec_bucket_request(old(self)@, now as nat).1,
            final(self).wf(),
    {
        proof {
            lemma_bucket_request_wf(old(self)@, now as nat);
        }
        self.refill(now);
        if self.tokens > 0 {
            self.tokens = self.tokens - 1;
            if self.allowed < u64::MAX {
                self.allowed = self.allowed + 1;
            }
            true
        } else {
            if self.denied < u64::MAX {
                self.denied = self.denied + 1;
            }
            false
        }
    }
}

} // verus!
