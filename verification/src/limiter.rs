//! The rate limiter: one bucket per key, default parameters for first-seen
//! keys, VIP overrides, idle-bucket pruning, and aggregate counters.
//!
//! The limiter's model is a finite map from key (as a sequence of
//! characters) to [`BucketModel`], together with the default parameters and
//! the aggregate counters. Every operation's contract states the whole new
//! model as a function of the old one and the given timestamp.

use crate::bucket::fresh_bucket;
use crate::bucket::sat_inc64;
use crate::bucket::sat_sub;
use crate::bucket::spec_bucket_request;
use crate::bucket::Bucket;
use crate::bucket::BucketModel;
use vstd::prelude::*;

verus! {

/// A rejected limiter configuration: each variant names the parameter that
/// was zero. Checked once, at construction, so that the refill arithmetic
/// never divides by zero and a limiter never admits unboundedly.
#[derive(Clone, Copy, Debug, PartialEq, Eq, Structural)]
pub enum ConfigError {
    /// The default bucket size was zero.
    ZeroBucketSize,
    /// The default refill rate was zero.
    ZeroRefillRate,
    /// The default refill interval was zero.
    ZeroRefillInterval,
}

/// The mathematical state of a rate limiter.
pub ghost struct LimiterModel {
    /// Bucket size given to a key seen for the first time.
    pub default_size: nat,
    /// Refill rate given to a key seen for the first time.
    pub default_rate: nat,
    /// Refill interval, in nanoseconds, of every bucket the limiter creates.
    pub default_interval: nat,
    /// One bucket per key.
    pub buckets: Map<Seq<char>, BucketModel>,
    /// Requests admitted across all keys.
    pub allowed: nat,
    /// Requests denied across all keys.
    pub denied: nat,
}

impl LimiterModel {
    /// Well-formedness: positive, machine-representable defaults; counters
    /// that fit their 64-bit words; every bucket well-formed.
    pub open spec fn wf(self) -> bool {
        &&& 1 <= self.default_size <= u32::MAX
        &&& 1 <= self.default_rate <= u32::MAX
        &&& 1 <= self.default_interval <= u64::MAX
        &&& self.allowed <= u64::MAX
        &&& self.denied <= u64::MAX
        &&& forall|k: Seq<char>|
            self.buckets.dom().contains(k) ==> (#[trigger] self.buckets[k]).wf()
    }
}

/// A freshly constructed limiter: no buckets, zeroed counters.
pub open spec fn empty_limiter(size: nat, rate: nat, interval: nat) -> LimiterModel {
    LimiterModel {
        default_size: size,
        default_rate: rate,
        default_interval: interval,
        buckets: Map::empty(),
        allowed: 0,
        denied: 0,
    }
}

/// Which configuration error `RateLimiter::new` reports, checking the bucket
/// size first, then the refill rate, then the refill interval.
pub open spec fn spec_config_error(size: u32, rate: u32, interval: u64) -> ConfigError {
    if size == 0 {
        ConfigError::ZeroBucketSize
    } else if rate == 0 {
        ConfigError::ZeroRefillRate
    } else {
        ConfigError::ZeroRefillInterval
    }
}

/// What a request for key `k` at time `now` does to the limiter: look up the
/// key's bucket, or conjure a fresh one with the default parameters ("start
/// full"), let the bucket decide, store it back, and count the outcome.
pub open spec fn spec_limiter_request(l: LimiterModel, k: Seq<char>, now: nat) -> (
    LimiterModel,
    bool,
) {
    let b0: BucketModel = if l.buckets.dom().contains(k) {
        l.buckets[k]
    } else {
        fresh_bucket(l.default_size, l.default_rate, l.default_interval, now)
    };
    let step: (BucketModel, bool) = spec_bucket_request(b0, now);
    (
        LimiterModel {
            buckets: l.buckets.insert(k, step.0),
            allowed: if step.1 {
                sat_inc64(l.allowed)
            } else {
                l.allowed
            },
            denied: if step.1 {
                l.denied
            } else {
                sat_inc64(l.denied)
            },
            ..l
        },
        step.1,
    )
}

/// What a VIP override does: the key's bucket becomes a fresh, full bucket
/// with the given size and rate and the limiter's default interval, anchored
/// at `now`; any prior state of the key is discarded.
pub open spec fn spec_set_vip(
    l: LimiterModel,
    k: Seq<char>,
    size: nat,
    rate: nat,
    now: nat,
) -> LimiterModel {
    LimiterModel {
        buckets: l.buckets.insert(k, fresh_bucket(size, rate, l.default_interval, now)),
        ..l
    }
}

/// Whether a bucket survives a prune at time `now` with maximum idle age
/// `age`: it does exactly when no more than `age` nanoseconds have passed
/// since its anchor.
pub open spec fn spec_keep(b: BucketModel, age: nat, now: nat) -> bool {
    sat_sub(now, b.last_filled) <= age
}

/// What a prune does: every bucket idle for longer than `age` is dropped;
/// every other bucket survives unchanged. Defaults and counters are kept.
pub open spec fn spec_prune(l: LimiterModel, age: nat, now: nat) -> LimiterModel {
    LimiterModel {
        buckets: Map::<Seq<char>, BucketModel>::new(
            |k: Seq<char>| l.buckets.dom().contains(k) && spec_keep(l.buckets[k], age, now),
            |k: Seq<char>| l.buckets[k],
        ),
        ..l
    }
}

/// The map a sequence of key/bucket entries denotes: later entries win,
/// though under `unique_keys` the order never matters.
pub open spec fn bucket_map(s: Seq<(String, Bucket)>) -> Map<Seq<char>, BucketModel>
    decreases s.len(),
{
    if s.len() == 0 {
        Map::empty()
    } else {
        bucket_map(s.drop_last()).insert(s.last().0@, s.last().1@)
    }
}

/// No two entries share a key.
pub open spec fn unique_keys(s: Seq<(String, Bucket)>) -> bool {
    forall|i: int, j: int|
        0 <= i < j < s.len() ==> (#[trigger] s[i]).0@ != (#[trigger] s[j]).0@
}

/// The denoted map contains a key exactly when some entry carries it.
pub proof fn lemma_bucket_map_contains(s: Seq<(String, Bucket)>, k: Seq<char>)
    ensures
        bucket_map(s).dom().contains(k) <==> exists|i: int|
            0 <= i < s.len() && (#[trigger] s[i]).0@ == k,
    decreases s.len(),
{
    if s.len() > 0 {
        lemma_bucket_map_contains(s.drop_last(), k);
        if s.last().0@ == k {
            assert((s[s.len() - 1]).0@ == k);
        } else {
            if bucket_map(s).dom().contains(k) {
                let i = choose|i: int| 0 <= i < s.drop_last().len() && (#[trigger] s.drop_last()[i]).0@ == k;
                assert((s[i]).0@ == k);
            }
            if exists|i: int| 0 <= i < s.len() && (#[trigger] s[i]).0@ == k {
                let i = choose|i: int| 0 <= i < s.len() && (#[trigger] s[i]).0@ == k;
                assert(i < s.len() - 1);
                assert((s.drop_last()[i]).0@ == k);
            }
        }
    }
}

/// Under unique keys, the denoted map sends each entry's key to that entry's
/// bucket.
pub proof fn lemma_bucket_map_index(s: Seq<(String, Bucket)>, i: int)
    requires
        unique_keys(s),
        0 <= i < s.len(),
    ensures
        bucket_map(s).dom().contains((s[i]).0@),
        bucket_map(s)[(s[i]).0@] == (s[i]).1@,
    decreases s.len(),
{
    if i == s.len() - 1 {
    } else {
        assert(unique_keys(s.drop_last()));
        lemma_bucket_map_index(s.drop_last(), i);
        assert((s[i]).0@ != s.last().0@);
    }
}

/// Replacing the entry at `i` with one that carries the same key updates the
/// denoted map at exactly that key, and keeps the keys unique.
pub proof fn lemma_bucket_map_update(s: Seq<(String, Bucket)>, i: int, e: (String, Bucket))
    requires
        unique_keys(s),
        0 <= i < s.len(),
        e.0@ == (s[i]).0@,
    ensures
        unique_keys(s.update(i, e)),
        bucket_map(s.update(i, e)) == bucket_map(s).insert(e.0@, e.1@),
    decreases s.len(),
{
    let t = s.update(i, e);
    assert(forall|j: int| 0 <= j < s.len() ==> (#[trigger] t[j]).0@ == (s[j]).0@);
    if i == s.len() - 1 {
        assert(t.drop_last() =~= s.drop_last());
        assert(t.last() == e);
        assert(bucket_map(s.drop_last()).insert(e.0@, e.1@) =~= bucket_map(s.drop_last()).insert(
            s.last().0@,
            s.last().1@,
        ).insert(e.0@, e.1@));
    } else {
        assert(unique_keys(s.drop_last()));
        assert(t.drop_last() =~= s.drop_last().update(i, e));
        assert(t.last() == s.last());
        lemma_bucket_map_update(s.drop_last(), i, e);
        assert((s[i]).0@ != s.last().0@);
        assert(bucket_map(s.drop_last()).insert(e.0@, e.1@).insert(s.last().0@, s.last().1@)
            =~= bucket_map(s.drop_last()).insert(s.last().0@, s.last().1@).insert(e.0@, e.1@));
    }
}

/// Appending an entry with a new key inserts it into the denoted map and
/// keeps the keys unique.
pub proof fn lemma_bucket_map_push(s: Seq<(String, Bucket)>, e: (String, Bucket))
    requires
        unique_keys(s),
        forall|i: int| 0 <= i < s.len() ==> (#[trigger] s[i]).0@ != e.0@,
    ensures
        unique_keys(s.push(e)),
        bucket_map(s.push(e)) == bucket_map(s).insert(e.0@, e.1@),
{
    assert(s.push(e).drop_last() =~= s);
    assert(s.push(e).last() == e);
}

/// Under unique keys, the denoted map has exactly one key per entry.
pub proof fn lemma_bucket_map_len(s: Seq<(String, Bucket)>)
    requires
        unique_keys(s),
    ensures
        bucket_map(s).dom().finite(),
        bucket_map(s).dom().len() == s.len(),
    decreases s.len(),
{
    if s.len() > 0 {
        assert(unique_keys(s.drop_last()));
        lemma_bucket_map_len(s.drop_last());
        lemma_bucket_map_contains(s.drop_last(), s.last().0@);
        assert(forall|i: int|
            0 <= i < s.drop_last().len() ==> (#[trigger] s.drop_last()[i]).0@ != s.last().0@);
        assert(!bucket_map(s.drop_last()).dom().contains(s.last().0@));
    }
}

/// The entries a prune at time `now` with maximum idle age `age` keeps.
pub open spec fn keep_pred(age: nat, now: nat) -> spec_fn((String, Bucket)) -> bool {
    |e: (String, Bucket)| spec_keep(e.1@, age, now)
}

/// Filtering the entries with [`keep_pred`] restricts the denoted map to the
/// keys whose buckets survive, keeps the keys unique, and invents no entry.
pub proof fn lemma_bucket_map_filter(s: Seq<(String, Bucket)>, age: nat, now: nat)
    requires
        unique_keys(s),
    ensures
        unique_keys(s.filter(keep_pred(age, now))),
        forall|j: int|
            0 <= j < s.filter(keep_pred(age, now)).len() ==> exists|i: int|
                0 <= i < s.len() && s[i] == (#[trigger] s.filter(keep_pred(age, now))[j]),
        bucket_map(s.filter(keep_pred(age, now))) == Map::<Seq<char>, BucketModel>::new(
            |k: Seq<char>| bucket_map(s).dom().contains(k) && spec_keep(
                bucket_map(s)[k],
                age,
                now,
            ),
            |k: Seq<char>| bucket_map(s)[k],
        ),
    decreases s.len(),
{
    reveal(Seq::filter);
    let p = keep_pred(age, now);
    let f = s.filter(p);
    let m = Map::<Seq<char>, BucketModel>::new(
        |k: Seq<char>| bucket_map(s).dom().contains(k) && spec_keep(bucket_map(s)[k], age, now),
        |k: Seq<char>| bucket_map(s)[k],
    );
    if s.len() == 0 {
        assert(bucket_map(f) =~= m);
    } else {
        let d = s.drop_last();
        let e = s.last();
        assert(unique_keys(d));
        lemma_bucket_map_filter(d, age, now);
        let fd = d.filter(p);
        let md = Map::<Seq<char>, BucketModel>::new(
            |k: Seq<char>| bucket_map(d).dom().contains(k) && spec_keep(
                bucket_map(d)[k],
                age,
                now,
            ),
            |k: Seq<char>| bucket_map(d)[k],
        );
        assert(forall|i: int| 0 <= i < d.len() ==> (#[trigger] d[i]).0@ != e.0@);
        lemma_bucket_map_contains(d, e.0@);
        assert(!bucket_map(d).dom().contains(e.0@));
        assert forall|j: int| 0 <= j < fd.len() implies (#[trigger] fd[j]).0@ != e.0@ by {
            let i = choose|i: int| 0 <= i < d.len() && d[i] == fd[j];
            assert(d[i].0@ != e.0@);
        }
        assert forall|j: int| 0 <= j < f.len() implies exists|i: int|
            0 <= i < s.len() && s[i] == (#[trigger] f[j]) by {
            if p(e) && j == f.len() - 1 {
                assert(s[s.len() - 1] == f[j]);
            } else {
                assert(f[j] == fd[j]);
                let i = choose|i: int| 0 <= i < d.len() && d[i] == fd[j];
                assert(s[i] == f[j]);
            }
        }
        if p(e) {
            assert(f == fd.push(e));
            lemma_bucket_map_push(fd, e);
            assert(bucket_map(f) == bucket_map(fd).insert(e.0@, e.1@));
            assert(spec_keep(e.1@, age, now));
            assert(bucket_map(f) =~= m);
        } else {
            assert(f == fd);
            assert(!spec_keep(e.1@, age, now));
            assert(bucket_map(f) =~= m);
        }
    }
}

/// A per-key token-bucket rate limiter.
///
/// Keys are strings; time is an explicit nanosecond timestamp that the
/// caller passes in, so the limiter is a deterministic state machine: every
/// operation's outcome and new state are functions of the old state, the
/// key, and the timestamp alone.
pub struct RateLimiter {
    default_size: u32,
    default_rate: u32,
    default_interval: u64,
    entries: Vec<(String, Bucket)>,
    allowed: u64,
    denied: u64,
}

impl View for RateLimiter {
    type V = LimiterModel;

    closed spec fn view(&self) -> LimiterModel {
        LimiterModel {
            default_size: self.default_size as nat,
            default_rate: self.default_rate as nat,
            default_interval: self.default_interval as nat,
            buckets: bucket_map(self.entries@),
            allowed: self.allowed as nat,
            denied: self.denied as nat,
        }
    }
}

/// The index of the entry carrying `key`, if any.
fn find_key(entries: &Vec<(String, Bucket)>, key: &String) -> (r: Option<usize>)
    ensures
        match r {
            Some(i) => i < entries@.len() && (entries@[i as int]).0@ == key@,
            None => forall|i: int|
                0 <= i < entries@.len() ==> (#[trigger] entries@[i]).0@ != key@,
        },
{
    let mut i: usize = 0;
    while i < entries.len()
        invariant
            i <= entries@.len(),
            forall|j: int| 0 <= j < i ==> (#[trigger] entries@[j]).0@ != key@,
        decreases entries@.len() - i,
    {
        if entries[i].0 == *key {
            return Some(i);
        }
        i = i + 1;
    }
    None
}

impl RateLimiter {
    /// Well-formedness: valid defaults, unique keys, well-formed buckets.
    pub closed spec fn wf(&self) -> bool {
        &&& 1 <= self.default_size
        &&& 1 <= self.default_rate
        &&& 1 <= self.default_interval
        &&& unique_keys(self.entries@)
        &&& forall|i: int|
            0 <= i < self.entries@.len() ==> (#[trigger] self.entries@[i]).1.wf()
}

    /// The exec state is well-formed exactly when its model is.
    proof fn lemma_wf_model(&self)
        requires
            self.wf(),
        ensures
            self@.wf(),
    {
        assert forall|k: Seq<char>| self@.buckets.dom().contains(k) implies (
        #[trigger] self@.buckets[k]).wf() by {
            lemma_bucket_map_contains(self.entries@, k);
            let i = choose|i: int|
                0 <= i < self.entries@.len() && (#[trigger] self.entries@[i]).0@ == k;
            lemma_bucket_map_index(self.entries@, i);
        }
    }

    /// Construct a limiter with the given defaults for first-seen keys, or
    /// report which parameter is zero. The refill interval is in
    /// nanoseconds. A malformed configuration is rejected here, once, so
    /// that no later operation can fail or divide by zero.
    pub fn new(default_bucket_size: u32, default_refill_rate: u32, default_refill_interval: u64)
        -> (r: Result<RateLimiter, ConfigError>)
        ensures
            match r {
                Ok(l) => default_bucket_size >= 1 && default_refill_rate >= 1
                    && default_refill_interval >= 1 && l.wf() && l@ == empty_limiter(
                    default_bucket_size as nat,
                    default_refill_rate as nat,
                    default_refill_interval as nat,
                ),
                Err(e) => (default_bucket_size == 0 || default_refill_rate == 0
                    || default_refill_interval == 0) && e == spec_config_error(
                    default_bucket_size,
                    default_refill_rate,
                    default_refill_interval,
                ),
            },
    {
        if default_bucket_size == 0 {
            Err(ConfigError::ZeroBucketSize)
        } else if default_refill_rate == 0 {
            Err(ConfigError::ZeroRefillRate)
        } else if default_refill_interval == 0 {
            Err(ConfigError::ZeroRefillInterval)
        } else {
            let l = RateLimiter {
                default_size: default_bucket_size,
                default_rate: default_refill_rate,
                default_interval: default_refill_interval,
                entries: Vec::new(),
                allowed: 0,
                denied: 0,
            };
            proof {
                assert(l@.buckets =~= Map::<Seq<char>, BucketModel>::empty());
            }
            Ok(l)
        }
    }

    /// Decide the request for `key` at time `now` (nanoseconds): find or
    /// lazily create the key's bucket, let it refill and decide, and count
    /// the outcome. Admission for one key never reads or writes any other
    /// key's bucket.
    pub fn request(&mut self, key: String, now: u64) -> (admitted: bool)
        requires
            old(self).wf(),
        ensures
            final(self).wf(),
            final(self)@ == spec_limiter_request(old(self)@, key@, now as nat).0,
            admitted == spec_limiter_request(old(self)@, key@, now as nat).1,
    {
        let found = find_key(&self.entries, &key);
        let admitted: bool;
        match found {
            Some(i) => {
                proof {
                    lemma_bucket_map_index(self.entries@, i as int);
                }
                let mut b = self.entries[i].1;
                admitted = b.request(now);
                let ghost old_entries = self.entries@;
                let e: &mut (String, Bucket) = &mut self.entries[i];
                e.1 = b;
                proof {
                    assert(self.entries@ =~= old_entries.update(
                        i as int,
                        (old_entries[i as int].0, b),
                    ));
                    lemma_bucket_map_update(old_entries, i as int, (old_entries[i as int].0, b));
                }
            },
            None => {
                proof {
                    lemma_bucket_map_contains(self.entries@, key@);
                }
                let mut b = Bucket::make(
                    self.default_size,
                    self.default_rate,
                    self.default_interval,
                    now,
                );
                admitted = b.request(now);
                let ghost old_entries = self.entries@;
                proof {
                    lemma_bucket_map_push(old_entries, (key, b));
                }
                self.entries.push((key, b));
            },
        }
        if admitted {
            if self.allowed < u64::MAX {
                self.allowed = self.allowed + 1;
            }
        } else {
            if self.denied < u64::MAX {
                self.denied = self.denied + 1;
            }
        }
        admitted
    }

    /// Give `key` a bucket with its own size and refill rate (the refill
    /// interval stays the limiter's default), reset to full and anchored at
    /// `now`, whatever the key's prior state. A zero size or rate is a
    /// malformed configuration and is excluded by contract, as at
    /// construction.
    pub fn set_vip(&mut self, key: String, bucket_size: u32, refill_rate: u32, now: u64)
        requires
            old(self).wf(),
            bucket_size >= 1,
            refill_rate >= 1,
        ensures
            final(self).wf(),
            final(self)@ == spec_set_vip(
                old(self)@,
                key@,
                bucket_size as nat,
                refill_rate as nat,
                now as nat,
            ),
    {
        let b = Bucket::make(bucket_size, refill_rate, self.default_interval, now);
        let found = find_key(&self.entries, &key);
        match found {
            Some(i) => {
                proof {
                    lemma_bucket_map_index(self.entries@, i as int);
                }
                let ghost old_entries = self.entries@;
                let e: &mut (String, Bucket) = &mut self.entries[i];
                e.1 = b;
                proof {
                    assert(self.entries@ =~= old_entries.update(
                        i as int,
                        (old_entries[i as int].0, b),
                    ));
                    lemma_bucket_map_update(old_entries, i as int, (old_entries[i as int].0, b));
                }
            },
            None => {
                proof {
                    lemma_bucket_map_contains(self.entries@, key@);
                    lemma_bucket_map_push(self.entries@, (key, b));
                }
                self.entries.push((key, b));
            },
        }
    }

    /// Drop every bucket idle for longer than `age` nanoseconds as of `now`;
    /// keep every other bucket unchanged. Counters and defaults are kept.
    pub fn prune(&mut self, age: u64, now: u64)
        requires
            old(self).wf(),
        ensures
            final(self).wf(),
            final(self)@ == spec_prune(old(self)@, age as nat, now as nat),
    {
        let ghost os = self.entries@;
        let ghost p = keep_pred(age as nat, now as nat);
        let mut survivors: Vec<(String, Bucket)> = Vec::new();
        let n = self.entries.len();
        let mut i: usize = 0;
        proof {
            reveal(Seq::filter);
        }
        while i < n
            invariant
                n == self.entries@.len(),
                self.entries@ == os,
                i <= n,
                unique_keys(os),
                p == keep_pred(age as nat, now as nat),
                survivors@ == os.take(i as int).filter(p),
                forall|i2: int|
                    0 <= i2 < os.len() ==> (#[trigger] os[i2]).1.wf(),
            decreases n - i,
        {
            proof {
                reveal(Seq::filter);
                assert(os.take(i + 1).drop_last() =~= os.take(i as int));
                assert(os.take(i + 1).last() == os[i as int]);
            }
            let lf = self.entries[i].1.last_filled;
            let elapsed: u64 = if now >= lf {
                now - lf
            } else {
                0
            };
            if elapsed <= age {
                let k = self.entries[i].0.clone();
                let b = self.entries[i].1;
                proof {
                    assert(p(os[i as int]));
                    assert((k, b) == os[i as int]);
                }
                survivors.push((k, b));
            } else {
                proof {
                    assert(!p(os[i as int]));
                }
            }
            i = i + 1;
        }
        proof {
            assert(os.take(n as int) =~= os);
            lemma_bucket_map_filter(os, age as nat, now as nat);
        }
        self.entries = survivors;
        proof {
            assert(self@.buckets =~= spec_prune(old(self)@, age as nat, now as nat).buckets);
            assert(self@ == spec_prune(old(self)@, age as nat, now as nat));
        }
    }

    /// How many requests the limiter has admitted in total. The counter
    /// saturates at the largest 64-bit value instead of wrapping.
    pub fn allowed_total(&self) -> (r: u64)
        ensures
            r as nat == self@.allowed,
    {
        self.allowed
    }

    /// How many requests the limiter has denied in total. The counter
    /// saturates at the largest 64-bit value instead of wrapping.
    pub fn denied_total(&self) -> (r: u64)
        ensures
            r as nat == self@.denied,
    {
        self.denied
    }

    /// How many keys currently own a bucket.
    pub fn bucket_count(&self) -> (r: usize)
        requires
            self.wf(),
        ensures
            r as nat == self@.buckets.dom().len(),
    {
        proof {
            lemma_bucket_map_len(self.entries@);
        }
        self.entries.len()
    }

    /// Whether `key` currently owns a bucket.
    pub fn contains_key(&self, key: &String) -> (r: bool)
        ensures
            r == self@.buckets.dom().contains(key@),
    {
        proof {
            lemma_bucket_map_contains(self.entries@, key@);
        }
        let found = find_key(&self.entries, key);
        match found {
            Some(i) => {
                proof {
                    // The entry at `i` carries the key, so the map contains it.
                    assert((self.entries@[i as int]).0@ == key@);
                }
                true
            },
            None => false,
        }
    }

    /// The per-key counters: how many requests `key`'s bucket has admitted
    /// and denied, or nothing if the key owns no bucket.
    pub fn key_stats(&self, key: &String) -> (r: Option<(u64, u64)>)
        requires
            self.wf(),
        ensures
            match r {
                Some(p) => self@.buckets.dom().contains(key@) && p.0 as nat
                    == self@.buckets[key@].allowed && p.1 as nat == self@.buckets[key@].denied,
                None => !self@.buckets.dom().contains(key@),
            },
    {
        proof {
            lemma_bucket_map_contains(self.entries@, key@);
        }
        let found = find_key(&self.entries, key);
        match found {
            Some(i) => {
                proof {
                    lemma_bucket_map_index(self.entries@, i as int);
                }
                Some((self.entries[i].1.allowed, self.entries[i].1.denied))
            },
            None => None,
        }
    }
}

} // verus!
