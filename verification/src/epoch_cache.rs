//! Exponential smoothing of raw duration samples, one fixed-size batch at a time.

use vstd::arithmetic::power2::pow2;
use vstd::prelude::*;

verus! {

/// Number of samples that make up one batch of a freshly created cache.
pub const DEFAULT_EPOCH_LENGTH: usize = 10;

/// One smoothing step with weight one half: the mean of the running average
/// and the new sample, rounded down.
pub open spec fn blend(avg: u64, sample: u64) -> u64 {
    ((avg + sample) / 2) as u64
}

/// The smoothed value of a batch: the first sample seeds the average, every
/// later sample is blended in. The empty batch smooths to zero.
pub open spec fn smooth(batch: Seq<u64>) -> u64
    decreases batch.len(),
{
    if batch.len() == 0 {
        0
    } else if batch.len() == 1 {
        batch[0]
    } else {
        blend(smooth(batch.drop_last()), batch.last())
    }
}

/// Smallest sample of a non-empty batch.
pub open spec fn batch_min(batch: Seq<u64>) -> u64
    recommends
        batch.len() > 0,
    decreases batch.len(),
{
    if batch.len() <= 1 {
        batch[0]
    } else if batch.last() < batch_min(batch.drop_last()) {
        batch.last()
    } else {
        batch_min(batch.drop_last())
    }
}

/// Largest sample of a non-empty batch.
pub open spec fn batch_max(batch: Seq<u64>) -> u64
    recommends
        batch.len() > 0,
    decreases batch.len(),
{
    if batch.len() <= 1 {
        batch[0]
    } else if batch.last() > batch_max(batch.drop_last()) {
        batch.last()
    } else {
        batch_max(batch.drop_last())
    }
}

/// Mathematical state of a cache.
pub struct EpochState {
    /// Samples per batch.
    pub epoch_length: nat,
    /// Estimate of the last completed batch, zero before the first one.
    pub current: u64,
    /// Samples of the batch that is being collected.
    pub working: Seq<u64>,
}

impl EpochState {
    /// The open batch is never full. Every state reached from [`EpochState::fresh`]
    /// by adding samples is of this form.
    pub open spec fn wf(self) -> bool {
        self.working.len() < self.epoch_length
    }

    /// The state of a cache that has seen no sample.
    pub open spec fn fresh() -> EpochState {
        EpochState { epoch_length: DEFAULT_EPOCH_LENGTH as nat, current: 0, working: Seq::empty() }
    }

    /// Whether the next sample completes the open batch.
    pub open spec fn closes_batch(self) -> bool {
        self.working.len() + 1 >= self.epoch_length
    }

    /// The state after one more sample.
    pub open spec fn add(self, value: u64) -> EpochState {
        if self.closes_batch() {
            EpochState {
                epoch_length: self.epoch_length,
                current: smooth(self.working.push(value)),
                working: Seq::empty(),
            }
        } else {
            EpochState {
                epoch_length: self.epoch_length,
                current: self.current,
                working: self.working.push(value),
            }
        }
    }

    /// The state after a run of samples, oldest first.
    pub open spec fn feed(self, values: Seq<u64>) -> EpochState
        decreases values.len(),
    {
        if values.len() == 0 {
            self
        } else {
            self.feed(values.drop_last()).add(values.last())
        }
    }
}

/// Smoothed duration estimate of one action.
#[derive(Debug)]
pub struct EpochCache {
    epoch_length: usize,
    current: u64,
    working: Vec<u64>,
}

impl View for EpochCache {
    type V = EpochState;

    closed spec fn view(&self) -> EpochState {
        EpochState {
            epoch_length: self.epoch_length as nat,
            current: self.current,
            working: self.working@,
        }
    }
}

/// Executable form of [`blend`].
pub fn blend_sample(avg: u64, sample: u64) -> (r: u64)
    ensures
        r == blend(avg, sample),
        avg <= sample ==> avg <= r <= sample,
        sample <= avg ==> sample <= r <= avg,
{
    let half: u64 = avg / 2 + sample / 2;
    if avg % 2 == 1 && sample % 2 == 1 {
        half + 1
    } else {
        half
    }
}

impl EpochCache {
    /// A cache with batches of [`DEFAULT_EPOCH_LENGTH`] samples and estimate zero.
    pub fn new() -> (r: EpochCache)
        ensures
            r@ == EpochState::fresh(),
    {
        EpochCache { epoch_length: DEFAULT_EPOCH_LENGTH, current: 0, working: Vec::new() }
    }

    /// Records one sample. The estimate changes only when the sample completes
    /// a batch; it then becomes the smoothed value of that batch.
    pub fn add(&mut self, value: u64)
        ensures
            final(self)@ == old(self)@.add(value),
    {
        if self.epoch_length <= 1 || self.working.len() >= self.epoch_length - 1 {
            let avg = if self.working.len() == 0 {
                value
            } else {
                blend_sample(self.moving_average(), value)
            };
            proof {
                let batch = self.working@.push(value);
                assert(batch.drop_last() =~= self.working@);
            }
            self.current = avg;
            self.working.clear();
        } else {
            self.working.push(value);
        }
    }

    /// The estimate of the last completed batch, zero before the first one.
    pub fn current(&self) -> (r: u64)
        ensures
            r == self@.current,
    {
        self.current
    }

    /// Smoothed value of the samples collected so far in the open batch.
    pub fn moving_average(&self) -> (r: u64)
        ensures
            r == smooth(self@.working),
    {
        if self.working.len() == 0 {
            return 0;
        }
        let mut avg: u64 = self.working[0];
        let mut i: usize = 1;
        assert(self.working@.take(1).drop_last() =~= Seq::<u64>::empty());
        while i < self.working.len()
            invariant
                1 <= i <= self.working.len(),
                avg == smooth(self.working@.take(i as int)),
            decreases self.working.len() - i,
        {
            proof {
                let next = self.working@.take(i + 1);
                assert(next.drop_last() =~= self.working@.take(i as int));
            }
            avg = blend_sample(avg, self.working[i]);
            i += 1;
        }
        assert(self.working@.take(i as int) =~= self.working@);
        avg
    }
}

impl Default for EpochCache {
    fn default() -> (r: EpochCache)
        ensures
            r@ == EpochState::fresh(),
    {
        EpochCache::new()
    }
}

/// The samples of a batch added up, the first and the second once and each
/// later one twice as often as the one before: the exponential average of the
/// batch with weight one half, times two to the number of samples less one.
pub open spec fn weighted_sum(batch: Seq<u64>) -> int
    decreases batch.len(),
{
    if batch.len() == 0 {
        0
    } else if batch.len() == 1 {
        batch[0] as int
    } else {
        weighted_sum(batch.drop_last()) + pow2((batch.len() - 2) as nat) * batch.last()
    }
}

/// Rounding down after every step loses nothing: the smoothed value of a
/// batch is its exact exponential average, rounded down once.
pub proof fn lemma_smooth_is_exact(batch: Seq<u64>)
    requires
        batch.len() > 0,
    ensures
        weighted_sum(batch) >= 0,
        smooth(batch) == weighted_sum(batch) / (pow2((batch.len() - 1) as nat) as int),
    decreases batch.len(),
{
    vstd::arithmetic::power2::lemma2_to64();
    if batch.len() > 1 {
        let front = batch.drop_last();
        lemma_smooth_is_exact(front);
        let half = pow2((batch.len() - 2) as nat) as int;
        let whole = pow2((batch.len() - 1) as nat) as int;
        let before = weighted_sum(front);
        let sample = batch.last() as int;
        vstd::arithmetic::power2::lemma_pow2_pos((batch.len() - 2) as nat);
        vstd::arithmetic::power2::lemma_pow2_unfold((batch.len() - 1) as nat);
        assert(whole == half * 2) by (nonlinear_arith)
            requires
                whole == 2 * half,
        ;
        assert(half * sample >= 0) by (nonlinear_arith)
            requires
                half > 0,
                sample >= 0,
        ;
        assert(sample * half == half * sample) by (nonlinear_arith);
        vstd::arithmetic::div_mod::lemma_hoist_over_denominator(before, sample, half as nat);
        vstd::arithmetic::div_mod::lemma_div_denominator(before + sample * half, half, 2);
        assert(smooth(front) == before / half);
        assert(before / half + sample == (before + sample * half) / half);
        assert(((before + sample * half) / half) / 2 == (before + sample * half) / (half * 2));
        assert(weighted_sum(batch) == before + half * sample);
        assert(smooth(batch) == (smooth(front) + sample) / 2);
        assert(smooth(batch) == (before + sample * half) / (half * 2));
        assert(before + sample * half == weighted_sum(batch));
        assert(half * 2 == whole);
        assert(smooth(batch) == weighted_sum(batch) / whole);
    } else {
        assert(weighted_sum(batch) == batch[0]);
        assert(pow2(0) == 1);
        assert(smooth(batch) == batch[0]);
        assert((batch.len() - 1) as nat == 0);
        assert(smooth(batch) == weighted_sum(batch) / (pow2((batch.len() - 1) as nat) as int));
    }
}

/// The smoothed value of a batch lies between its smallest and its largest
/// sample.
pub proof fn lemma_smooth_bounds(batch: Seq<u64>)
    requires
        batch.len() > 0,
    ensures
        batch_min(batch) <= smooth(batch) <= batch_max(batch),
    decreases batch.len(),
{
    if batch.len() > 1 {
        lemma_smooth_bounds(batch.drop_last());
    }
}

/// Division with remainder, one step on.
proof fn lemma_next_quotient(t: int, d: int)
    requires
        0 <= t,
        0 < d,
    ensures
        t == (t / d) * d + t % d,
        0 <= t % d < d,
        t % d + 1 == d ==> (t + 1) / d == t / d + 1 && (t + 1) % d == 0,
        t % d + 1 < d ==> (t + 1) / d == t / d && (t + 1) % d == t % d + 1,
{
    vstd::arithmetic::div_mod::lemma_fundamental_div_mod(t, d);
    vstd::arithmetic::div_mod::lemma_mod_bound(t, d);
    let q = t / d;
    let r = t % d;
    assert(t == d * q + r);
    assert(d * q == q * d) by (nonlinear_arith);
    if r + 1 == d {
        assert(t + 1 == (q + 1) * d + 0) by (nonlinear_arith)
            requires
                t == q * d + r,
                r + 1 == d,
        ;
        vstd::arithmetic::div_mod::lemma_fundamental_div_mod_converse(t + 1, d, q + 1, 0);
    } else {
        assert(t + 1 == q * d + (r + 1));
        vstd::arithmetic::div_mod::lemma_fundamental_div_mod_converse(t + 1, d, q, r + 1);
    }
}

/// A sample changes the estimate only if it completes a batch.
pub proof fn lemma_add_keeps_current(state: EpochState, value: u64)
    ensures
        !state.closes_batch() ==> state.add(value).current == state.current,
        state.wf() && state.closes_batch() ==> state.add(value).working.len() == 0 && batch_min(
            state.working.push(value),
        ) <= state.add(value).current <= batch_max(state.working.push(value)),
        state.wf() ==> state.add(value).wf(),
{
    if state.wf() && state.closes_batch() {
        lemma_smooth_bounds(state.working.push(value));
    }
}

/// After any run of samples the estimate is that of the last batch that
/// was completed, and the open batch holds the samples since. The samples
/// are counted from the start of the batch that was open before the run; as
/// long as they do not fill one batch, the estimate is what it was.
pub proof fn lemma_feed(state: EpochState, values: Seq<u64>)
    requires
        state.wf(),
    ensures
        state.feed(values).wf(),
        state.feed(values).epoch_length == state.epoch_length,
        ({
            let all = state.working + values;
            let len = state.epoch_length as int;
            let full = (all.len() as int) / len;
            let after = state.feed(values);
            &&& full == 0 ==> after.current == state.current && after.working == all
            &&& full > 0 ==> {
                let last = all.subrange((full - 1) * len, full * len);
                &&& after.working == all.skip(full * len)
                &&& after.current == smooth(last)
                &&& batch_min(last) <= after.current <= batch_max(last)
            }
        }),
    decreases values.len(),
{
    let len = state.epoch_length as int;
    let all = state.working + values;
    if values.len() == 0 {
        assert(all =~= state.working);
        lemma_next_quotient(all.len() as int, len);
        assert((all.len() as int) / len == 0) by {
            vstd::arithmetic::div_mod::lemma_fundamental_div_mod_converse(
                all.len() as int,
                len,
                0,
                all.len() as int,
            );
        }
    } else {
        let front = values.drop_last();
        let value = values.last();
        lemma_feed(state, front);
        let before = state.feed(front);
        let prior = state.working + front;
        assert(all =~= prior.push(value));
        let t = prior.len() as int;
        lemma_next_quotient(t, len);
        let q = t / len;
        let r = t % len;
        assert(q * len + r == t);
        if q == 0 {
            assert(before.working == prior);
            assert(r == t) by (nonlinear_arith)
                requires
                    q == 0,
                    q * len + r == t,
            ;
        } else {
            assert(before.working.len() == r) by {
                assert(prior.skip(q * len).len() == t - q * len);
            }
        }
        assert(before.working.len() == r);
        if r + 1 == len {
            let full = q + 1;
            assert((t + 1) / len == full);
            assert(before.closes_batch());
            let last = all.subrange((full - 1) * len, full * len);
            assert(full * len == t + 1) by (nonlinear_arith)
                requires
                    full == q + 1,
                    q * len + r == t,
                    r + 1 == len,
            ;
            assert((full - 1) * len == q * len) by (nonlinear_arith)
                requires
                    full == q + 1,
            ;
            assert(before.working.push(value) =~= last);
            assert(all.skip(full * len) =~= Seq::<u64>::empty());
            lemma_smooth_bounds(last);
        } else {
            assert((t + 1) / len == q);
            assert(!before.closes_batch());
            if q == 0 {
                assert(before.working.push(value) =~= all);
            } else {
                assert(q * len <= t) by (nonlinear_arith)
                    requires
                        q * len + r == t,
                        0 <= r,
                ;
                assert((q - 1) * len <= q * len) by (nonlinear_arith)
                    requires
                        0 < len,
                ;
                assert(0 <= (q - 1) * len) by (nonlinear_arith)
                    requires
                        0 < len,
                        q >= 1,
                ;
                assert(before.working.push(value) =~= all.skip(q * len));
                assert(prior.subrange((q - 1) * len, q * len) =~= all.subrange(
                    (q - 1) * len,
                    q * len,
                ));
            }
        }
    }
}

} // verus!
