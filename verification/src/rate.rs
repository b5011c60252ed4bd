//! A sliding-window estimate of the rate at which samples arrive.
//!
//! The estimator keeps the deliveries of the last while, each with the time
//! of its arrival. Times are counts of nanoseconds on a clock of the
//! caller's choosing; the estimator reads no clock of its own. A delivery is
//! outdated once it is older than the window. The rate is the number of
//! samples brought by the deliveries that are not outdated, over the time
//! since the oldest delivery that is kept.

use std::collections::VecDeque;
use vstd::prelude::*;

verus! {

/// Nanoseconds in one second.
pub const NANOS_PER_SECOND: u64 = 1_000_000_000;

/// One delivery: the time of its arrival and the number of samples in it.
pub type Arrival = (u64, u64);

/// Whether `arrival` lies more than `window_size` before `now`.
pub open spec fn is_outdated(arrival: Arrival, now: u64, window_size: u64) -> bool {
    now - arrival.0 > window_size
}

/// The index of the last outdated arrival, or 0 where none is outdated.
pub open spec fn last_outdated(arrivals: Seq<Arrival>, now: u64, window_size: u64) -> int
    decreases arrivals.len(),
{
    if arrivals.len() == 0 {
        0
    } else if is_outdated(arrivals.last(), now, window_size) {
        arrivals.len() - 1
    } else {
        last_outdated(arrivals.drop_last(), now, window_size)
    }
}

/// The number of samples brought by the arrivals that are not outdated.
pub open spec fn fresh_samples(arrivals: Seq<Arrival>, now: u64, window_size: u64) -> int
    decreases arrivals.len(),
{
    if arrivals.len() == 0 {
        0
    } else {
        fresh_samples(arrivals.drop_last(), now, window_size) + if is_outdated(
            arrivals.last(),
            now,
            window_size,
        ) {
            0
        } else {
            arrivals.last().1 as int
        }
    }
}

/// `samples` over `nanos` nanoseconds as a number of samples per second,
/// rounded down and held to the range of `u64`. Over no time at all no
/// samples make a rate of 0, and any samples the greatest rate there is.
pub open spec fn samples_per_second(samples: int, nanos: int) -> u64 {
    if nanos <= 0 {
        if samples <= 0 {
            0
        } else {
            u64::MAX
        }
    } else if samples * NANOS_PER_SECOND / nanos > u64::MAX {
        u64::MAX
    } else {
        (samples * NANOS_PER_SECOND / nanos) as u64
    }
}

/// The time from `then` to `now`, or none where `then` is the later.
pub open spec fn nanos_since(then: u64, now: u64) -> int {
    if now >= then {
        now - then
    } else {
        0
    }
}

/// Computes `samples` over `nanos` nanoseconds in samples per second.
fn per_second(samples: u128, nanos: u64) -> (rate: u64)
    ensures
        rate == samples_per_second(samples as int, nanos as int),
{
    if nanos == 0 {
        if samples == 0 {
            0
        } else {
            u64::MAX
        }
    } else {
        let whole: u128 = samples / (nanos as u128);
        let rest: u128 = samples % (nanos as u128);
        proof {
            let scaled = samples * NANOS_PER_SECOND;
            vstd::arithmetic::div_mod::lemma_fundamental_div_mod(samples as int, nanos as int);
            assert(scaled == rest * NANOS_PER_SECOND + (whole * NANOS_PER_SECOND) * nanos)
                by (nonlinear_arith)
                requires
                    scaled == samples * NANOS_PER_SECOND,
                    samples == nanos * whole + rest,
            ;
            vstd::arithmetic::div_mod::lemma_hoist_over_denominator(
                rest * NANOS_PER_SECOND,
                whole * NANOS_PER_SECOND,
                nanos as nat,
            );
            vstd::arithmetic::div_mod::lemma_div_pos_is_pos(
                rest * NANOS_PER_SECOND,
                nanos as int,
            );
            assert(rest * NANOS_PER_SECOND / (nanos as int) < NANOS_PER_SECOND) by {
                vstd::arithmetic::div_mod::lemma_div_by_multiple_is_strongly_ordered(
                    rest * NANOS_PER_SECOND,
                    NANOS_PER_SECOND * nanos,
                    NANOS_PER_SECOND as int,
                    nanos as int,
                );
                vstd::arithmetic::div_mod::lemma_div_multiples_vanish(
                    NANOS_PER_SECOND as int,
                    nanos as int,
                );
                assert(NANOS_PER_SECOND * nanos == nanos * NANOS_PER_SECOND) by (nonlinear_arith);
            }
        }
        if whole > 18_446_744_073 {
            u64::MAX
        } else {
            let rate: u128 = whole * (NANOS_PER_SECOND as u128) + rest * (NANOS_PER_SECOND as u128)
                / (nanos as u128);
            if rate > u64::MAX as u128 {
                u64::MAX
            } else {
                rate as u64
            }
        }
    }
}

/// A sliding-window estimator of the rate at which samples arrive.
pub struct RateCalc {
    queue: VecDeque<Arrival>,
    window_size: u64,
}

impl RateCalc {
    /// The deliveries that are kept, oldest first.
    pub closed spec fn arrivals(&self) -> Seq<Arrival> {
        self.queue@
    }

    /// The length of the window in nanoseconds.
    pub closed spec fn window(&self) -> u64 {
        self.window_size
    }

    /// An estimator that has seen no delivery yet, with a window of
    /// `window_size` nanoseconds.
    pub fn new(window_size: u64) -> (calc: Self)
        ensures
            calc.arrivals() == Seq::<Arrival>::empty(),
            calc.window() == window_size,
    {
        RateCalc { queue: VecDeque::new(), window_size }
    }

    /// The number of deliveries that are kept.
    pub fn len(&self) -> (len: usize)
        ensures
            len == self.arrivals().len(),
    {
        self.queue.len()
    }

    /// Records the delivery of `latest` samples at the time `now` and
    /// returns the rate of arrival in samples per second.
    ///
    /// Every delivery before the last outdated one is forgotten. The last
    /// outdated delivery itself is kept, or the oldest delivery where none
    /// is outdated: the rate is the number of samples brought by the
    /// deliveries that are not outdated, over the time since that one.
    pub fn get_value(&mut self, now: u64, latest: usize) -> (rate: u64)
        ensures
            final(self).window() == old(self).window(),
            ({
                let arrivals = old(self).arrivals().push((now, latest as u64));
                let first = last_outdated(arrivals, now, old(self).window());
                &&& 0 <= first < arrivals.len()
                &&& final(self).arrivals() == arrivals.skip(first)
                &&& rate == samples_per_second(
                    fresh_samples(arrivals, now, old(self).window()),
                    nanos_since(arrivals[first].0, now),
                )
            }),
    {
        self.queue.push_back((now, latest as u64));
        let ghost arrivals = self.queue@;
        let window_size = self.window_size;
        let len: usize = self.queue.len();
        let mut first: usize = 0;
        let mut total: u128 = 0;
        let mut index: usize = 0;
        while index < len
            invariant
                index <= len,
                len == arrivals.len(),
                len > 0,
                self.queue@ == arrivals,
                first == last_outdated(arrivals.take(index as int), now, window_size),
                first < len,
                total == fresh_samples(arrivals.take(index as int), now, window_size),
                total <= index * u64::MAX,
            decreases len - index,
        {
            let arrival: Arrival = self.queue[index];
            proof {
                let seen = arrivals.take(index + 1);
                assert(seen.drop_last() == arrivals.take(index as int));
                assert(seen.last() == arrival);
            }
            if now >= arrival.0 && now - arrival.0 > window_size {
                first = index;
            } else {
                total = total + arrival.1 as u128;
            }
            index = index + 1;
        }
        proof {
            assert(arrivals.take(len as int) == arrivals);
            assert(arrivals.skip(0) == arrivals);
        }
        let mut dropped: usize = 0;
        while dropped < first
            invariant
                dropped <= first < arrivals.len(),
                self.queue@ == arrivals.skip(dropped as int),
                self.window_size == window_size,
            decreases first - dropped,
        {
            self.queue.pop_front();
            proof {
                assert(arrivals.skip(dropped as int).subrange(
                    1,
                    arrivals.skip(dropped as int).len() as int,
                ) == arrivals.skip(dropped + 1));
            }
            dropped = dropped + 1;
        }
        let oldest: Arrival = self.queue[0];
        let nanos: u64 = if now >= oldest.0 {
            now - oldest.0
        } else {
            0
        };
        per_second(total, nanos)
    }
}

} // verus!
