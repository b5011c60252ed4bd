//! The value of one slot: a central tendency of the samples around an index.
//!
//! The samples within a third of the slot's width on either side of the
//! index form the window. Where the window is quiet, its spread below the
//! noise threshold, the value is the mean of the window; where it is not,
//! the spread is laid to an outlier and the value is the median. This is a
//! rule of thumb that picks between two estimates, not a statistical
//! estimator with known error.
//!
//! Samples are integers, and so is the mean: it is rounded down.

use crate::model::{Sample, VirtChannelError};
use vstd::prelude::*;

verus! {

/// `sorted` with `value` put in behind every member that is not above it
/// (counted from the back).
pub open spec fn insert_ascending(sorted: Seq<Sample>, value: Sample) -> Seq<Sample>
    decreases sorted.len(),
{
    if sorted.len() == 0 || sorted.last() <= value {
        sorted.push(value)
    } else {
        insert_ascending(sorted.drop_last(), value).push(sorted.last())
    }
}

/// The samples of `window` in ascending order.
pub open spec fn ascending(window: Seq<Sample>) -> Seq<Sample>
    decreases window.len(),
{
    if window.len() == 0 {
        Seq::empty()
    } else {
        insert_ascending(ascending(window.drop_last()), window.last())
    }
}

/// The sum of the samples of `window`.
pub open spec fn total(window: Seq<Sample>) -> int
    decreases window.len(),
{
    if window.len() == 0 {
        0
    } else {
        total(window.drop_last()) + window.last()
    }
}

/// The largest sample of `window` less the smallest.
pub open spec fn spread(window: Seq<Sample>) -> int
    recommends
        window.len() > 0,
{
    ascending(window).last() - ascending(window).first()
}

/// The arithmetic mean of `window`, rounded down.
pub open spec fn mean(window: Seq<Sample>) -> Sample
    recommends
        window.len() > 0,
{
    (total(window) / (window.len() as int)) as Sample
}

/// The sample in the middle of `window` once it is put in ascending order.
pub open spec fn median(window: Seq<Sample>) -> Sample
    recommends
        window.len() > 0,
{
    ascending(window)[window.len() as int / 2]
}

/// The mean of a quiet window, the median of any other.
pub open spec fn robust_average(window: Seq<Sample>, noise_threshold: Sample) -> Sample
    recommends
        window.len() > 0,
{
    if spread(window) < noise_threshold {
        mean(window)
    } else {
        median(window)
    }
}

/// How far the window of a slot of `slot_width` samples reaches to either
/// side of its index.
pub open spec fn window_radius(slot_width: int) -> int {
    slot_width / 3
}

/// Whether the window around `index` lies within a block of `len` samples.
pub open spec fn window_fits(len: int, index: int, slot_width: int) -> bool {
    0 <= window_radius(slot_width) <= index && index + window_radius(slot_width) < len
}

/// The samples from `index - radius` to `index + radius`, both included.
pub open spec fn window_at(samples: Seq<Sample>, index: int, slot_width: int) -> Seq<Sample>
    recommends
        window_fits(samples.len() as int, index, slot_width),
{
    samples.subrange(
        index - window_radius(slot_width),
        index + window_radius(slot_width) + 1,
    )
}

/// Where `value` comes to stand when it is put into `sorted`.
spec fn insert_position(sorted: Seq<Sample>, value: Sample) -> int
    decreases sorted.len(),
{
    if sorted.len() == 0 || sorted.last() <= value {
        sorted.len() as int
    } else {
        insert_position(sorted.drop_last(), value)
    }
}

proof fn lemma_insert_position(sorted: Seq<Sample>, value: Sample)
    ensures
        0 <= insert_position(sorted, value) <= sorted.len(),
        insert_position(sorted, value) > 0 ==> sorted[insert_position(sorted, value) - 1]
            <= value,
        forall|i: int|
            insert_position(sorted, value) <= i < sorted.len() ==> #[trigger] sorted[i] > value,
        insert_ascending(sorted, value) == sorted.insert(insert_position(sorted, value), value),
    decreases sorted.len(),
{
    if sorted.len() == 0 || sorted.last() <= value {
        assert(sorted.push(value) == sorted.insert(sorted.len() as int, value));
    } else {
        let shorter = sorted.drop_last();
        lemma_insert_position(shorter, value);
        let position = insert_position(shorter, value);
        assert forall|i: int| position <= i < sorted.len() implies #[trigger] sorted[i]
            > value by {
            if i < shorter.len() {
                assert(shorter[i] == sorted[i]);
            }
        }
        assert(shorter.insert(position, value).push(sorted.last()) == sorted.insert(
            position,
            value,
        ));
    }
}

/// A value goes where the members above it begin: wherever every member
/// from `position` on lies above `value` and the one before does not, the
/// value comes to stand at `position`.
proof fn lemma_insert_ascending_at(sorted: Seq<Sample>, value: Sample, position: int)
    requires
        0 <= position <= sorted.len(),
        position > 0 ==> sorted[position - 1] <= value,
        forall|i: int| position <= i < sorted.len() ==> sorted[i] > value,
    ensures
        insert_ascending(sorted, value) == sorted.insert(position, value),
{
    lemma_insert_position(sorted, value);
    let found = insert_position(sorted, value);
    if found < position {
        assert(sorted[position - 1] > value);
    }
    if found > position {
        assert(sorted[found - 1] > value);
    }
}

/// Whether the members of `window` never fall from one to the next.
pub open spec fn is_ascending(window: Seq<Sample>) -> bool {
    forall|i: int, j: int| 0 <= i <= j < window.len() ==> window[i] <= window[j]
}

/// `ascending(window)` holds the samples of `window`, each as often as the
/// window does, and never falls from one member to the next.
pub proof fn lemma_ascending_sorts(window: Seq<Sample>)
    ensures
        is_ascending(ascending(window)),
        ascending(window).len() == window.len(),
        ascending(window).to_multiset() == window.to_multiset(),
    decreases window.len(),
{
    broadcast use vstd::seq_lib::group_to_multiset_ensures;

    if window.len() > 0 {
        let shorter = window.drop_last();
        let value = window.last();
        let sorted = ascending(shorter);
        lemma_ascending_sorts(shorter);
        lemma_insert_position(sorted, value);
        let position = insert_position(sorted, value);
        assert(window == shorter.push(value));
        assert forall|i: int| 0 <= i < position implies sorted[i] <= value by {
            assert(sorted[i] <= sorted[position - 1]);
        }
    }
}

/// The ends of `ascending(window)` are samples of the window, and every
/// sample lies between them.
pub proof fn lemma_ascending_ends(window: Seq<Sample>)
    requires
        window.len() > 0,
    ensures
        window.contains(ascending(window).first()),
        window.contains(ascending(window).last()),
        forall|i: int|
            0 <= i < window.len() ==> ascending(window).first() <= #[trigger] window[i]
                <= ascending(window).last(),
        forall|i: int| 0 <= i < window.len() ==> window.contains(#[trigger] ascending(window)[i]),
{
    broadcast use vstd::seq_lib::group_to_multiset_ensures;

    let sorted = ascending(window);
    lemma_ascending_sorts(window);
    assert forall|i: int| 0 <= i < window.len() implies window.contains(
        #[trigger] sorted[i],
    ) by {
        assert(sorted.to_multiset().contains(sorted[i]));
    }
    assert forall|i: int| 0 <= i < window.len() implies sorted.first() <= #[trigger] window[i]
        <= sorted.last() by {
        assert(window.to_multiset().contains(window[i]));
        assert(sorted.contains(window[i]));
        let k = choose|k: int| 0 <= k < sorted.len() && sorted[k] == window[i];
        assert(sorted[0] <= sorted[k] <= sorted[sorted.len() - 1]);
    }
    assert(window.contains(sorted[0]));
    assert(window.contains(sorted[sorted.len() - 1]));
}

/// The sum of a window lies between its length times any lower bound and
/// its length times any upper bound of its samples.
proof fn lemma_total_bounds(window: Seq<Sample>, low: int, high: int)
    requires
        forall|i: int| 0 <= i < window.len() ==> low <= #[trigger] window[i] <= high,
    ensures
        window.len() * low <= total(window) <= window.len() * high,
    decreases window.len(),
{
    if window.len() > 0 {
        let shorter = window.drop_last();
        lemma_total_bounds(shorter, low, high);
        assert(window.last() == window[window.len() - 1]);
        assert(window.len() * low == shorter.len() * low + low) by (nonlinear_arith)
            requires
                window.len() == shorter.len() + 1,
        ;
        assert(window.len() * high == shorter.len() * high + high) by (nonlinear_arith)
            requires
                window.len() == shorter.len() + 1,
        ;
    } else {
        assert(window.len() * low == 0) by (nonlinear_arith)
            requires
                window.len() == 0,
        ;
        assert(window.len() * high == 0) by (nonlinear_arith)
            requires
                window.len() == 0,
        ;
    }
}

/// A quotient rounded down lies between any two bounds that, times the
/// divisor, enclose the dividend.
proof fn lemma_quotient_bounds(dividend: int, divisor: int, low: int, high: int)
    requires
        divisor > 0,
        divisor * low <= dividend <= divisor * high,
    ensures
        low <= dividend / divisor <= high,
        divisor * (dividend / divisor) <= dividend < divisor * (dividend / divisor + 1),
{
    vstd::arithmetic::div_mod::lemma_fundamental_div_mod(dividend, divisor);
    vstd::arithmetic::div_mod::lemma_mod_bound(dividend, divisor);
    let quotient = dividend / divisor;
    assert(divisor * (quotient + 1) == divisor * quotient + divisor) by (nonlinear_arith);
    assert(low <= quotient) by (nonlinear_arith)
        requires
            divisor > 0,
            divisor * low < divisor * (quotient + 1),
    ;
    assert(quotient <= high) by (nonlinear_arith)
        requires
            divisor > 0,
            divisor * quotient <= divisor * high,
    ;
}

/// The mean is the sum divided by the number of samples, rounded down, and
/// lies between the smallest and the largest sample.
pub proof fn lemma_mean_rounds_down(window: Seq<Sample>)
    requires
        window.len() > 0,
    ensures
        mean(window) == total(window) / (window.len() as int),
        window.len() * mean(window) <= total(window) < window.len() * (mean(window) + 1),
        ascending(window).first() <= mean(window) <= ascending(window).last(),
{
    lemma_ascending_ends(window);
    let low = ascending(window).first() as int;
    let high = ascending(window).last() as int;
    lemma_total_bounds(window, low, high);
    lemma_quotient_bounds(total(window), window.len() as int, low, high);
}

/// A window that holds one value throughout has that value for its robust
/// average, whatever the noise threshold.
pub proof fn lemma_plateau_average(window: Seq<Sample>, noise_threshold: Sample, level: Sample)
    requires
        window.len() > 0,
        forall|i: int| 0 <= i < window.len() ==> window[i] == level,
    ensures
        robust_average(window, noise_threshold) == level,
{
    lemma_ascending_ends(window);
    lemma_ascending_sorts(window);
    let sorted = ascending(window);
    assert forall|i: int| 0 <= i < sorted.len() implies #[trigger] sorted[i] == level by {
        assert(window.contains(sorted[i]));
    }
    assert(sorted[window.len() as int / 2] == level);
    lemma_total_bounds(window, level as int, level as int);
    lemma_quotient_bounds(total(window), window.len() as int, level as int, level as int);
}

/// Puts `value` into `sorted` behind every member that is not above it.
fn insert_sample(sorted: &mut Vec<Sample>, value: Sample)
    ensures
        final(sorted)@ == insert_ascending(old(sorted)@, value),
{
    let mut position: usize = sorted.len();
    while position > 0 && sorted[position - 1] > value
        invariant
            position <= sorted.len(),
            sorted@ == old(sorted)@,
            forall|i: int| position <= i < sorted.len() ==> sorted[i] > value,
        decreases position,
    {
        position = position - 1;
    }
    proof {
        lemma_insert_ascending_at(sorted@, value, position as int);
    }
    sorted.insert(position, value);
}

/// Estimates the value held around `index` in `full_dataset`, for a slot
/// that is `width_of_channel` samples wide.
///
/// The window reaches `width_of_channel / 3` samples to either side of
/// `index`. The result is the mean of the window, rounded down, where the
/// window's largest and smallest sample differ by less than
/// `noise_threshold`, and its median otherwise.
///
/// Fails with [`VirtChannelError::OutOfBounds`] exactly when the window
/// reaches beyond `full_dataset`; no sample outside it is ever read.
pub fn get_average_sample(
    index: usize,
    full_dataset: &Vec<Sample>,
    width_of_channel: usize,
    noise_threshold: Sample,
) -> (result: Result<Sample, VirtChannelError>)
    ensures
        result is Ok <==> window_fits(
            full_dataset.len() as int,
            index as int,
            width_of_channel as int,
        ),
        result matches Ok(value) ==> {
            let window = window_at(full_dataset@, index as int, width_of_channel as int);
            &&& spread(window) < noise_threshold ==> value == mean(window)
            &&& spread(window) >= noise_threshold ==> value == median(window)
            &&& value == robust_average(window, noise_threshold)
        },
        result matches Err(error) ==> error == VirtChannelError::OutOfBounds,
{
    let radius: usize = width_of_channel / 3;
    if index < radius {
        return Err(VirtChannelError::OutOfBounds);
    }
    let first: usize = index - radius;
    let last: usize = match index.checked_add(radius) {
        Some(last) => last,
        None => {
            return Err(VirtChannelError::OutOfBounds);
        },
    };
    if last >= full_dataset.len() {
        return Err(VirtChannelError::OutOfBounds);
    }
    let ghost window = full_dataset@.subrange(first as int, last + 1);
    let mut sorted: Vec<Sample> = Vec::new();
    let mut sum: i128 = 0;
    let mut next: usize = first;
    while next <= last
        invariant
            first <= next <= last + 1,
            last < full_dataset.len(),
            window == full_dataset@.subrange(first as int, last + 1),
            sorted@ == ascending(window.take(next - first)),
            sum == total(window.take(next - first)),
            (next - first) * i64::MIN <= sum <= (next - first) * i64::MAX,
        decreases last + 1 - next,
    {
        let value = full_dataset[next];
        proof {
            let taken = window.take(next - first + 1);
            assert(taken.drop_last() == window.take(next - first));
            assert(taken.last() == value);
        }
        insert_sample(&mut sorted, value);
        sum = sum + value as i128;
        next = next + 1;
    }
    proof {
        assert(window.take(last + 1 - first) == window);
        lemma_ascending_sorts(window);
        lemma_mean_rounds_down(window);
    }
    let count: usize = sorted.len();
    let smallest: Sample = sorted[0];
    let largest: Sample = sorted[count - 1];
    if (largest as i128) - (smallest as i128) < noise_threshold as i128 {
        let quotient: i128 = sum.checked_div_euclid(count as i128).unwrap();
        Ok(quotient as Sample)
    } else {
        Ok(sorted[count / 2])
    }
}

} // verus!
