//! Detection of synchronisation pulses in one channel's block of samples.
//!
//! A sample is *elevated* when it lies strictly above the threshold. The
//! elevated samples are gathered, in order, into blocks: a block starts at
//! index 0 and takes in every elevated sample that is not farther than the
//! upper width from the block's start; the first elevated sample beyond that
//! closes the block and starts the next one. The first block to be closed is
//! the one seeded at index 0 and is dropped. A block that is still open when
//! the samples end is never closed and so never reported. Of the other
//! blocks, those wider than the lower width yield their midpoint as a pulse.
//!
//! The two widths are the nominal width scaled by `1 + tolerance` and by
//! `1 - tolerance`. The tolerance is given in thousandths, and distances are
//! held against the scaled widths exactly, without rounding.

use crate::model::{positions, Sample, VirtChannelError};
use crate::pulse_lemmas::lemma_sync_pulses_ascending;
use vstd::prelude::*;

verus! {

/// Whether `samples` has an elevated sample at index `i`.
pub open spec fn is_elevated(samples: Seq<Sample>, threshold: Sample, i: int) -> bool {
    0 <= i < samples.len() && samples[i] > threshold
}

/// The indices of the elevated samples, in ascending order.
pub open spec fn elevated_indices(samples: Seq<Sample>, threshold: Sample) -> Seq<int>
    decreases samples.len(),
{
    if samples.len() == 0 {
        Seq::empty()
    } else {
        let before = elevated_indices(samples.drop_last(), threshold);
        if samples.last() > threshold {
            before.push(samples.len() - 1)
        } else {
            before
        }
    }
}

/// Whether a distance of `width` samples is strictly greater than `nominal`
/// samples scaled by `permille` thousandths.
pub open spec fn wider_than(width: int, nominal: int, permille: int) -> bool {
    width * 1000 > nominal * permille
}

/// Whether `width` exceeds the upper width, `nominal * (1 + tolerance)`.
pub open spec fn exceeds_upper_width(width: int, nominal: int, tolerance: int) -> bool {
    wider_than(width, nominal, 1000 + tolerance)
}

/// Whether `width` exceeds the lower width, `nominal * (1 - tolerance)`.
pub open spec fn exceeds_lower_width(width: int, nominal: int, tolerance: int) -> bool {
    wider_than(width, nominal, 1000 - tolerance)
}

/// A run of elevated samples taken for one candidate pulse: the indices of
/// its first and of its last sample.
pub struct Block {
    pub start: int,
    pub end: int,
}

impl Block {
    /// Distance between the block's last and first sample.
    pub open spec fn width(self) -> int {
        self.end - self.start
    }

    /// The index halfway between the block's ends, rounded down.
    pub open spec fn center(self) -> int {
        self.start + (self.end - self.start) / 2
    }
}

/// The state of the block scan: the blocks closed so far, in order, and the
/// block that is still taking samples.
pub struct BlockScan {
    pub closed: Seq<Block>,
    pub open: Block,
}

/// The scan before it has taken any sample: nothing is closed, and the
/// open block is seeded at index 0.
pub open spec fn seeded_scan() -> BlockScan {
    BlockScan { closed: Seq::empty(), open: Block { start: 0, end: 0 } }
}

/// The scan after it has taken the elevated sample at `index`: a sample
/// farther than the upper width from the start of the open block closes it
/// and opens the next block, any other is taken into the open block.
pub open spec fn scan_step(scan: BlockScan, index: int, nominal: int, tolerance: int) -> BlockScan {
    if exceeds_upper_width(index - scan.open.start, nominal, tolerance) {
        BlockScan { closed: scan.closed.push(scan.open), open: Block { start: index, end: index } }
    } else {
        BlockScan { closed: scan.closed, open: Block { start: scan.open.start, end: index } }
    }
}

/// The scan after it has taken the elevated indices `elevated` in order.
pub open spec fn scan_blocks(elevated: Seq<int>, nominal: int, tolerance: int) -> BlockScan
    decreases elevated.len(),
{
    if elevated.len() == 0 {
        seeded_scan()
    } else {
        scan_step(
            scan_blocks(elevated.drop_last(), nominal, tolerance),
            elevated.last(),
            nominal,
            tolerance,
        )
    }
}

/// The closed blocks without the first of them.
pub open spec fn candidate_blocks(scan: BlockScan) -> Seq<Block> {
    if scan.closed.len() == 0 {
        Seq::empty()
    } else {
        scan.closed.drop_first()
    }
}

/// The midpoints of those of `blocks` that are wider than the lower width.
pub open spec fn pulse_centers(blocks: Seq<Block>, nominal: int, tolerance: int) -> Seq<int>
    decreases blocks.len(),
{
    if blocks.len() == 0 {
        Seq::empty()
    } else {
        let before = pulse_centers(blocks.drop_last(), nominal, tolerance);
        if exceeds_lower_width(blocks.last().width(), nominal, tolerance) {
            before.push(blocks.last().center())
        } else {
            before
        }
    }
}

/// The pulse centres found in `samples`, in ascending order.
pub open spec fn sync_pulses(
    samples: Seq<Sample>,
    nominal: int,
    tolerance: int,
    threshold: Sample,
) -> Seq<int> {
    let scan = scan_blocks(elevated_indices(samples, threshold), nominal, tolerance);
    pulse_centers(candidate_blocks(scan), nominal, tolerance)
}

/// Holds `width` against `nominal` scaled by `permille` thousandths.
fn is_wider_than(width: usize, nominal: u64, permille: i64) -> (wider: bool)
    requires
        -0x1_0000_0000 <= permille <= 0x1_0000_0000 + 1000,
    ensures
        wider == wider_than(width as int, nominal as int, permille as int),
{
    let scaled_width: i128 = (width as i128) * 1000;
    assert(-0x2_0000_0000_0000_0000_0000_0000 <= nominal * permille
        <= 0x2_0000_0000_0000_0000_0000_0000) by (nonlinear_arith)
        requires
            0 <= nominal <= 0xffff_ffff_ffff_ffff,
            -0x1_0000_0000 <= permille <= 0x1_0000_0000 + 1000,
    ;
    let scaled_nominal: i128 = (nominal as i128) * (permille as i128);
    scaled_width > scaled_nominal
}

/// Finds the synchronisation pulses in `input` and returns the index of the
/// centre of each, in ascending order.
///
/// `est_sample_width` is the nominal width of a pulse in samples,
/// `tolerance` the accepted deviation from it in thousandths, and
/// `threshold` the level above which a sample counts as elevated.
///
/// Fails with [`VirtChannelError::NoSyncPulse`] exactly when no sample is
/// elevated. With elevated samples the result may still be empty.
pub fn find_sync_pulse(
    input: &Vec<Sample>,
    est_sample_width: u64,
    tolerance: u32,
    threshold: Sample,
) -> (result: Result<Vec<usize>, VirtChannelError>)
    ensures
        result is Ok <==> exists|i: int| is_elevated(input@, threshold, i),
        result matches Ok(pulses) ==> positions(pulses@) == sync_pulses(
            input@,
            est_sample_width as int,
            tolerance as int,
            threshold,
        ),
        result matches Ok(pulses) ==> forall|j: int, k: int|
            0 <= j < k < pulses.len() ==> pulses[j] < pulses[k],
        result matches Ok(pulses) ==> forall|k: int|
            0 <= k < pulses.len() ==> pulses[k] < input.len(),
        result matches Err(error) ==> error == VirtChannelError::NoSyncPulse,
{
    let ghost nominal = est_sample_width as int;
    let ghost tol = tolerance as int;
    let mut pulses: Vec<usize> = Vec::new();
    let mut any_elevated = false;
    let mut first_closed = false;
    let mut start: usize = 0;
    let mut end: usize = 0;
    let mut i: usize = 0;
    while i < input.len()
        invariant
            i <= input.len(),
            nominal == est_sample_width as int,
            tol == tolerance as int,
            start <= end,
            end <= i,
            any_elevated <==> exists|j: int| is_elevated(input@.take(i as int), threshold, j),
            ({
                let scan = scan_blocks(
                    elevated_indices(input@.take(i as int), threshold),
                    nominal,
                    tol,
                );
                &&& scan.open == Block { start: start as int, end: end as int }
                &&& first_closed <==> scan.closed.len() > 0
                &&& positions(pulses@) == pulse_centers(candidate_blocks(scan), nominal, tol)
            }),
        decreases input.len() - i,
    {
        let ghost seen = input@.take(i as int);
        let ghost next = input@.take(i + 1);
        let ghost elevated = elevated_indices(seen, threshold);
        let ghost scan = scan_blocks(elevated, nominal, tol);
        proof {
            assert(next.drop_last() == seen);
            assert(next.last() == input@[i as int]);
            assert forall|j: int| is_elevated(seen, threshold, j) implies is_elevated(
                next,
                threshold,
                j,
            ) by {}
            assert forall|j: int| is_elevated(next, threshold, j) && j != i implies is_elevated(
                seen,
                threshold,
                j,
            ) by {}
        }
        if input[i] > threshold {
            proof {
                assert(is_elevated(next, threshold, i as int));
                assert(elevated.push(i as int).drop_last() == elevated);
            }
            any_elevated = true;
            if is_wider_than(i - start, est_sample_width, 1000 + tolerance as i64) {
                if first_closed {
                    proof {
                        assert(scan.closed.push(scan.open).drop_first()
                            == scan.closed.drop_first().push(scan.open));
                        assert(candidate_blocks(scan).push(scan.open).drop_last()
                            == candidate_blocks(scan));
                    }
                    if is_wider_than(end - start, est_sample_width, 1000 - tolerance as i64) {
                        let center: usize = start + (end - start) / 2;
                        proof {
                            assert(positions(pulses@.push(center)) == positions(pulses@).push(
                                center as int,
                            ));
                        }
                        pulses.push(center);
                    }
                } else {
                    proof {
                        assert(scan.closed.push(scan.open).drop_first() == Seq::<Block>::empty());
                    }
                    first_closed = true;
                }
                start = i;
                end = i;
            } else {
                end = i;
            }
        }
        i = i + 1;
    }
    proof {
        assert(input@.take(input.len() as int) == input@);
        lemma_sync_pulses_ascending(input@, nominal, tol, threshold);
        assert forall|k: int| 0 <= k < pulses.len() implies pulses[k] < input.len() by {
            assert(positions(pulses@)[k] == pulses[k]);
        }
        assert forall|j: int, k: int| 0 <= j < k < pulses.len() implies pulses[j]
            < pulses[k] by {
            assert(positions(pulses@)[j] == pulses[j]);
            assert(positions(pulses@)[k] == pulses[k]);
        }
    }
    if any_elevated {
        Ok(pulses)
    } else {
        Err(VirtChannelError::NoSyncPulse)
    }
}

} // verus!
