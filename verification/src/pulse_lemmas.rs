//! What holds of the detection of synchronisation pulses.
//!
//! The detector is defined in [`crate::sync_pulse`] by the steps it takes.
//! The statements here say what comes of those steps: that the pulses come
//! in ascending order and lie inside the block, that each of them is the
//! midpoint of a stretch of elevated samples of the right width, that
//! narrow stretches are rejected, and that a well-formed train of pulses is
//! found as it stands.

use crate::model::Sample;
use crate::sync_pulse::{
    candidate_blocks, elevated_indices, exceeds_lower_width, exceeds_upper_width, is_elevated,
    pulse_centers, scan_blocks, scan_step, seeded_scan, sync_pulses, Block, BlockScan,
};
use vstd::prelude::*;

verus! {

/// Whether the members of `indices` grow strictly from each to the next.
pub open spec fn strictly_ascending(indices: Seq<int>) -> bool {
    forall|j: int, k: int| 0 <= j < k < indices.len() ==> indices[j] < indices[k]
}

/// Whether `block` starts and ends at one of the indices `elevated` and is
/// not wider than the upper width.
pub open spec fn spans_elevated(
    block: Block,
    elevated: Seq<int>,
    nominal: int,
    tolerance: int,
) -> bool {
    &&& elevated.contains(block.start)
    &&& elevated.contains(block.end)
    &&& block.start <= block.end
    &&& !exceeds_upper_width(block.width(), nominal, tolerance)
}

/// Whether each of `blocks` ends before the next one starts.
pub open spec fn in_sequence(blocks: Seq<Block>) -> bool {
    &&& forall|k: int| 0 <= k < blocks.len() ==> (#[trigger] blocks[k]).start <= blocks[k].end
    &&& forall|j: int, k: int|
        0 <= j < k < blocks.len() ==> (#[trigger] blocks[j]).end < (#[trigger] blocks[k]).start
}

/// The elevated indices are the indices of the elevated samples: all of
/// them, nothing else, in strictly ascending order.
pub proof fn lemma_elevated_indices(samples: Seq<Sample>, threshold: Sample)
    ensures
        strictly_ascending(elevated_indices(samples, threshold)),
        forall|i: int|
            #![trigger elevated_indices(samples, threshold).contains(i)]
            #![trigger is_elevated(samples, threshold, i)]
            elevated_indices(samples, threshold).contains(i) <==> is_elevated(
                samples,
                threshold,
                i,
            ),
    decreases samples.len(),
{
    let elevated = elevated_indices(samples, threshold);
    if samples.len() > 0 {
        let shorter = samples.drop_last();
        let before = elevated_indices(shorter, threshold);
        lemma_elevated_indices(shorter, threshold);
        let last = samples.len() - 1;
        assert forall|k: int| 0 <= k < before.len() implies 0 <= #[trigger] before[k] < last by {
            assert(before.contains(before[k]));
        }
        assert forall|i: int|
            #![trigger elevated.contains(i)]
            #![trigger is_elevated(samples, threshold, i)]
            elevated.contains(i) <==> is_elevated(samples, threshold, i) by {
            if elevated.contains(i) {
                let k = choose|k: int| 0 <= k < elevated.len() && elevated[k] == i;
                if k < before.len() {
                    assert(before.contains(i));
                    assert(is_elevated(shorter, threshold, i));
                }
            }
            if is_elevated(samples, threshold, i) {
                if i < last {
                    assert(is_elevated(shorter, threshold, i));
                    let k = choose|k: int| 0 <= k < before.len() && before[k] == i;
                    assert(elevated[k] == i);
                } else {
                    assert(elevated[elevated.len() - 1] == i);
                }
            }
        }
    }
}

/// What holds of the scan after any ascending run of indices.
proof fn lemma_scan_blocks(elevated: Seq<int>, nominal: int, tolerance: int)
    requires
        nominal >= 0,
        tolerance >= 0,
        strictly_ascending(elevated),
        forall|k: int| 0 <= k < elevated.len() ==> elevated[k] >= 0,
    ensures
        ({
            let scan = scan_blocks(elevated, nominal, tolerance);
            let blocks = candidate_blocks(scan);
            &&& in_sequence(blocks)
            &&& forall|k: int|
                0 <= k < blocks.len() ==> spans_elevated(
                    #[trigger] blocks[k],
                    elevated,
                    nominal,
                    tolerance,
                ) && blocks[k].end < scan.open.start
            &&& scan.open.start <= scan.open.end
            &&& !exceeds_upper_width(scan.open.width(), nominal, tolerance)
            &&& scan.open.end == if elevated.len() == 0 {
                0
            } else {
                elevated.last()
            }
            &&& if scan.closed.len() == 0 {
                scan.open.start == 0
            } else {
                &&& scan.closed[0].start == 0
                &&& elevated.len() > 0
                &&& elevated.contains(scan.open.start)
            }
        }),
    decreases elevated.len(),
{
    assert(nominal * (1000 + tolerance) >= 0) by (nonlinear_arith)
        requires
            nominal >= 0,
            tolerance >= 0,
    ;
    if elevated.len() > 0 {
        let shorter = elevated.drop_last();
        let index = elevated.last();
        lemma_scan_blocks(shorter, nominal, tolerance);
        let before = scan_blocks(shorter, nominal, tolerance);
        let scan = scan_blocks(elevated, nominal, tolerance);
        let blocks = candidate_blocks(scan);
        assert forall|i: int| shorter.contains(i) implies elevated.contains(i) by {
            let k = choose|k: int| 0 <= k < shorter.len() && shorter[k] == i;
            assert(elevated[k] == i);
        }
        assert(elevated.contains(index)) by {
            assert(elevated[elevated.len() - 1] == index);
        }
        if shorter.len() > 0 {
            assert(shorter.last() == elevated[elevated.len() - 2]);
        }
        assert(before.open.end < index || (shorter.len() == 0 && before.open.end == 0));
        if exceeds_upper_width(index - before.open.start, nominal, tolerance) {
            if before.closed.len() > 0 {
                assert(blocks == candidate_blocks(before).push(before.open));
            } else {
                assert(blocks == Seq::<Block>::empty());
            }
        }
    }
}

/// Whether `center` is the midpoint of one of `blocks` that is wider than
/// the lower width.
pub open spec fn centers_wide_block(
    blocks: Seq<Block>,
    nominal: int,
    tolerance: int,
    center: int,
) -> bool {
    exists|j: int|
        0 <= j < blocks.len() && exceeds_lower_width(
            (#[trigger] blocks[j]).width(),
            nominal,
            tolerance,
        ) && center == blocks[j].center()
}

/// The block that is dropped is the one seeded at index 0: whichever block
/// is closed first starts there.
pub proof fn lemma_first_block_is_seeded(
    samples: Seq<Sample>,
    nominal: int,
    tolerance: int,
    threshold: Sample,
)
    requires
        nominal >= 0,
        tolerance >= 0,
    ensures
        ({
            let scan = scan_blocks(elevated_indices(samples, threshold), nominal, tolerance);
            scan.closed.len() > 0 ==> scan.closed[0].start == 0
        }),
{
    let elevated = elevated_indices(samples, threshold);
    lemma_elevated_indices(samples, threshold);
    assert forall|k: int| 0 <= k < elevated.len() implies #[trigger] elevated[k] >= 0 by {
        assert(elevated.contains(elevated[k]));
    }
    lemma_scan_blocks(elevated, nominal, tolerance);
}

/// Every centre among `pulse_centers(blocks, ..)` is the midpoint of one of
/// `blocks` that is wider than the lower width; where the blocks follow one
/// another, so do the centres.
proof fn lemma_pulse_centers(blocks: Seq<Block>, nominal: int, tolerance: int)
    ensures
        forall|k: int|
            0 <= k < pulse_centers(blocks, nominal, tolerance).len() ==> centers_wide_block(
                blocks,
                nominal,
                tolerance,
                #[trigger] pulse_centers(blocks, nominal, tolerance)[k],
            ),
        in_sequence(blocks) ==> strictly_ascending(pulse_centers(blocks, nominal, tolerance)),
    decreases blocks.len(),
{
    let centers = pulse_centers(blocks, nominal, tolerance);
    if blocks.len() > 0 {
        let shorter = blocks.drop_last();
        let before = pulse_centers(shorter, nominal, tolerance);
        lemma_pulse_centers(shorter, nominal, tolerance);
        let last = blocks.last();
        assert forall|k: int| 0 <= k < centers.len() implies centers_wide_block(
            blocks,
            nominal,
            tolerance,
            #[trigger] centers[k],
        ) by {
            if k < before.len() {
                assert(centers_wide_block(shorter, nominal, tolerance, before[k]));
                let j = choose|j: int|
                    0 <= j < shorter.len() && exceeds_lower_width(
                        (#[trigger] shorter[j]).width(),
                        nominal,
                        tolerance,
                    ) && before[k] == shorter[j].center();
                assert(blocks[j] == shorter[j]);
            } else {
                assert(blocks[blocks.len() - 1] == last);
            }
        }
        if in_sequence(blocks) {
            assert(in_sequence(shorter)) by {
                assert forall|k: int| 0 <= k < shorter.len() implies (#[trigger] shorter[k]).start
                    <= shorter[k].end by {
                    assert(shorter[k] == blocks[k]);
                }
                assert forall|j: int, k: int| 0 <= j < k < shorter.len() implies (
                #[trigger] shorter[j]).end < (#[trigger] shorter[k]).start by {
                    assert(shorter[j] == blocks[j]);
                    assert(shorter[k] == blocks[k]);
                }
            }
            assert forall|k: int| 0 <= k < before.len() implies #[trigger] before[k]
                < last.start by {
                assert(centers_wide_block(shorter, nominal, tolerance, before[k]));
                let j = choose|j: int|
                    0 <= j < shorter.len() && exceeds_lower_width(
                        (#[trigger] shorter[j]).width(),
                        nominal,
                        tolerance,
                    ) && before[k] == shorter[j].center();
                assert(blocks[j] == shorter[j]);
                assert(blocks[j].end < blocks[blocks.len() - 1].start);
            }
            assert(blocks[blocks.len() - 1].start <= last.end);
        }
    }
}

/// Every detected pulse is the midpoint of a stretch of samples that begins
/// and ends with an elevated sample, is wider than the lower width and not
/// wider than the upper width.
pub proof fn lemma_pulse_spans_wide_block(
    samples: Seq<Sample>,
    nominal: int,
    tolerance: int,
    threshold: Sample,
    k: int,
)
    requires
        nominal >= 0,
        tolerance >= 0,
        0 <= k < sync_pulses(samples, nominal, tolerance, threshold).len(),
    ensures
        exists|first: int, last: int|
            #![trigger is_elevated(samples, threshold, first), is_elevated(samples, threshold, last)]
            {
                &&& is_elevated(samples, threshold, first)
                &&& is_elevated(samples, threshold, last)
                &&& first <= last
                &&& exceeds_lower_width(last - first, nominal, tolerance)
                &&& !exceeds_upper_width(last - first, nominal, tolerance)
                &&& sync_pulses(samples, nominal, tolerance, threshold)[k] == first + (last
                    - first) / 2
            },
{
    let elevated = elevated_indices(samples, threshold);
    let scan = scan_blocks(elevated, nominal, tolerance);
    let blocks = candidate_blocks(scan);
    let pulses = pulse_centers(blocks, nominal, tolerance);
    lemma_elevated_indices(samples, threshold);
    assert forall|k: int| 0 <= k < elevated.len() implies #[trigger] elevated[k] >= 0 by {
        assert(elevated.contains(elevated[k]));
    }
    lemma_scan_blocks(elevated, nominal, tolerance);
    lemma_pulse_centers(blocks, nominal, tolerance);
    assert(centers_wide_block(blocks, nominal, tolerance, pulses[k]));
    let j = choose|j: int|
        0 <= j < blocks.len() && exceeds_lower_width(
            (#[trigger] blocks[j]).width(),
            nominal,
            tolerance,
        ) && pulses[k] == blocks[j].center();
    assert(spans_elevated(blocks[j], elevated, nominal, tolerance));
    assert(is_elevated(samples, threshold, blocks[j].start));
    assert(is_elevated(samples, threshold, blocks[j].end));
}

/// Noise is rejected: where no two elevated samples that lie within the
/// upper width of each other are farther apart than the lower width, no
/// pulse is detected. So an elevated run shorter than the lower width, with
/// no other elevated sample within the upper width, yields nothing.
pub proof fn lemma_narrow_runs_yield_no_pulse(
    samples: Seq<Sample>,
    nominal: int,
    tolerance: int,
    threshold: Sample,
)
    requires
        nominal >= 0,
        tolerance >= 0,
        forall|first: int, last: int|
            #![trigger is_elevated(samples, threshold, first), is_elevated(samples, threshold, last)]
            is_elevated(samples, threshold, first) && is_elevated(samples, threshold, last)
                && first <= last && !exceeds_upper_width(last - first, nominal, tolerance)
                ==> !exceeds_lower_width(last - first, nominal, tolerance),
    ensures
        sync_pulses(samples, nominal, tolerance, threshold).len() == 0,
{
    if sync_pulses(samples, nominal, tolerance, threshold).len() > 0 {
        lemma_pulse_spans_wide_block(samples, nominal, tolerance, threshold, 0);
    }
}

/// The detected pulses lie inside the block of samples and come in strictly
/// ascending order.
pub proof fn lemma_sync_pulses_ascending(
    samples: Seq<Sample>,
    nominal: int,
    tolerance: int,
    threshold: Sample,
)
    requires
        nominal >= 0,
        tolerance >= 0,
    ensures
        strictly_ascending(sync_pulses(samples, nominal, tolerance, threshold)),
        forall|k: int|
            0 <= k < sync_pulses(samples, nominal, tolerance, threshold).len() ==> 0
                <= #[trigger] sync_pulses(samples, nominal, tolerance, threshold)[k]
                < samples.len(),
{
    let elevated = elevated_indices(samples, threshold);
    let scan = scan_blocks(elevated, nominal, tolerance);
    let blocks = candidate_blocks(scan);
    let pulses = pulse_centers(blocks, nominal, tolerance);
    lemma_elevated_indices(samples, threshold);
    assert forall|k: int| 0 <= k < elevated.len() implies #[trigger] elevated[k] >= 0 by {
        assert(elevated.contains(elevated[k]));
    }
    lemma_scan_blocks(elevated, nominal, tolerance);
    lemma_pulse_centers(blocks, nominal, tolerance);
    assert forall|k: int| 0 <= k < pulses.len() implies 0 <= #[trigger] pulses[k]
        < samples.len() by {
        lemma_pulse_spans_wide_block(samples, nominal, tolerance, threshold, k);
    }
}

/// Whether `run` begins and ends with an elevated sample and is not wider
/// than the upper width.
pub open spec fn is_run(
    samples: Seq<Sample>,
    nominal: int,
    tolerance: int,
    threshold: Sample,
    run: Block,
) -> bool {
    &&& is_elevated(samples, threshold, run.start)
    &&& is_elevated(samples, threshold, run.end)
    &&& run.start <= run.end
    &&& !exceeds_upper_width(run.width(), nominal, tolerance)
}

/// Whether `runs[k]` reaches over index `i`.
pub open spec fn holds_index(runs: Seq<Block>, k: int, i: int) -> bool {
    0 <= k < runs.len() && runs[k].start <= i <= runs[k].end
}

/// Whether the elevated samples of `samples` form the pulse train `runs`:
/// every run begins and ends with an elevated sample and is not wider than
/// the upper width, every elevated sample lies in one of the runs, and
/// every run begins behind the end of each earlier one and farther than the
/// upper width from where that one begins, the first run from index 0.
pub open spec fn is_pulse_train(
    samples: Seq<Sample>,
    nominal: int,
    tolerance: int,
    threshold: Sample,
    runs: Seq<Block>,
) -> bool {
    &&& runs.len() > 0
    &&& exceeds_upper_width(runs[0].start, nominal, tolerance)
    &&& forall|k: int|
        0 <= k < runs.len() ==> #[trigger] is_run(samples, nominal, tolerance, threshold, runs[k])
    &&& forall|j: int, k: int|
        0 <= j < k < runs.len() ==> {
            &&& (#[trigger] runs[j]).end < (#[trigger] runs[k]).start
            &&& exceeds_upper_width(runs[k].start - runs[j].start, nominal, tolerance)
        }
    &&& forall|i: int|
        is_elevated(samples, threshold, i) ==> exists|k: int| #[trigger] holds_index(runs, k, i)
}

/// The midpoints of `blocks`.
pub open spec fn block_centers(blocks: Seq<Block>) -> Seq<int> {
    blocks.map_values(|block: Block| block.center())
}

/// The number of the run that reaches over index `i`.
spec fn run_holding(runs: Seq<Block>, i: int) -> int {
    choose|k: int| holds_index(runs, k, i)
}

/// Whether the scan that has taken the elevated samples up to index `last`
/// stands in run `k`: the runs before it are closed, behind the block
/// seeded at index 0, and run `k` is open up to `last`.
spec fn stands_in_run(scan: BlockScan, runs: Seq<Block>, k: int, last: int) -> bool {
    &&& holds_index(runs, k, last)
    &&& scan.closed == seeded_scan().closed.push(seeded_scan().open) + runs.take(k)
    &&& scan.open.start == runs[k].start
    &&& scan.open.end == last
}

/// The first elevated sample of a pulse train is where its first run
/// begins, and the last is where its last run ends.
proof fn lemma_train_ends(
    samples: Seq<Sample>,
    nominal: int,
    tolerance: int,
    threshold: Sample,
    runs: Seq<Block>,
)
    requires
        is_pulse_train(samples, nominal, tolerance, threshold, runs),
    ensures
        elevated_indices(samples, threshold).len() > 0,
        elevated_indices(samples, threshold).first() == runs.first().start,
        elevated_indices(samples, threshold).last() == runs.last().end,
{
    let elevated = elevated_indices(samples, threshold);
    lemma_elevated_indices(samples, threshold);
    let final_run = runs.len() - 1;
    assert(is_run(samples, nominal, tolerance, threshold, runs[0]));
    assert(is_run(samples, nominal, tolerance, threshold, runs[final_run]));
    assert(elevated.contains(runs[0].start));
    let p = choose|p: int| 0 <= p < elevated.len() && elevated[p] == runs[0].start;
    assert(elevated.contains(elevated[0]));
    let k = choose|k: int| holds_index(runs, k, elevated[0]);
    assert(is_run(samples, nominal, tolerance, threshold, runs[k]));
    if p > 0 {
        assert(elevated[0] < elevated[p]);
    }
    if k > 0 {
        assert(runs[0].end < runs[k].start);
    }
    let end = elevated.len() - 1;
    assert(elevated.contains(runs[final_run].end));
    let q = choose|q: int| 0 <= q < elevated.len() && elevated[q] == runs[final_run].end;
    assert(elevated.contains(elevated[end]));
    let m = choose|m: int| holds_index(runs, m, elevated[end]);
    assert(is_run(samples, nominal, tolerance, threshold, runs[m]));
    if q < end {
        assert(elevated[q] < elevated[end]);
    }
    if m < final_run {
        assert(runs[m].end < runs[final_run].start);
    }
}

/// From one elevated sample of a pulse train to the next: either both lie
/// in one run, or the first is where its run ends and the second where the
/// next run begins.
proof fn lemma_train_neighbours(
    samples: Seq<Sample>,
    nominal: int,
    tolerance: int,
    threshold: Sample,
    runs: Seq<Block>,
    position: int,
    j: int,
)
    requires
        is_pulse_train(samples, nominal, tolerance, threshold, runs),
        0 <= position < elevated_indices(samples, threshold).len() - 1,
        holds_index(runs, j, elevated_indices(samples, threshold)[position]),
    ensures
        ({
            let elevated = elevated_indices(samples, threshold);
            let before = elevated[position];
            let next = elevated[position + 1];
            ||| holds_index(runs, j, next)
            ||| {
                &&& before == runs[j].end
                &&& holds_index(runs, j + 1, next)
                &&& next == runs[j + 1].start
            }
        }),
{
    let elevated = elevated_indices(samples, threshold);
    lemma_elevated_indices(samples, threshold);
    let before = elevated[position];
    let next = elevated[position + 1];
    assert(before < next);
    assert(elevated.contains(next));
    let k = choose|k: int| holds_index(runs, k, next);
    assert(is_run(samples, nominal, tolerance, threshold, runs[j]));
    assert(is_run(samples, nominal, tolerance, threshold, runs[k]));
    if k < j {
        assert(runs[k].end < runs[j].start);
    }
    if k > j {
        assert(is_run(samples, nominal, tolerance, threshold, runs[j + 1]));
        assert(runs[j].end < runs[k].start);
        // The sample before is where its run ends.
        assert(elevated.contains(runs[j].end));
        let p = choose|p: int| 0 <= p < elevated.len() && elevated[p] == runs[j].end;
        if p > position + 1 {
            assert(elevated[position + 1] < elevated[p]);
        }
        if p < position {
            assert(elevated[p] < elevated[position]);
        }
        assert(p == position);
        // The next sample is where the next run begins.
        assert(runs[j].end < runs[j + 1].start);
        assert(elevated.contains(runs[j + 1].start));
        let q = choose|q: int| 0 <= q < elevated.len() && elevated[q] == runs[j + 1].start;
        if q < position {
            assert(elevated[q] < elevated[position]);
        }
        if q > position + 1 {
            assert(elevated[position + 1] < elevated[q]);
        }
        if j + 1 < k {
            assert(runs[j + 1].end < runs[k].start);
        }
    }
}

/// The scan of a pulse train, after the first `taken` elevated samples,
/// stands in the run that holds the last of them.
proof fn lemma_scan_of_train(
    samples: Seq<Sample>,
    nominal: int,
    tolerance: int,
    threshold: Sample,
    runs: Seq<Block>,
    taken: int,
)
    requires
        nominal >= 0,
        tolerance >= 0,
        is_pulse_train(samples, nominal, tolerance, threshold, runs),
        1 <= taken <= elevated_indices(samples, threshold).len(),
    ensures
        ({
            let elevated = elevated_indices(samples, threshold);
            let last = elevated[taken - 1];
            stands_in_run(
                scan_blocks(elevated.take(taken), nominal, tolerance),
                runs,
                run_holding(runs, last),
                last,
            )
        }),
    decreases taken,
{
    let elevated = elevated_indices(samples, threshold);
    let last = elevated[taken - 1];
    let seed = seeded_scan().closed.push(seeded_scan().open);
    let scan = scan_blocks(elevated.take(taken), nominal, tolerance);
    let earlier = scan_blocks(elevated.take(taken - 1), nominal, tolerance);
    assert(elevated.take(taken).drop_last() == elevated.take(taken - 1));
    assert(elevated.take(taken).last() == last);
    assert(scan == scan_step(earlier, last, nominal, tolerance));
    if taken == 1 {
        lemma_train_ends(samples, nominal, tolerance, threshold, runs);
        assert(is_run(samples, nominal, tolerance, threshold, runs[0]));
        assert(holds_index(runs, 0, last));
        assert(elevated.take(0) == Seq::<int>::empty());
        assert(earlier == seeded_scan());
        assert(seed + runs.take(0) == seed);
        lemma_stands_in_run_holding(samples, nominal, tolerance, threshold, runs, 0, last, scan);
    } else {
        lemma_scan_of_train(samples, nominal, tolerance, threshold, runs, taken - 1);
        let before = elevated[taken - 2];
        let j = run_holding(runs, before);
        lemma_train_neighbours(samples, nominal, tolerance, threshold, runs, taken - 2, j);
        if holds_index(runs, j, last) {
            assert(is_run(samples, nominal, tolerance, threshold, runs[j]));
            assert(last - runs[j].start <= runs[j].width());
            lemma_stands_in_run_holding(
                samples,
                nominal,
                tolerance,
                threshold,
                runs,
                j,
                last,
                scan,
            );
        } else {
            assert(exceeds_upper_width(runs[j + 1].start - runs[j].start, nominal, tolerance));
            assert(earlier.open == runs[j]);
            assert((seed + runs.take(j)).push(runs[j]) == seed + runs.take(j + 1));
            lemma_stands_in_run_holding(
                samples,
                nominal,
                tolerance,
                threshold,
                runs,
                j + 1,
                last,
                scan,
            );
        }
    }
}

/// A scan that stands in a run that holds the last sample stands in the
/// run chosen for that sample.
proof fn lemma_stands_in_run_holding(
    samples: Seq<Sample>,
    nominal: int,
    tolerance: int,
    threshold: Sample,
    runs: Seq<Block>,
    k: int,
    last: int,
    scan: BlockScan,
)
    requires
        is_pulse_train(samples, nominal, tolerance, threshold, runs),
        stands_in_run(scan, runs, k, last),
    ensures
        stands_in_run(scan, runs, run_holding(runs, last), last),
{
    let chosen = run_holding(runs, last);
    assert(holds_index(runs, chosen, last));
    if chosen < k {
        assert(runs[chosen].end < runs[k].start);
    }
    if k < chosen {
        assert(runs[k].end < runs[chosen].start);
    }
}

/// A pulse train is detected as it stands: the pulses are the midpoints of
/// its runs that are wider than the lower width, but for the last run,
/// which nothing closes.
pub proof fn lemma_pulse_train_detected(
    samples: Seq<Sample>,
    nominal: int,
    tolerance: int,
    threshold: Sample,
    runs: Seq<Block>,
)
    requires
        nominal >= 0,
        tolerance >= 0,
        is_pulse_train(samples, nominal, tolerance, threshold, runs),
    ensures
        sync_pulses(samples, nominal, tolerance, threshold) == pulse_centers(
            runs.drop_last(),
            nominal,
            tolerance,
        ),
{
    let elevated = elevated_indices(samples, threshold);
    lemma_train_ends(samples, nominal, tolerance, threshold, runs);
    let taken = elevated.len() as int;
    let final_run = runs.len() - 1;
    let last = elevated[taken - 1];
    lemma_scan_of_train(samples, nominal, tolerance, threshold, runs, taken);
    assert(elevated.take(taken) == elevated);
    let scan = scan_blocks(elevated, nominal, tolerance);
    let k = run_holding(runs, last);
    assert(is_run(samples, nominal, tolerance, threshold, runs[final_run]));
    if k < final_run {
        assert(runs[k].end < runs[final_run].start);
    }
    assert(k == final_run);
    let seed = seeded_scan().closed.push(seeded_scan().open);
    assert((seed + runs.take(k)).drop_first() == runs.drop_last());
}

/// Where every block is wider than the lower width, every block yields its
/// midpoint.
pub proof fn lemma_wide_blocks_all_yield(blocks: Seq<Block>, nominal: int, tolerance: int)
    requires
        forall|k: int|
            0 <= k < blocks.len() ==> exceeds_lower_width(
                (#[trigger] blocks[k]).width(),
                nominal,
                tolerance,
            ),
    ensures
        pulse_centers(blocks, nominal, tolerance) == block_centers(blocks),
    decreases blocks.len(),
{
    if blocks.len() > 0 {
        let shorter = blocks.drop_last();
        assert forall|k: int| 0 <= k < shorter.len() implies exceeds_lower_width(
            (#[trigger] shorter[k]).width(),
            nominal,
            tolerance,
        ) by {
            assert(shorter[k] == blocks[k]);
        }
        lemma_wide_blocks_all_yield(shorter, nominal, tolerance);
        assert(blocks[blocks.len() - 1] == blocks.last());
        assert(block_centers(shorter).push(blocks.last().center()) == block_centers(blocks));
    }
}

} // verus!
