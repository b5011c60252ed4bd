//! From pulse centres to the values of the virtual channels.
//!
//! Two neighbouring pulses bound one multiplex cycle. The span between them
//! is cut into `virt_channel_count + 1` slots of equal width, rounded down.
//! The first slot belongs to the pulse itself; virtual channel `i` is read
//! at the index `i + 1` slot widths behind the first pulse.
//!
//! Every pair of neighbouring pulses gives a cycle: `n` pulses give `n - 1`
//! cycles, in the order of the pulses. A channel whose window does not fit
//! into the block is left out of its cycle; the cycle itself stays.

use crate::average::{
    get_average_sample, lemma_plateau_average, robust_average, window_at, window_fits,
    window_radius,
};
use crate::model::{positions, Sample, VirtChannel, VirtSamples};
use std::collections::HashMap;
use vstd::prelude::*;

verus! {

broadcast use vstd::std_specs::hash::group_hash_axioms;

/// Width of one slot of the cycle between the pulses at `pulse` and `next`.
pub open spec fn slot_spacing(pulse: int, next: int, virt_channel_count: int) -> int {
    (next - pulse) / (virt_channel_count + 1)
}

/// The index at which virtual channel `channel` is read.
pub open spec fn slot_index(pulse: int, next: int, virt_channel_count: int, channel: int) -> int {
    pulse + slot_spacing(pulse, next, virt_channel_count) * (channel + 1)
}

/// Whether the window of virtual channel `channel` lies within `samples`.
pub open spec fn slot_fits(
    samples: Seq<Sample>,
    pulse: int,
    next: int,
    virt_channel_count: int,
    channel: int,
) -> bool {
    window_fits(
        samples.len() as int,
        slot_index(pulse, next, virt_channel_count, channel),
        slot_spacing(pulse, next, virt_channel_count),
    )
}

/// The value of virtual channel `channel` in the cycle between the pulses
/// at `pulse` and `next`.
pub open spec fn slot_value(
    samples: Seq<Sample>,
    pulse: int,
    next: int,
    virt_channel_count: int,
    noise_threshold: Sample,
    channel: int,
) -> Sample
    recommends
        slot_fits(samples, pulse, next, virt_channel_count, channel),
{
    robust_average(
        window_at(
            samples,
            slot_index(pulse, next, virt_channel_count, channel),
            slot_spacing(pulse, next, virt_channel_count),
        ),
        noise_threshold,
    )
}

/// The cycle between the pulses at `pulse` and `next`: the value of every
/// virtual channel below `virt_channel_count` whose window fits.
pub open spec fn cycle_samples(
    samples: Seq<Sample>,
    pulse: int,
    next: int,
    virt_channel_count: int,
    noise_threshold: Sample,
) -> Map<VirtChannel, Sample> {
    Map::new(
        |channel: VirtChannel|
            channel < virt_channel_count && slot_fits(
                samples,
                pulse,
                next,
                virt_channel_count,
                channel as int,
            ),
        |channel: VirtChannel|
            slot_value(samples, pulse, next, virt_channel_count, noise_threshold, channel as int),
    )
}

/// The cycles bounded by `pulses`, one for each pair of neighbours.
pub open spec fn virt_channel_cycles(
    pulses: Seq<int>,
    samples: Seq<Sample>,
    virt_channel_count: int,
    noise_threshold: Sample,
) -> Seq<Map<VirtChannel, Sample>> {
    Seq::new(
        if pulses.len() == 0 {
            0
        } else {
            (pulses.len() - 1) as nat
        },
        |j: int|
            cycle_samples(samples, pulses[j], pulses[j + 1], virt_channel_count, noise_threshold),
    )
}

/// What a vector of cycles holds.
pub open spec fn cycle_views(cycles: Seq<VirtSamples>) -> Seq<Map<VirtChannel, Sample>> {
    cycles.map_values(|cycle: VirtSamples| cycle@)
}

/// Whether the members of `indices` never fall from one to the next.
pub open spec fn is_nondecreasing(indices: Seq<usize>) -> bool {
    forall|j: int, k: int| 0 <= j <= k < indices.len() ==> indices[j] <= indices[k]
}

/// Whether the window of virtual channel `channel` lies within `samples`
/// and holds `level` throughout.
pub open spec fn is_plateau(
    samples: Seq<Sample>,
    pulse: int,
    next: int,
    virt_channel_count: int,
    channel: int,
    level: Sample,
) -> bool {
    let index = slot_index(pulse, next, virt_channel_count, channel);
    let radius = window_radius(slot_spacing(pulse, next, virt_channel_count));
    &&& slot_fits(samples, pulse, next, virt_channel_count, channel)
    &&& forall|i: int| index - radius <= i <= index + radius ==> #[trigger] samples[i] == level
}

/// The cycle in which virtual channel `i` has the value `levels[i]`.
pub open spec fn plateau_cycle(levels: Seq<Sample>) -> Map<VirtChannel, Sample> {
    Map::new(
        |channel: VirtChannel| channel < levels.len(),
        |channel: VirtChannel| levels[channel as int],
    )
}

/// A virtual channel that is read from a stretch of samples holding one
/// value throughout is recovered with exactly that value.
pub proof fn lemma_plateau_recovered(
    samples: Seq<Sample>,
    pulse: int,
    next: int,
    virt_channel_count: int,
    noise_threshold: Sample,
    channel: VirtChannel,
    level: Sample,
)
    requires
        channel < virt_channel_count,
        is_plateau(samples, pulse, next, virt_channel_count, channel as int, level),
    ensures
        cycle_samples(samples, pulse, next, virt_channel_count, noise_threshold).contains_key(
            channel,
        ),
        cycle_samples(samples, pulse, next, virt_channel_count, noise_threshold)[channel]
            == level,
{
    let index = slot_index(pulse, next, virt_channel_count, channel as int);
    let spacing = slot_spacing(pulse, next, virt_channel_count);
    let radius = window_radius(spacing);
    let window = window_at(samples, index, spacing);
    assert forall|i: int| 0 <= i < window.len() implies window[i] == level by {
        assert(window[i] == samples[index - radius + i]);
    }
    lemma_plateau_average(window, noise_threshold, level);
}

/// A cycle in which every virtual channel is read from a plateau holds the
/// levels of the plateaus and nothing else.
pub proof fn lemma_cycle_of_plateaus(
    samples: Seq<Sample>,
    pulse: int,
    next: int,
    noise_threshold: Sample,
    levels: Seq<Sample>,
)
    requires
        forall|channel: int|
            0 <= channel < levels.len() ==> is_plateau(
                samples,
                pulse,
                next,
                levels.len() as int,
                channel,
                #[trigger] levels[channel],
            ),
    ensures
        cycle_samples(samples, pulse, next, levels.len() as int, noise_threshold) == plateau_cycle(
            levels,
        ),
{
    let cycle = cycle_samples(samples, pulse, next, levels.len() as int, noise_threshold);
    assert forall|channel: VirtChannel|
        #![trigger cycle.contains_key(channel)]
        #![trigger plateau_cycle(levels).contains_key(channel)]
        channel < levels.len() implies cycle.contains_key(channel) && cycle[channel]
        == levels[channel as int] by {
        assert(is_plateau(
            samples,
            pulse,
            next,
            levels.len() as int,
            channel as int,
            levels[channel as int],
        ));
        lemma_plateau_recovered(
            samples,
            pulse,
            next,
            levels.len() as int,
            noise_threshold,
            channel,
            levels[channel as int],
        );
    }
    assert(cycle =~= plateau_cycle(levels));
}

/// Every virtual channel is read between the two pulses of its cycle, and
/// a later channel is read behind an earlier one, or at the same index.
pub proof fn lemma_slots_between_pulses(
    pulse: int,
    next: int,
    virt_channel_count: int,
    channel: int,
    later: int,
)
    requires
        pulse <= next,
        0 <= channel <= later < virt_channel_count,
    ensures
        pulse <= slot_index(pulse, next, virt_channel_count, channel) <= slot_index(
            pulse,
            next,
            virt_channel_count,
            later,
        ) <= next,
{
    lemma_slot_before_next(next - pulse, virt_channel_count + 1, channel);
    lemma_slot_before_next(next - pulse, virt_channel_count + 1, later);
    let spacing = slot_spacing(pulse, next, virt_channel_count);
    assert(spacing * (channel + 1) <= spacing * (later + 1)) by (nonlinear_arith)
        requires
            0 <= spacing,
            channel <= later,
    ;
}

/// Cycles follow one another in time: where the pulses never fall from one
/// to the next, no virtual channel of a cycle is read behind any virtual
/// channel of a later cycle.
pub proof fn lemma_cycles_in_time_order(
    pulses: Seq<int>,
    virt_channel_count: int,
    round: int,
    later: int,
    channel: int,
    other: int,
)
    requires
        forall|j: int, k: int| 0 <= j <= k < pulses.len() ==> pulses[j] <= pulses[k],
        0 <= round < later < pulses.len() - 1,
        0 <= channel < virt_channel_count,
        0 <= other < virt_channel_count,
    ensures
        slot_index(pulses[round], pulses[round + 1], virt_channel_count, channel) <= slot_index(
            pulses[later],
            pulses[later + 1],
            virt_channel_count,
            other,
        ),
{
    lemma_slots_between_pulses(
        pulses[round],
        pulses[round + 1],
        virt_channel_count,
        channel,
        channel,
    );
    lemma_slots_between_pulses(pulses[later], pulses[later + 1], virt_channel_count, other, other);
    assert(pulses[round + 1] <= pulses[later]);
}

/// No slot lies beyond the next pulse.
proof fn lemma_slot_before_next(span: int, parts: int, channel: int)
    requires
        0 <= span,
        0 <= channel < parts,
    ensures
        0 <= span / parts,
        0 <= (span / parts) * (channel + 1) <= span,
{
    vstd::arithmetic::div_mod::lemma_fundamental_div_mod(span, parts);
    vstd::arithmetic::div_mod::lemma_mod_bound(span, parts);
    vstd::arithmetic::div_mod::lemma_div_pos_is_pos(span, parts);
    let width = span / parts;
    assert(0 <= width * (channel + 1) <= parts * width) by (nonlinear_arith)
        requires
            0 <= width,
            0 <= channel < parts,
    ;
}

/// Reads the virtual channels of the cycle between the pulses at `pulse`
/// and `next`.
fn sample_cycle(
    pulse: usize,
    next: usize,
    virt_channel_count: usize,
    full_data: &Vec<Sample>,
    noise_threshold: Sample,
) -> (cycle: VirtSamples)
    requires
        pulse <= next,
    ensures
        cycle@ == cycle_samples(
            full_data@,
            pulse as int,
            next as int,
            virt_channel_count as int,
            noise_threshold,
        ),
{
    let ghost count = virt_channel_count as int;
    let span: usize = next - pulse;
    let spacing: usize = match virt_channel_count.checked_add(1) {
        Some(parts) => span / parts,
        None => {
            proof {
                vstd::arithmetic::div_mod::lemma_basic_div(span as int, count + 1);
            }
            0
        },
    };
    assert(spacing == slot_spacing(pulse as int, next as int, count));
    let mut cycle: VirtSamples = HashMap::new();
    let mut channel: usize = 0;
    while channel < virt_channel_count
        invariant
            channel <= virt_channel_count,
            count == virt_channel_count as int,
            pulse <= next,
            spacing == slot_spacing(pulse as int, next as int, count),
            cycle@ == Map::<VirtChannel, Sample>::new(
                |c: VirtChannel|
                    c < channel && slot_fits(full_data@, pulse as int, next as int, count, c as int),
                |c: VirtChannel|
                    slot_value(
                        full_data@,
                        pulse as int,
                        next as int,
                        count,
                        noise_threshold,
                        c as int,
                    ),
            ),
        decreases virt_channel_count - channel,
    {
        proof {
            lemma_slot_before_next(next - pulse, count + 1, channel as int);
        }
        let index: usize = pulse + spacing * (channel + 1);
        match get_average_sample(index, full_data, spacing, noise_threshold) {
            Ok(value) => {
                cycle.insert(channel, value);
            },
            Err(_) => {},
        }
        channel = channel + 1;
    }
    cycle
}

/// Lays out one cycle as a row with a column for each virtual channel: the
/// value of channel `i` stands at index `i`, and `None` where the cycle has
/// no value for it.
pub fn cycle_row(cycle: &VirtSamples, virt_channel_count: usize) -> (row: Vec<Option<Sample>>)
    ensures
        row.len() == virt_channel_count,
        forall|channel: VirtChannel|
            channel < virt_channel_count ==> #[trigger] row[channel as int] == if cycle@.contains_key(
                channel,
            ) {
                Some(cycle@[channel])
            } else {
                None
            },
{
    let mut row: Vec<Option<Sample>> = Vec::new();
    let mut channel: usize = 0;
    while channel < virt_channel_count
        invariant
            channel <= virt_channel_count,
            row.len() == channel,
            forall|c: VirtChannel|
                c < channel ==> #[trigger] row[c as int] == if cycle@.contains_key(c) {
                    Some(cycle@[c])
                } else {
                    None
                },
        decreases virt_channel_count - channel,
    {
        match cycle.get(&channel) {
            Some(value) => row.push(Some(*value)),
            None => row.push(None),
        }
        channel = channel + 1;
    }
    row
}

/// Reads the virtual channels of every cycle bounded by `sync_points`.
///
/// `sync_points` holds the pulse centres of one physical channel in
/// ascending order and `full_data` that channel's samples. Each pair of
/// neighbouring pulses yields one cycle, in the order of the pulses; a
/// cycle holds the value of each of the `virt_channel_count` virtual
/// channels whose window lies within `full_data`.
pub fn determine_virt_channel_samples(
    sync_points: &Vec<usize>,
    virt_channel_count: usize,
    full_data: &Vec<Sample>,
    noise_threshold: Sample,
) -> (cycles: Vec<VirtSamples>)
    requires
        is_nondecreasing(sync_points@),
    ensures
        cycle_views(cycles@) == virt_channel_cycles(
            positions(sync_points@),
            full_data@,
            virt_channel_count as int,
            noise_threshold,
        ),
{
    let mut cycles: Vec<VirtSamples> = Vec::new();
    if sync_points.len() < 2 {
        return cycles;
    }
    let ghost expected = virt_channel_cycles(
        positions(sync_points@),
        full_data@,
        virt_channel_count as int,
        noise_threshold,
    );
    let mut round: usize = 0;
    while round < sync_points.len() - 1
        invariant
            sync_points.len() >= 2,
            round <= sync_points.len() - 1,
            is_nondecreasing(sync_points@),
            expected == virt_channel_cycles(
                positions(sync_points@),
                full_data@,
                virt_channel_count as int,
                noise_threshold,
            ),
            cycle_views(cycles@) == expected.take(round as int),
        decreases sync_points.len() - round,
    {
        let cycle = sample_cycle(
            sync_points[round],
            sync_points[round + 1],
            virt_channel_count,
            full_data,
            noise_threshold,
        );
        proof {
            assert(cycle_views(cycles@.push(cycle)) == cycle_views(cycles@).push(cycle@));
            assert(expected.take(round + 1) == expected.take(round as int).push(
                expected[round as int],
            ));
        }
        cycles.push(cycle);
        round = round + 1;
    }
    proof {
        assert(expected.take(round as int) == expected);
    }
    cycles
}

} // verus!
