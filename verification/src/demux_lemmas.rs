//! What holds of the demultiplexer as a whole.

use crate::config::ConstConfig;
use crate::cycles::{is_plateau, lemma_cycle_of_plateaus, plateau_cycle};
use crate::model::{ChannelId, Sample, VirtChannel, VirtChannelError, VirtSamples};
use crate::pulse_lemmas::{
    block_centers, is_pulse_train, is_run, lemma_pulse_train_detected,
    lemma_wide_blocks_all_yield,
};
use crate::sync_pulse::{exceeds_lower_width, is_elevated, Block};
use crate::virt_channels::{
    channel_blocks, channel_cycles, channel_pulses, cycles_below, demultiplexed,
    demultiplexed_cycles, has_sync_pulse, lacks_full_cycle, lacks_sync_pulse, nominal_width,
    outcome_view,
};
use vstd::prelude::*;

verus! {

/// Two runs on the same blocks with the same settings end alike: with the
/// same error, or with the same cycles in the same order.
pub proof fn lemma_same_input_same_outcome(
    raw_data: Map<ChannelId, Vec<Sample>>,
    again: Map<ChannelId, Vec<Sample>>,
    sample_speed: int,
    config: ConstConfig,
    first: Result<Vec<VirtSamples>, VirtChannelError>,
    second: Result<Vec<VirtSamples>, VirtChannelError>,
)
    requires
        channel_blocks(raw_data) == channel_blocks(again),
        outcome_view(first) == demultiplexed(channel_blocks(raw_data), sample_speed, config),
        outcome_view(second) == demultiplexed(channel_blocks(again), sample_speed, config),
    ensures
        outcome_view(first) == outcome_view(second),
{
}

/// Whether the cycle between run `round` and the next run of `runs` reads
/// every virtual channel `i` from a plateau at `levels[i]`.
pub open spec fn reads_plateaus(
    samples: Seq<Sample>,
    runs: Seq<Block>,
    round: int,
    levels: Seq<Sample>,
) -> bool {
    forall|channel: int|
        0 <= channel < levels.len() ==> is_plateau(
            samples,
            runs[round].center(),
            runs[round + 1].center(),
            levels.len() as int,
            channel,
            #[trigger] levels[channel],
        )
}

/// Whether `samples` is a train of pulses with plateaus between them: the
/// elevated samples form the runs `runs`, each of them wider than the lower
/// width, and between the midpoints of any two neighbours but the last two
/// every virtual channel `i` is read from a plateau at `levels[i]`.
pub open spec fn is_plateau_train(
    samples: Seq<Sample>,
    sample_speed: int,
    config: ConstConfig,
    runs: Seq<Block>,
    levels: Seq<Sample>,
) -> bool {
    &&& levels.len() == config.virt_channel_count
    &&& is_pulse_train(
        samples,
        nominal_width(sample_speed, config),
        config.arduino_hz_tolerance as int,
        config.sync_point_threshold,
        runs,
    )
    &&& forall|k: int|
        0 <= k < runs.len() ==> exceeds_lower_width(
            (#[trigger] runs[k]).width(),
            nominal_width(sample_speed, config),
            config.arduino_hz_tolerance as int,
        )
    &&& forall|round: int|
        0 <= round < runs.len() - 2 ==> #[trigger] reads_plateaus(samples, runs, round, levels)
}

/// A train of pulses with plateaus between them is recovered exactly: the
/// pulses are the midpoints of all runs but the last, and every cycle
/// between two of them holds the levels of the plateaus.
pub proof fn lemma_plateau_train_recovered(
    samples: Seq<Sample>,
    sample_speed: int,
    config: ConstConfig,
    runs: Seq<Block>,
    levels: Seq<Sample>,
)
    requires
        sample_speed >= 0,
        config.arduino_hz > 0,
        is_plateau_train(samples, sample_speed, config, runs, levels),
    ensures
        channel_pulses(samples, sample_speed, config) == block_centers(runs.drop_last()),
        channel_cycles(samples, sample_speed, config) == Seq::new(
            if runs.len() < 2 {
                0
            } else {
                (runs.len() - 2) as nat
            },
            |round: int| plateau_cycle(levels),
        ),
{
    let nominal = nominal_width(sample_speed, config);
    let tolerance = config.arduino_hz_tolerance as int;
    vstd::arithmetic::div_mod::lemma_div_pos_is_pos(sample_speed, config.arduino_hz as int);
    lemma_pulse_train_detected(samples, nominal, tolerance, config.sync_point_threshold, runs);
    let closed = runs.drop_last();
    assert forall|k: int| 0 <= k < closed.len() implies exceeds_lower_width(
        (#[trigger] closed[k]).width(),
        nominal,
        tolerance,
    ) by {
        assert(closed[k] == runs[k]);
    }
    lemma_wide_blocks_all_yield(closed, nominal, tolerance);
    let pulses = channel_pulses(samples, sample_speed, config);
    let cycles = channel_cycles(samples, sample_speed, config);
    assert(cycles.len() == if runs.len() < 2 {
        0
    } else {
        (runs.len() - 2) as nat
    });
    assert forall|round: int| 0 <= round < cycles.len() implies cycles[round] == plateau_cycle(
        levels,
    ) by {
        assert(pulses[round] == runs[round].center());
        assert(pulses[round + 1] == runs[round + 1].center());
        assert(reads_plateaus(samples, runs, round, levels));
        lemma_cycle_of_plateaus(
            samples,
            runs[round].center(),
            runs[round + 1].center(),
            config.virt_channel_noise_threshold,
            levels,
        );
    }
}

/// With one channel only, the cycles of the call are the cycles of that
/// channel.
pub proof fn lemma_single_channel_cycles(
    blocks: Map<ChannelId, Seq<Sample>>,
    sample_speed: int,
    config: ConstConfig,
    channel: ChannelId,
)
    requires
        blocks.dom() == set![channel],
    ensures
        demultiplexed_cycles(blocks, sample_speed, config) == channel_cycles(
            blocks[channel],
            sample_speed,
            config,
        ),
{
    lemma_cycles_below_single(blocks, sample_speed, config, channel, ChannelId::MAX + 1);
}

proof fn lemma_cycles_below_single(
    blocks: Map<ChannelId, Seq<Sample>>,
    sample_speed: int,
    config: ConstConfig,
    channel: ChannelId,
    bound: int,
)
    requires
        blocks.dom() == set![channel],
        0 <= bound <= ChannelId::MAX + 1,
    ensures
        cycles_below(blocks, sample_speed, config, bound) == if channel < bound {
            channel_cycles(blocks[channel], sample_speed, config)
        } else {
            Seq::empty()
        },
    decreases bound,
{
    if bound > 0 {
        lemma_cycles_below_single(blocks, sample_speed, config, channel, bound - 1);
        let last = (bound - 1) as ChannelId;
        assert(blocks.contains_key(last) <==> last == channel);
        let before = cycles_below(blocks, sample_speed, config, bound - 1);
        if last == channel {
            assert(before + channel_cycles(blocks[channel], sample_speed, config)
                == channel_cycles(blocks[channel], sample_speed, config));
        }
    }
}

/// A block that holds a train of three pulses or more with plateaus
/// between them is demultiplexed into the levels of the plateaus, once for
/// every pair of neighbouring pulses but the last.
pub proof fn lemma_plateaus_demultiplexed(
    blocks: Map<ChannelId, Seq<Sample>>,
    sample_speed: int,
    config: ConstConfig,
    channel: ChannelId,
    runs: Seq<Block>,
    levels: Seq<Sample>,
)
    requires
        sample_speed >= 0,
        config.arduino_hz > 0,
        blocks.dom() == set![channel],
        runs.len() >= 3,
        is_plateau_train(blocks[channel], sample_speed, config, runs, levels),
    ensures
        demultiplexed(blocks, sample_speed, config) == Ok::<
            Seq<Map<VirtChannel, Sample>>,
            VirtChannelError,
        >(Seq::new((runs.len() - 2) as nat, |round: int| plateau_cycle(levels))),
{
    let samples = blocks[channel];
    lemma_plateau_train_recovered(samples, sample_speed, config, runs, levels);
    lemma_single_channel_cycles(blocks, sample_speed, config, channel);
    assert(is_run(
        samples,
        nominal_width(sample_speed, config),
        config.arduino_hz_tolerance as int,
        config.sync_point_threshold,
        runs[0],
    ));
    assert(is_elevated(samples, config.sync_point_threshold, runs[0].start));
    assert(has_sync_pulse(samples, config));
    assert(!lacks_sync_pulse(blocks, config)) by {
        assert forall|other: ChannelId| #[trigger] blocks.contains_key(other) implies has_sync_pulse(
            blocks[other],
            config,
        ) by {
            assert(other == channel);
        }
    }
    assert(!lacks_full_cycle(blocks, sample_speed, config)) by {
        assert forall|other: ChannelId| #[trigger]
            blocks.contains_key(other) implies channel_pulses(
            blocks[other],
            sample_speed,
            config,
        ).len() >= 2 by {
            assert(other == channel);
        }
    }
}

/// A channel without a sample above the threshold fails the call for want
/// of a synchronisation pulse, whatever the other channels hold.
pub proof fn lemma_block_below_threshold_refused(
    blocks: Map<ChannelId, Seq<Sample>>,
    sample_speed: int,
    config: ConstConfig,
    channel: ChannelId,
)
    requires
        blocks.contains_key(channel),
        forall|i: int|
            0 <= i < blocks[channel].len() ==> blocks[channel][i] <= config.sync_point_threshold,
    ensures
        demultiplexed(blocks, sample_speed, config) == Err::<
            Seq<Map<VirtChannel, Sample>>,
            VirtChannelError,
        >(VirtChannelError::NoSyncPulse),
{
    assert(!has_sync_pulse(blocks[channel], config));
}

/// Where every channel has a sample above the threshold, a channel with
/// fewer than two pulses fails the call for want of data.
pub proof fn lemma_too_few_pulses_refused(
    blocks: Map<ChannelId, Seq<Sample>>,
    sample_speed: int,
    config: ConstConfig,
    channel: ChannelId,
)
    requires
        !lacks_sync_pulse(blocks, config),
        blocks.contains_key(channel),
        channel_pulses(blocks[channel], sample_speed, config).len() < 2,
    ensures
        demultiplexed(blocks, sample_speed, config) == Err::<
            Seq<Map<VirtChannel, Sample>>,
            VirtChannelError,
        >(VirtChannelError::NotEnoughData),
{
}

} // verus!
