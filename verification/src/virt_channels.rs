//! The demultiplexer: from the blocks of all physical channels to the
//! sequence of multiplex cycles.
//!
//! Every channel is searched for synchronisation pulses on its own. A
//! channel without an elevated sample fails the whole call, and so does,
//! after that, a channel with fewer than two pulses. Otherwise the cycles
//! of the channels are laid end to end, the channels in ascending order of
//! their number and the cycles of one channel in the order of its pulses.

use crate::config::ConstConfig;
use crate::cycles::{
    cycle_views, determine_virt_channel_samples, is_nondecreasing, virt_channel_cycles,
};
use crate::model::{positions, ChannelId, Sample, VirtChannel, VirtChannelError, VirtSamples};
use crate::pulse_lemmas::lemma_sync_pulses_ascending;
use crate::sync_pulse::{find_sync_pulse, is_elevated, sync_pulses};
use std::collections::HashMap;
use vstd::prelude::*;

verus! {

broadcast use vstd::std_specs::hash::group_hash_axioms;

/// The samples of every physical channel held by `raw_data`.
pub open spec fn channel_blocks(raw_data: Map<ChannelId, Vec<Sample>>) -> Map<
    ChannelId,
    Seq<Sample>,
> {
    Map::new(
        |channel: ChannelId| raw_data.contains_key(channel),
        |channel: ChannelId| raw_data[channel]@,
    )
}

/// The nominal width of a synchronisation pulse in samples: the samples
/// taken per second over the slots switched per second, rounded down.
pub open spec fn nominal_width(sample_speed: int, config: ConstConfig) -> int {
    sample_speed / (config.arduino_hz as int)
}

/// Whether some sample of `samples` is elevated.
pub open spec fn has_sync_pulse(samples: Seq<Sample>, config: ConstConfig) -> bool {
    exists|i: int| is_elevated(samples, config.sync_point_threshold, i)
}

/// The pulse centres of one channel.
pub open spec fn channel_pulses(samples: Seq<Sample>, sample_speed: int, config: ConstConfig) -> Seq<
    int,
> {
    sync_pulses(
        samples,
        nominal_width(sample_speed, config),
        config.arduino_hz_tolerance as int,
        config.sync_point_threshold,
    )
}

/// The cycles of one channel.
pub open spec fn channel_cycles(samples: Seq<Sample>, sample_speed: int, config: ConstConfig) -> Seq<
    Map<VirtChannel, Sample>,
> {
    virt_channel_cycles(
        channel_pulses(samples, sample_speed, config),
        samples,
        config.virt_channel_count as int,
        config.virt_channel_noise_threshold,
    )
}

/// Whether some channel has no elevated sample.
pub open spec fn lacks_sync_pulse(blocks: Map<ChannelId, Seq<Sample>>, config: ConstConfig) -> bool {
    exists|channel: ChannelId| #[trigger]
        blocks.contains_key(channel) && !has_sync_pulse(blocks[channel], config)
}

/// Whether some channel has fewer than two pulses.
pub open spec fn lacks_full_cycle(
    blocks: Map<ChannelId, Seq<Sample>>,
    sample_speed: int,
    config: ConstConfig,
) -> bool {
    exists|channel: ChannelId| #[trigger]
        blocks.contains_key(channel) && channel_pulses(blocks[channel], sample_speed, config).len()
            < 2
}

/// The error that `blocks` are refused with, if any. A channel without an
/// elevated sample is reported before a channel with too few pulses,
/// whichever channels they are.
pub open spec fn demultiplex_error(
    blocks: Map<ChannelId, Seq<Sample>>,
    sample_speed: int,
    config: ConstConfig,
) -> Option<VirtChannelError> {
    if lacks_sync_pulse(blocks, config) {
        Some(VirtChannelError::NoSyncPulse)
    } else if lacks_full_cycle(blocks, sample_speed, config) {
        Some(VirtChannelError::NotEnoughData)
    } else {
        None
    }
}

/// The cycles of the channels numbered below `bound`, laid end to end in
/// ascending order of the channel number.
pub open spec fn cycles_below(
    blocks: Map<ChannelId, Seq<Sample>>,
    sample_speed: int,
    config: ConstConfig,
    bound: int,
) -> Seq<Map<VirtChannel, Sample>>
    decreases bound,
{
    if bound <= 0 {
        Seq::empty()
    } else {
        let before = cycles_below(blocks, sample_speed, config, bound - 1);
        let channel = (bound - 1) as ChannelId;
        if blocks.contains_key(channel) {
            before + channel_cycles(blocks[channel], sample_speed, config)
        } else {
            before
        }
    }
}

/// The cycles of all channels, laid end to end in ascending order of the
/// channel number.
pub open spec fn demultiplexed_cycles(
    blocks: Map<ChannelId, Seq<Sample>>,
    sample_speed: int,
    config: ConstConfig,
) -> Seq<Map<VirtChannel, Sample>> {
    cycles_below(blocks, sample_speed, config, ChannelId::MAX + 1)
}

/// What demultiplexing `blocks` comes to.
pub open spec fn demultiplexed(
    blocks: Map<ChannelId, Seq<Sample>>,
    sample_speed: int,
    config: ConstConfig,
) -> Result<Seq<Map<VirtChannel, Sample>>, VirtChannelError> {
    match demultiplex_error(blocks, sample_speed, config) {
        Some(error) => Err(error),
        None => Ok(demultiplexed_cycles(blocks, sample_speed, config)),
    }
}

/// What a result of the demultiplexer holds.
pub open spec fn outcome_view(outcome: Result<Vec<VirtSamples>, VirtChannelError>) -> Result<
    Seq<Map<VirtChannel, Sample>>,
    VirtChannelError,
> {
    match outcome {
        Ok(cycles) => Ok(cycle_views(cycles@)),
        Err(error) => Err(error),
    }
}

/// Whether `found` holds, for every channel number below its length, the
/// pulses of that channel, or nothing where the channel is absent.
spec fn pulses_found(
    found: Seq<Option<Vec<usize>>>,
    blocks: Map<ChannelId, Seq<Sample>>,
    sample_speed: int,
    config: ConstConfig,
) -> bool {
    forall|channel: ChannelId|
        #![trigger blocks.contains_key(channel)]
        #![trigger found[channel as int]]
        channel < found.len() ==> match found[channel as int] {
            Some(pulses) => {
                &&& blocks.contains_key(channel)
                &&& has_sync_pulse(blocks[channel], config)
                &&& positions(pulses@) == channel_pulses(blocks[channel], sample_speed, config)
            },
            None => !blocks.contains_key(channel),
        }
}

/// Splits the blocks of all physical channels into multiplex cycles.
///
/// `raw_data` holds one block of samples for each physical channel and
/// `picoscope_sample_speed` the number of samples taken per second. The
/// nominal pulse width is `picoscope_sample_speed / config.arduino_hz`.
///
/// Fails with [`VirtChannelError::NoSyncPulse`] when some channel has no
/// sample above `config.sync_point_threshold`, and else with
/// [`VirtChannelError::NotEnoughData`] when some channel has fewer than two
/// pulses. Otherwise returns the cycles of all channels, the channels in
/// ascending order of their number, each channel's cycles in the order of
/// its pulses.
pub fn split_into_virt_channels(
    raw_data: &HashMap<ChannelId, Vec<Sample>>,
    picoscope_sample_speed: u64,
    config: &ConstConfig,
) -> (result: Result<Vec<VirtSamples>, VirtChannelError>)
    requires
        config.arduino_hz > 0,
    ensures
        outcome_view(result) == demultiplexed(
            channel_blocks(raw_data@),
            picoscope_sample_speed as int,
            *config,
        ),
{
    let ghost blocks = channel_blocks(raw_data@);
    let ghost speed = picoscope_sample_speed as int;
    let est_sample_width: u64 = picoscope_sample_speed / (config.arduino_hz as u64);
    let mut found: Vec<Option<Vec<usize>>> = Vec::new();
    let mut too_few = false;
    let mut number: usize = 0;
    while number <= ChannelId::MAX as usize
        invariant
            number <= ChannelId::MAX + 1,
            found.len() == number,
            blocks == channel_blocks(raw_data@),
            speed == picoscope_sample_speed as int,
            est_sample_width == nominal_width(speed, *config),
            pulses_found(found@, blocks, speed, *config),
            too_few <==> exists|channel: ChannelId| #[trigger]
                blocks.contains_key(channel) && channel < number && channel_pulses(
                    blocks[channel],
                    speed,
                    *config,
                ).len() < 2,
        decreases ChannelId::MAX + 1 - number,
    {
        let channel = number as ChannelId;
        let ghost before = found@;
        match raw_data.get(&channel) {
            Some(input) => {
                assert(blocks.contains_key(channel) && blocks[channel] == input@);
                match find_sync_pulse(
                    input,
                    est_sample_width,
                    config.arduino_hz_tolerance,
                    config.sync_point_threshold,
                ) {
                    Ok(pulses) => {
                        assert(positions(pulses@).len() == pulses.len());
                        if pulses.len() < 2 {
                            too_few = true;
                        }
                        found.push(Some(pulses));
                    },
                    Err(error) => {
                        assert(lacks_sync_pulse(blocks, *config));
                        return Err(error);
                    },
                }
            },
            None => {
                assert(!blocks.contains_key(channel));
                found.push(None);
            },
        }
        proof {
            assert forall|other: ChannelId|
                #![trigger blocks.contains_key(other)]
                #![trigger found@[other as int]]
                other < found@.len() implies match found@[other as int] {
                Some(pulses) => {
                    &&& blocks.contains_key(other)
                    &&& has_sync_pulse(blocks[other], *config)
                    &&& positions(pulses@) == channel_pulses(blocks[other], speed, *config)
                },
                None => !blocks.contains_key(other),
            } by {
                if other < number {
                    assert(found@[other as int] == before[other as int]);
                }
            }
        }
        number = number + 1;
    }
    if too_few {
        assert(lacks_full_cycle(blocks, speed, *config));
        assert(!lacks_sync_pulse(blocks, *config)) by {
            assert forall|channel: ChannelId| #[trigger]
                blocks.contains_key(channel) implies has_sync_pulse(blocks[channel], *config) by {
                assert(found@[channel as int] is Some);
            }
        }
        return Err(VirtChannelError::NotEnoughData);
    }
    proof {
        assert(!lacks_sync_pulse(blocks, *config)) by {
            assert forall|channel: ChannelId| #[trigger]
                blocks.contains_key(channel) implies has_sync_pulse(blocks[channel], *config) by {
                assert(found@[channel as int] is Some);
            }
        }
        assert(!lacks_full_cycle(blocks, speed, *config));
    }
    let mut cycles: Vec<VirtSamples> = Vec::new();
    number = 0;
    while number <= ChannelId::MAX as usize
        invariant
            number <= ChannelId::MAX + 1,
            found.len() == ChannelId::MAX + 1,
            blocks == channel_blocks(raw_data@),
            speed == picoscope_sample_speed as int,
            est_sample_width == nominal_width(speed, *config),
            pulses_found(found@, blocks, speed, *config),
            cycle_views(cycles@) == cycles_below(blocks, speed, *config, number as int),
        decreases ChannelId::MAX + 1 - number,
    {
        let channel = number as ChannelId;
        assert(found@[channel as int] is Some <==> blocks.contains_key(channel));
        match (&found[number], raw_data.get(&channel)) {
            (Some(pulses), Some(input)) => {
                assert(blocks[channel] == input@);
                assert(is_nondecreasing(pulses@)) by {
                    lemma_sync_pulses_ascending(
                        input@,
                        nominal_width(speed, *config),
                        config.arduino_hz_tolerance as int,
                        config.sync_point_threshold,
                    );
                    assert forall|j: int, k: int| 0 <= j <= k < pulses.len() implies pulses[j]
                        <= pulses[k] by {
                        assert(positions(pulses@)[j] == pulses[j]);
                        assert(positions(pulses@)[k] == pulses[k]);
                    }
                }
                let mut channel_cycles = determine_virt_channel_samples(
                    pulses,
                    config.virt_channel_count,
                    input,
                    config.virt_channel_noise_threshold,
                );
                proof {
                    assert(cycle_views(cycles@ + channel_cycles@) == cycle_views(cycles@)
                        + cycle_views(channel_cycles@));
                }
                cycles.append(&mut channel_cycles);
            },
            _ => {},
        }
        number = number + 1;
    }
    Ok(cycles)
}

} // verus!
