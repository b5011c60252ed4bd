//! The settings shared by every stage of the demultiplexer.

use crate::model::Sample;
use vstd::prelude::*;

verus! {

/// Settings of one demultiplexer run.
#[derive(Debug, Clone, Copy)]
pub struct ConstConfig {
    /// A sample strictly above this level belongs to a synchronisation pulse.
    pub sync_point_threshold: Sample,
    /// Switching frequency of the external multiplexer, in slots per second.
    pub arduino_hz: usize,
    /// Number of virtual channels carried between two synchronisation pulses.
    pub virt_channel_count: usize,
    /// Accepted relative deviation of a pulse width from its nominal width,
    /// in thousandths.
    pub arduino_hz_tolerance: u32,
    /// A window whose spread stays strictly below this level is averaged by
    /// its mean, any other by its median.
    pub virt_channel_noise_threshold: Sample,
}

impl ConstConfig {
    /// The settings of the reference acquisition rig.
    pub fn get_config() -> (config: Self)
        ensures
            config.sync_point_threshold == 3_500_000,
            config.arduino_hz == 14_700,
            config.virt_channel_count == 4,
            config.arduino_hz_tolerance == 800,
            config.virt_channel_noise_threshold == 500_000,
    {
        ConstConfig {
            sync_point_threshold: 3_500_000,
            arduino_hz: 14_700,
            virt_channel_count: 4,
            arduino_hz_tolerance: 800,
            virt_channel_noise_threshold: 500_000,
        }
    }
}

} // verus!
