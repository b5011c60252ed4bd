//! The values that pass between the stages of the demultiplexer.

use std::collections::HashMap;
use vstd::prelude::*;

verus! {

/// One raw reading: a voltage in fixed-point form, counted in microvolts.
pub type Sample = i64;

/// Number of a virtual channel within one multiplex cycle, starting at 0.
pub type VirtChannel = usize;

/// The values recovered for one multiplex cycle, by virtual channel. A
/// channel whose estimation window does not fit into the block has no entry.
pub type VirtSamples = HashMap<VirtChannel, Sample>;

/// Number of a physical input of the acquisition device.
pub type ChannelId = u8;

/// Why a block of samples could not be demultiplexed.
#[derive(Debug, Clone, Copy, PartialEq, Eq, Structural)]
pub enum VirtChannelError {
    /// Some channel found fewer than two synchronisation pulses, so that no
    /// multiplex cycle is bounded on both sides.
    NotEnoughData,
    /// No sample of some channel rose above the synchronisation threshold.
    NoSyncPulse,
    /// An estimation window would reach beyond the block of samples.
    OutOfBounds,
}

/// The positions held by a vector of sample indices.
pub open spec fn positions(indices: Seq<usize>) -> Seq<int> {
    indices.map_values(|p: usize| p as int)
}

} // verus!
