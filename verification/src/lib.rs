//! Recovery of time-division-multiplexed virtual channels from the sample
//! stream of one physical acquisition channel.
//!
//! An external controller switches several logical signals onto one analog
//! input and marks the start of every switching cycle with a short
//! high-amplitude synchronisation pulse. This crate finds those pulses in a
//! block of samples ([`sync_pulse`]), divides the span between two
//! neighbouring pulses into evenly spaced slots ([`cycles`]), condenses
//! every slot to one value ([`average`]) and does so for the blocks of all
//! physical channels at once ([`virt_channels`]).
//!
//! Samples are integers: voltages in fixed-point form, counted in
//! microvolts. Widths and distances are compared exactly, and a quotient
//! that is no integer is rounded down.
//!
//! The demultiplexer keeps no state: what it returns is determined by its
//! arguments. What follows from its definition is proved in
//! [`pulse_lemmas`] and [`demux_lemmas`]. Beside it stand two helpers of the
//! acquisition: [`batch`] cuts a stream of samples into blocks, and [`rate`]
//! estimates the rate at which samples arrive.

pub mod average;
pub mod batch;
pub mod config;
pub mod cycles;
pub mod demux_lemmas;
pub mod model;
pub mod pulse_lemmas;
pub mod rate;
pub mod sync_pulse;
pub mod virt_channels;
