//! Verified core of a collection of real-time audio effect presets.
//!
//! Each preset processes planar audio blocks (all frames of channel 0, then
//! all frames of channel 1) for at most two channels. The sample arithmetic
//! of the presets is floating point; this library holds the parts of their
//! logic that decide where samples go and when: the planar layout, the
//! delay lines, the reversing slicer, the sample-and-hold of the bitcrusher,
//! the noise generator's state sequence and the noise gate's hold counter.

mod modular;
pub mod layout;
pub mod channels;
pub mod delay_bank;
pub mod slicer;
pub mod bitcrush;
pub mod noise;
pub mod gate;
pub mod phaser;
