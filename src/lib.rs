//! Verified core of an audio-reactive sphere: the sphere's lattice topology,
//! a bounded FIFO of audio samples, a spectrum resampler and the mapping of
//! spectrum bands onto vertex displacement weights.

pub mod mesh;
pub mod resample;
pub mod window;
pub mod displacement;
