//! Hardware-agnostic synthesizer building blocks: the control logic of an ADSR envelope,
//! the sample window of an FFT analyzer, the node routing graph and its run order, the
//! waveform shapers of the oscillators, the note handling of a voice, and the ping-pong
//! buffer protocol used to stream audio.
pub mod bounded;
pub mod envelope;
pub mod fft;
pub mod graph;
pub mod oscillators;
pub mod pingpong;
pub mod voice;
