//! The waveform shapers of the oscillators. Each one turns a phase running from 0 to 1
//! into one period of its waveform; the sample computations themselves are floating-point
//! and live beside the processing code that runs them.
use vstd::prelude::*;

verus! {

/// A square wave: low for the first half of the period, high for the second.
#[derive(Clone, Copy, Debug, PartialEq, Eq, Structural)]
pub struct Square;

/// A sawtooth wave: rises from -1 to 1 over the period.
#[derive(Clone, Copy, Debug, PartialEq, Eq, Structural)]
pub struct Saw;

/// A sine wave.
#[derive(Clone, Copy, Debug, PartialEq, Eq, Structural)]
pub struct Sine;

/// A triangle wave.
#[derive(Clone, Copy, Debug, PartialEq, Eq, Structural)]
pub struct Triangle;

/// One of the waveform shapers.
#[derive(Clone, Copy, Debug, PartialEq, Eq, Structural)]
pub enum Oscillator {
    Square(Square),
    Sine(Sine),
    Saw(Saw),
    Triangle(Triangle),
}

} // verus!
