//! The control logic of an ADSR (attack, decay, sustain, release) envelope: which segment
//! of the envelope each sample falls in, and how far along that segment it is.
//!
//! The level of a sample follows from its [`Segment`] and the sustain level alone:
//! attack ramps from 0 to 1, decay from 1 to the sustain level, release from the sustain
//! level to 0, each by the floating-point quotient `step / length` clamped to `[0, 1]`;
//! sustain holds the sustain level, and a silent envelope gives 0. A segment of length 0
//! gives the end level for a step above 0 (the quotient is infinite), but NaN at step 0:
//! `0 / 0` is NaN, which passes through the clamp.
use vstd::prelude::*;

verus! {

/// Where one sample of the envelope lies.
#[derive(PartialEq, Eq, Structural, Clone, Copy, Debug)]
pub enum Segment {
    /// Rising from 0 to full level: sample `step` of an attack `length` samples long.
    Attack { step: u32, length: u32 },
    /// Falling from full to sustain level: sample `step` of a decay `length` samples long.
    Decay { step: u32, length: u32 },
    /// Holding the sustain level while the key stays pressed.
    Sustain,
    /// Falling from sustain level to 0: sample `step` of a release `length` samples long.
    Release { step: u32, length: u32 },
    /// No note: level 0.
    Silent,
}

/// The state of an envelope.
#[derive(PartialEq, Eq, Structural, Clone, Copy, Debug)]
pub struct AdsrState {
    /// Length of the attack, in samples.
    pub attack: u32,
    /// Length of the decay, in samples.
    pub decay: u32,
    /// Length of the release, in samples.
    pub release: u32,
    /// Current step of the envelope (reset when the release starts).
    pub sample_step: u32,
    /// While true the envelope goes through attack, decay and sustain; once false, through
    /// release.
    pub key_pressed: bool,
    /// True once the key is pressed; false again once the release has ended.
    pub active: bool,
    /// True once the key is released after having been pressed.
    pub released: bool,
}

/// The segment of the next sample while the key is pressed and the step is `step`.
pub open spec fn held_segment(attack: u32, decay: u32, step: u32) -> Segment {
    if step <= attack {
        Segment::Attack { step, length: attack }
    } else if step - attack <= decay {
        Segment::Decay { step: (step - attack) as u32, length: decay }
    } else {
        Segment::Sustain
    }
}

/// True when the next sample starts the release, which restarts the step count.
pub open spec fn starts_release(s: AdsrState) -> bool {
    !s.key_pressed && s.active && !s.released
}

/// The segment of the next sample and the state after it.
pub open spec fn advance(s: AdsrState) -> (Segment, AdsrState) {
    if s.key_pressed {
        (
            held_segment(s.attack, s.decay, s.sample_step),
            AdsrState { sample_step: (s.sample_step + 1) as u32, active: true, released: false, ..s },
        )
    } else if s.active {
        let step: u32 = if s.released {
            s.sample_step
        } else {
            0
        };
        (
            Segment::Release { step, length: s.release },
            AdsrState { sample_step: (step + 1) as u32, active: !(step > s.release), released: true, ..s },
        )
    } else {
        (Segment::Silent, AdsrState { sample_step: (s.sample_step + 1) as u32, ..s })
    }
}

/// The state after `k` samples.
pub open spec fn advance_by(s: AdsrState, k: nat) -> AdsrState
    decreases k,
{
    if k == 0 {
        s
    } else {
        advance(advance_by(s, (k - 1) as nat)).1
    }
}

/// An ADSR envelope, counted in samples.
pub struct ADSR {
    attack: u32,
    decay: u32,
    release: u32,
    sample_step: u32,
    key_pressed: bool,
    active: bool,
    released: bool,
}

impl View for ADSR {
    type V = AdsrState;

    closed spec fn view(&self) -> AdsrState {
        AdsrState {
            attack: self.attack,
            decay: self.decay,
            release: self.release,
            sample_step: self.sample_step,
            key_pressed: self.key_pressed,
            active: self.active,
            released: self.released,
        }
    }
}

impl ADSR {
    /// An envelope with the given lengths, in samples, at its first step; it is active
    /// exactly when the key starts pressed.
    pub fn new(attack: u32, decay: u32, release: u32, key_pressed: bool) -> (r: ADSR)
        ensures
            r@ == (AdsrState {
                attack,
                decay,
                release,
                sample_step: 0,
                key_pressed,
                active: key_pressed,
                released: false,
            }),
    {
        ADSR { attack, decay, release, sample_step: 0, key_pressed, active: key_pressed, released: false }
    }

    /// The state of the envelope.
    pub fn state(&self) -> (r: AdsrState)
        ensures
            r == self@,
    {
        AdsrState {
            attack: self.attack,
            decay: self.decay,
            release: self.release,
            sample_step: self.sample_step,
            key_pressed: self.key_pressed,
            active: self.active,
            released: self.released,
        }
    }

    /// Presses the key: the envelope starts over from its first step.
    pub fn note_on(&mut self)
        ensures
            final(self)@ == (AdsrState { sample_step: 0, key_pressed: true, ..old(self)@ }),
    {
        self.sample_step = 0;
        self.key_pressed = true;
    }

    /// Releases the key.
    pub fn note_off(&mut self)
        ensures
            final(self)@ == (AdsrState { key_pressed: false, ..old(self)@ }),
    {
        self.key_pressed = false;
    }

    /// Sets the lengths, in samples, whatever the state of the envelope.
    /// May be unstable if changing parameters while a note is active.
    pub fn update_unchecked(&mut self, attack: u32, decay: u32, release: u32)
        ensures
            final(self)@ == (AdsrState { attack, decay, release, ..old(self)@ }),
    {
        self.attack = attack;
        self.decay = decay;
        self.release = release;
    }

    /// Sets the lengths, in samples, but only while the envelope is inactive.
    /// Returns true if they were set, false if not.
    pub fn update(&mut self, attack: u32, decay: u32, release: u32) -> (r: bool)
        ensures
            r == !old(self)@.active,
            r ==> final(self)@ == (AdsrState { attack, decay, release, ..old(self)@ }),
            !r ==> final(self)@ == old(self)@,
    {
        if self.active {
            return false;
        }
        self.update_unchecked(attack, decay, release);
        true
    }

    /// True when [`ADSR::next`] can count the next step: the step counter is below its
    /// maximum, or the next sample starts the release and restarts it.
    pub fn can_advance(&self) -> (r: bool)
        ensures
            r == (starts_release(self@) || self@.sample_step < u32::MAX),
    {
        (!self.key_pressed && self.active && !self.released) || self.sample_step < u32::MAX
    }

    /// Moves on by one sample and says where that sample lies.
    pub fn next(&mut self) -> (r: Segment)
        requires
            starts_release(old(self)@) || old(self)@.sample_step < u32::MAX,
        ensures
            (r, final(self)@) == advance(old(self)@),
            old(self)@.key_pressed && old(self)@.sample_step <= old(self)@.attack ==> r == (Segment::Attack {
                step: old(self)@.sample_step,
                length: old(self)@.attack,
            }),
            old(self)@.key_pressed && old(self)@.attack < old(self)@.sample_step
                && old(self)@.sample_step as int <= old(self)@.attack as int + old(self)@.decay as int ==> r == (Segment::Decay {
                step: (old(self)@.sample_step - old(self)@.attack) as u32,
                length: old(self)@.decay,
            }),
            old(self)@.key_pressed && old(self)@.sample_step as int > old(self)@.attack as int + old(self)@.decay as int
                ==> r == Segment::Sustain,
    {
        let segment = if self.key_pressed {
            self.active = true;
            self.released = false;
            // Attack phase
            if self.sample_step <= self.attack {
                Segment::Attack { step: self.sample_step, length: self.attack }
            // Decay phase
            } else if self.sample_step - self.attack <= self.decay {
                Segment::Decay { step: self.sample_step - self.attack, length: self.decay }
            // Sustain phase
            } else {
                Segment::Sustain
            }
        // Key released but note already started; release phase
        } else if self.active {
            // If it was not released on the previous step, reset the counter
            if !self.released {
                self.sample_step = 0;
            }
            self.released = true;
            if self.sample_step > self.release {
                self.active = false;
            }
            Segment::Release { step: self.sample_step, length: self.release }
        } else {
            Segment::Silent
        };
        self.sample_step = self.sample_step + 1;
        segment
    }
}

/// While the key stays pressed, the step counts up by one per sample and the samples go
/// through the attack, then the decay, then hold the sustain level.
pub proof fn lemma_held_key(s: AdsrState, k: nat)
    requires
        s.key_pressed,
        s.sample_step + k < u32::MAX,
    ensures
        advance_by(s, k).sample_step == s.sample_step + k,
        advance_by(s, k).key_pressed,
        k > 0 ==> advance_by(s, k).active && !advance_by(s, k).released,
        advance_by(s, k).attack == s.attack && advance_by(s, k).decay == s.decay && advance_by(s, k).release == s.release,
        advance(advance_by(s, k)).0 == held_segment(s.attack, s.decay, (s.sample_step + k) as u32),
    decreases k,
{
    if k > 0 {
        lemma_held_key(s, (k - 1) as nat);
    }
}

/// Once the key is released, the release runs for `release + 1` more samples, at steps
/// `0` to `release`, and then ends: the envelope is inactive, so its lengths can be updated,
/// and every later sample is silent until the key is pressed again (as long as the step
/// counter has not reached its maximum).
pub proof fn lemma_release_ends(s: AdsrState)
    requires
        starts_release(s),
        s.release + 2 < u32::MAX,
    ensures
        forall|k: nat| k <= s.release + 1 ==> #[trigger] advance(advance_by(s, k)).0 == (Segment::Release { step: k as u32, length: s.release }),
        !advance_by(s, (s.release + 2) as nat).active,
        !advance_by(s, (s.release + 2) as nat).key_pressed,
        forall|k: nat|
            s.release + 2 <= k < u32::MAX ==> !(#[trigger] advance_by(s, k)).active && advance(advance_by(s, k)).0
                == Segment::Silent,
{
    assert forall|k: nat| k <= s.release + 1 implies #[trigger] advance(advance_by(s, k)).0 == (Segment::Release {
        step: k as u32,
        length: s.release,
    }) by {
        if k > 0 {
            lemma_releasing(s, k);
        }
    }
    lemma_releasing(s, (s.release + 2) as nat);
    assert forall|k: nat| s.release + 2 <= k < u32::MAX implies !(#[trigger] advance_by(s, k)).active && advance(
        advance_by(s, k),
    ).0 == Segment::Silent by {
        lemma_releasing(s, k);
    }
}

/// The state `k` samples into a release, for `1 <= k < u32::MAX`.
proof fn lemma_releasing(s: AdsrState, k: nat)
    requires
        starts_release(s),
        s.release + 2 < u32::MAX,
        1 <= k < u32::MAX,
    ensures
        advance_by(s, k) == (AdsrState {
            sample_step: k as u32,
            key_pressed: false,
            active: k <= s.release + 1,
            released: true,
            ..s
        }),
    decreases k,
{
    if k > 1 {
        lemma_releasing(s, (k - 1) as nat);
    } else {
        assert(advance_by(s, 0) == s);
    }
    assert(advance_by(s, k) == advance(advance_by(s, (k - 1) as nat)).1);
}

/// An envelope whose key is not pressed and which is not active stays so, and every sample
/// is silent, until the key is pressed (as long as the step counter has not reached its
/// maximum).
pub proof fn lemma_idle_stays_silent(s: AdsrState, k: nat)
    requires
        !s.key_pressed,
        !s.active,
        s.sample_step + k < u32::MAX,
    ensures
        advance_by(s, k) == (AdsrState { sample_step: (s.sample_step + k) as u32, ..s }),
        advance(advance_by(s, k)).0 == Segment::Silent,
    decreases k,
{
    if k > 0 {
        lemma_idle_stays_silent(s, (k - 1) as nat);
    }
}

/// While the key is held, the sample at step `t` is in the attack for `t <= attack`, in the
/// decay, at step `t - attack` of `decay`, for `attack < t <= attack + decay`, and holds the
/// sustain level only for `t > attack + decay`; this holds for every attack length,
/// including 0.
pub proof fn lemma_held_phases(s: AdsrState)
    requires
        s.key_pressed,
    ensures
        s.sample_step <= s.attack ==> advance(s).0 == (Segment::Attack { step: s.sample_step, length: s.attack }),
        s.attack < s.sample_step && s.sample_step as int <= s.attack as int + s.decay as int ==> advance(s).0
            == (Segment::Decay { step: (s.sample_step - s.attack) as u32, length: s.decay }),
        s.sample_step as int > s.attack as int + s.decay as int ==> advance(s).0 == Segment::Sustain,
        advance(s).1.sample_step == s.sample_step as int + 1 || s.sample_step == u32::MAX,
{
}

/// With no attack, the samples after the first go through the whole decay, one step at a
/// time, before the sustain level is held.
pub proof fn lemma_decay_follows_instant_attack(s: AdsrState, t: u32)
    requires
        s.key_pressed,
        s.attack == 0,
        1 <= t <= s.decay,
        s.sample_step == t,
    ensures
        advance(s).0 == (Segment::Decay { step: t, length: s.decay }),
{
}

} // verus!
