//! The note handling of a monophonic synthesizer voice: which MIDI events start a note,
//! and which release it.
use vstd::prelude::*;

use crate::oscillators::{Oscillator, Saw, Sine, Square};

verus! {

/// The waveform that a new note plays.
#[derive(Clone, Copy, Debug, PartialEq, Eq, Structural)]
pub enum OscType {
    Sine,
    Saw,
    Square,
}

impl OscType {
    /// The oscillator that a note started with this waveform plays.
    pub fn oscillator(&self) -> (r: Oscillator)
        ensures
            r == match *self {
                OscType::Sine => Oscillator::Sine(Sine),
                OscType::Saw => Oscillator::Saw(Saw),
                OscType::Square => Oscillator::Square(Square),
            },
    {
        match self {
            OscType::Sine => Oscillator::Sine(Sine),
            OscType::Saw => Oscillator::Saw(Saw),
            OscType::Square => Oscillator::Square(Square),
        }
    }
}

/// A MIDI event, as far as the voice looks at it.
#[derive(Clone, Copy, Debug, PartialEq, Eq, Structural)]
pub enum NoteEvent {
    /// A key was pressed.
    NoteOn { note: u8 },
    /// A key was released.
    NoteOff { note: u8 },
    /// Any other event.
    Other,
}

/// What the voice does on an event.
#[derive(Clone, Copy, Debug, PartialEq, Eq, Structural)]
pub enum VoiceAction {
    /// Start playing `note`, with a new oscillator, fading in to the key's velocity.
    Start { note: u8 },
    /// Fade the playing note out.
    Release,
    /// Nothing changes.
    Ignore,
}

/// The note that the voice plays (or played last).
pub struct Voice {
    midi_note_id: u8,
}

/// What the voice does on `event` while `note` is its current note.
pub open spec fn respond(note: u8, event: NoteEvent) -> VoiceAction {
    match event {
        NoteEvent::NoteOn { note: n } => VoiceAction::Start { note: n },
        NoteEvent::NoteOff { note: n } => if n == note {
            VoiceAction::Release
        } else {
            VoiceAction::Ignore
        },
        NoteEvent::Other => VoiceAction::Ignore,
    }
}

/// True when an event stamped `timing` is due at the sample with index `sample_id`.
pub open spec fn is_due(timing: u32, sample_id: u32) -> bool {
    timing <= sample_id
}

impl Voice {
    /// The note that the voice plays (or played last).
    pub closed spec fn note(&self) -> u8 {
        self.midi_note_id
    }

    /// A voice whose current note is 0.
    pub fn new() -> (r: Voice)
        ensures
            r.note() == 0,
    {
        Voice { midi_note_id: 0 }
    }

    /// Forgets the current note.
    pub fn reset(&mut self)
        ensures
            final(self).note() == 0,
    {
        self.midi_note_id = 0;
    }

    /// The current note.
    pub fn current_note(&self) -> (r: u8)
        ensures
            r == self.note(),
    {
        self.midi_note_id
    }

    /// Acts on `event`: a pressed key becomes the current note and starts; releasing the
    /// current note's key releases it; everything else is ignored.
    pub fn handle(&mut self, event: NoteEvent) -> (r: VoiceAction)
        ensures
            r == respond(old(self).note(), event),
            forall|n: u8| event == (NoteEvent::NoteOn { note: n }) ==> r == (VoiceAction::Start { note: n }),
            forall|n: u8|
                event == (NoteEvent::NoteOff { note: n }) ==> (r == VoiceAction::Release <==> n == old(self).note()),
            forall|n: u8|
                event == (NoteEvent::NoteOff { note: n }) ==> (r == VoiceAction::Release || r == VoiceAction::Ignore),
            event == NoteEvent::Other ==> r == VoiceAction::Ignore,
            final(self).note() == match event {
                NoteEvent::NoteOn { note } => note,
                _ => old(self).note(),
            },
    {
        match event {
            NoteEvent::NoteOn { note } => {
                self.midi_note_id = note;
                VoiceAction::Start { note }
            },
            NoteEvent::NoteOff { note } => {
                if note == self.midi_note_id {
                    VoiceAction::Release
                } else {
                    VoiceAction::Ignore
                }
            },
            NoteEvent::Other => VoiceAction::Ignore,
        }
    }
}

/// True when an event stamped `timing` is due at the sample with index `sample_id`.
pub fn event_due(timing: u32, sample_id: u32) -> (r: bool)
    ensures
        r == is_due(timing, sample_id),
        r <==> (timing as int) <= (sample_id as int),
{
    timing <= sample_id
}

/// The note that the voice plays after `events`, from current note `note`.
pub open spec fn note_after(note: u8, events: Seq<NoteEvent>) -> u8
    decreases events.len(),
{
    if events.len() == 0 {
        note
    } else {
        match events.last() {
            NoteEvent::NoteOn { note: n } => n,
            _ => note_after(note, events.drop_last()),
        }
    }
}

/// A released key releases the voice only when it is the key of the last note started:
/// after any events, a `NoteOff` releases exactly when its note is the most recent
/// `NoteOn`'s (or the starting note when no `NoteOn` came).
pub proof fn lemma_release_only_current(note: u8, events: Seq<NoteEvent>, off: u8)
    ensures
        respond(note_after(note, events), NoteEvent::NoteOff { note: off }) == VoiceAction::Release
            <==> off == note_after(note, events),
{
}

/// A pressed key always starts its note, whatever note the voice plays, even when it is the
/// same key again: the voice then plays that note.
pub proof fn lemma_note_on_always_starts(current: u8, n: u8)
    ensures
        respond(current, NoteEvent::NoteOn { note: n }) == (VoiceAction::Start { note: n }),
        note_after(current, seq![NoteEvent::NoteOn { note: n }]) == n,
{
    assert(seq![NoteEvent::NoteOn { note: n }].last() == (NoteEvent::NoteOn { note: n }));
}

/// Playing a key, releasing it and playing it again starts the note both times and
/// releases it in between.
pub proof fn lemma_repeated_note_restarts(current: u8, n: u8)
    ensures
        respond(current, NoteEvent::NoteOn { note: n }) == (VoiceAction::Start { note: n }),
        respond(n, NoteEvent::NoteOff { note: n }) == VoiceAction::Release,
        respond(n, NoteEvent::NoteOn { note: n }) == (VoiceAction::Start { note: n }),
{
}

/// Releasing a key releases the voice exactly when it is the key of the note it plays, and
/// other events are ignored.
pub proof fn lemma_note_off_releases_current(current: u8, n: u8)
    ensures
        respond(current, NoteEvent::NoteOff { note: n }) == VoiceAction::Release <==> n == current,
        n != current ==> respond(current, NoteEvent::NoteOff { note: n }) == VoiceAction::Ignore,
        respond(current, NoteEvent::Other) == VoiceAction::Ignore,
{
}

/// An event is due exactly when the sample it is stamped for has been reached, comparing
/// the whole numbers with no wrap-around; a later sample never makes a due event undue.
pub proof fn lemma_due_when_reached(timing: u32, sample_id: u32, later: u32)
    ensures
        is_due(timing, sample_id) <==> (timing as int) <= (sample_id as int),
        is_due(timing, timing),
        (timing as int) > (sample_id as int) ==> !is_due(timing, sample_id),
        is_due(timing, sample_id) && sample_id <= later ==> is_due(timing, later),
{
}

} // verus!
