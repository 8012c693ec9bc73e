use dsp::oscillators::{Oscillator, Saw, Sine, Square};
use dsp::voice::{event_due, NoteEvent, OscType, Voice, VoiceAction};

#[test]
fn note_on_starts_and_becomes_current() {
    let mut v = Voice::new();
    assert_eq!(v.current_note(), 0);
    assert_eq!(v.handle(NoteEvent::NoteOn { note: 60 }), VoiceAction::Start { note: 60 });
    assert_eq!(v.current_note(), 60);
}

#[test]
fn note_off_releases_only_current_note() {
    let mut v = Voice::new();
    v.handle(NoteEvent::NoteOn { note: 60 });
    v.handle(NoteEvent::NoteOn { note: 64 });
    assert_eq!(v.handle(NoteEvent::NoteOff { note: 60 }), VoiceAction::Ignore);
    assert_eq!(v.handle(NoteEvent::NoteOff { note: 64 }), VoiceAction::Release);
    assert_eq!(v.current_note(), 64);
}

#[test]
fn other_events_are_ignored() {
    let mut v = Voice::new();
    v.handle(NoteEvent::NoteOn { note: 10 });
    assert_eq!(v.handle(NoteEvent::Other), VoiceAction::Ignore);
    assert_eq!(v.current_note(), 10);
    v.reset();
    assert_eq!(v.current_note(), 0);
    assert_eq!(v.handle(NoteEvent::NoteOff { note: 0 }), VoiceAction::Release);
}

#[test]
fn events_are_due_at_their_sample() {
    assert!(event_due(3, 3));
    assert!(event_due(2, 3));
    assert!(!event_due(4, 3));
    assert_ne!(OscType::Sine, OscType::Saw);
}

#[test]
fn waveform_choice_picks_the_oscillator() {
    assert_eq!(OscType::Sine.oscillator(), Oscillator::Sine(Sine));
    assert_eq!(OscType::Saw.oscillator(), Oscillator::Saw(Saw));
    assert_eq!(OscType::Square.oscillator(), Oscillator::Square(Square));
}
