use dsp::envelope::{AdsrState, Segment, ADSR};

#[test]
fn new_envelope_state() {
    let env = ADSR::new(3, 4, 5, true);
    assert_eq!(
        env.state(),
        AdsrState {
            attack: 3,
            decay: 4,
            release: 5,
            sample_step: 0,
            key_pressed: true,
            active: true,
            released: false
        }
    );
    let idle = ADSR::new(3, 4, 5, false);
    assert!(!idle.state().active);
}

#[test]
fn held_key_goes_through_attack_decay_sustain() {
    let mut env = ADSR::new(2, 3, 4, true);
    let segments: Vec<Segment> = (0..8).map(|_| env.next()).collect();
    assert_eq!(
        segments,
        vec![
            Segment::Attack { step: 0, length: 2 },
            Segment::Attack { step: 1, length: 2 },
            Segment::Attack { step: 2, length: 2 },
            Segment::Decay { step: 1, length: 3 },
            Segment::Decay { step: 2, length: 3 },
            Segment::Decay { step: 3, length: 3 },
            Segment::Sustain,
            Segment::Sustain,
        ]
    );
    assert_eq!(env.state().sample_step, 8);
}

#[test]
fn release_runs_then_goes_silent() {
    let mut env = ADSR::new(0, 0, 3, true);
    assert_eq!(env.next(), Segment::Attack { step: 0, length: 0 });
    // with a decay of 0 samples, step 1 already holds the sustain level
    assert_eq!(env.next(), Segment::Sustain);
    env.note_off();
    let segments: Vec<Segment> = (0..6).map(|_| env.next()).collect();
    assert_eq!(
        segments,
        vec![
            Segment::Release { step: 0, length: 3 },
            Segment::Release { step: 1, length: 3 },
            Segment::Release { step: 2, length: 3 },
            Segment::Release { step: 3, length: 3 },
            Segment::Release { step: 4, length: 3 },
            Segment::Silent,
        ]
    );
    assert!(!env.state().active);
    assert!(env.state().released);
}

#[test]
fn never_pressed_is_silent() {
    let mut env = ADSR::new(1, 1, 1, false);
    for _ in 0..5 {
        assert_eq!(env.next(), Segment::Silent);
    }
    assert_eq!(env.state().sample_step, 5);
}

#[test]
fn update_waits_for_inactive() {
    let mut env = ADSR::new(1, 1, 1, true);
    assert!(!env.update(10, 20, 30));
    assert_eq!(env.state().attack, 1);
    env.note_off();
    // release steps 0, 1, then 2 > 1 ends it
    env.next();
    env.next();
    assert!(!env.update(10, 20, 30));
    env.next();
    assert!(!env.state().active);
    assert!(env.update(10, 20, 30));
    let s = env.state();
    assert_eq!((s.attack, s.decay, s.release), (10, 20, 30));
}

#[test]
fn update_unchecked_sets_lengths() {
    let mut env = ADSR::new(1, 1, 1, true);
    env.update_unchecked(7, 8, 9);
    let s = env.state();
    assert_eq!((s.attack, s.decay, s.release, s.active), (7, 8, 9, true));
}

#[test]
fn note_on_restarts() {
    let mut env = ADSR::new(2, 2, 2, true);
    env.next();
    env.next();
    env.next();
    env.note_off();
    env.next();
    env.note_on();
    assert_eq!(env.state().sample_step, 0);
    assert_eq!(env.next(), Segment::Attack { step: 0, length: 2 });
    assert!(env.state().active);
    assert!(!env.state().released);
}

#[test]
fn release_restarts_after_repress() {
    let mut env = ADSR::new(0, 0, 2, true);
    env.next();
    env.note_off();
    assert_eq!(env.next(), Segment::Release { step: 0, length: 2 });
    env.note_on();
    env.next();
    env.note_off();
    assert_eq!(env.next(), Segment::Release { step: 0, length: 2 });
}

#[test]
fn step_counter_limit() {
    let mut env = ADSR::new(1, 1, 1, true);
    assert!(env.can_advance());
    env.note_off();
    assert!(env.can_advance());
}

#[test]
fn silent_after_release_until_note_on() {
    let mut env = ADSR::new(0, 0, 1, true);
    env.next();
    env.note_off();
    for _ in 0..3 {
        env.next();
    }
    assert!(!env.state().active);
    for _ in 0..10 {
        assert_eq!(env.next(), Segment::Silent);
        assert!(!env.state().active);
    }
    env.note_on();
    assert_eq!(env.next(), Segment::Attack { step: 0, length: 0 });
}
