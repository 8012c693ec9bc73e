use dsp::pingpong::{plan_send, BufferState, SendPlan};

#[test]
fn states_say_what_is_allowed() {
    assert!(BufferState::PendingWrite.is_writable());
    assert!(!BufferState::PendingWrite.is_readable());
    assert!(BufferState::PendingRead.is_readable());
    assert!(!BufferState::PendingRead.is_writable());
}

#[test]
fn writes_and_reads_alternate() {
    let mut ping = BufferState::PendingWrite;
    for _ in 0..3 {
        assert!(ping.is_writable());
        ping.mark_written();
        assert_eq!(ping, BufferState::PendingRead);
        assert!(!ping.is_writable());
        ping.mark_read();
        assert_eq!(ping, BufferState::PendingWrite);
    }
}

#[test]
fn send_plan_reads_filled_buffers() {
    let p = plan_send(BufferState::PendingRead, BufferState::PendingWrite);
    assert_eq!(p, SendPlan { read_ping: true, read_pong: false });
    assert!(!p.is_idle());
    let p = plan_send(BufferState::PendingWrite, BufferState::PendingRead);
    assert_eq!(p, SendPlan { read_ping: false, read_pong: true });
    let p = plan_send(BufferState::PendingRead, BufferState::PendingRead);
    assert_eq!(p, SendPlan { read_ping: true, read_pong: true });
    let p = plan_send(BufferState::PendingWrite, BufferState::PendingWrite);
    assert!(p.is_idle());
}

use dsp::pingpong::{Buffer, Shared, BUFFER_SAMPLES};

#[test]
fn new_shared_waits_for_filling() {
    let s = Shared::new();
    assert_eq!(s.ping_state, BufferState::PendingWrite);
    assert_eq!(s.pong_state, BufferState::PendingWrite);
    assert_eq!(s.ping, [0i16; BUFFER_SAMPLES]);
    assert!(s.plan_fill(Buffer::Ping));
    assert!(s.plan_fill(Buffer::Pong));
}

#[test]
fn fill_then_send_moves_the_samples() {
    let mut s = Shared::new();
    let samples: [i16; BUFFER_SAMPLES] = core::array::from_fn(|i| i as i16 - 100);
    s.fill(Buffer::Ping, samples);
    assert_eq!(s.ping, samples);
    assert_eq!(s.ping_state, BufferState::PendingRead);
    assert_eq!(s.pong_state, BufferState::PendingWrite);
    assert!(!s.plan_fill(Buffer::Ping));
    let round = s.send_round();
    assert_eq!(round.ping, Some(samples));
    assert!(round.pong.is_none());
    assert!(!round.is_idle());
    assert_eq!(s.ping_state, BufferState::PendingWrite);
    assert_eq!(s.ping, samples);
    let again = s.send_round();
    assert!(again.is_idle());
}

#[test]
fn both_buffers_sent_in_one_round() {
    let mut s = Shared::new();
    s.fill(Buffer::Pong, [7; BUFFER_SAMPLES]);
    s.fill(Buffer::Ping, [3; BUFFER_SAMPLES]);
    let round = s.send_round();
    assert_eq!(round.ping, Some([3; BUFFER_SAMPLES]));
    assert_eq!(round.pong, Some([7; BUFFER_SAMPLES]));
    assert_eq!(s.pong_state, BufferState::PendingWrite);
}
