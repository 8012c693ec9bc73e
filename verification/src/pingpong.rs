//! The ping-pong buffer protocol between the task that fills audio buffers and the task
//! that sends them out: each of the two buffers is filled only while no unsent samples are
//! in it, and sent only once it has been filled, so fills and sends of a buffer alternate.
use vstd::prelude::*;

verus! {

/// The state of one of the two sample buffers.
#[derive(PartialEq, Eq, Structural, Clone, Copy, Debug)]
pub enum BufferState {
    /// The buffer holds samples that have not been sent yet.
    PendingRead,
    /// The buffer may be (re)filled.
    PendingWrite,
}

/// What a task does to a buffer.
#[derive(PartialEq, Eq, Structural, Clone, Copy, Debug)]
pub enum BufferOp {
    /// The filling task writes samples into it.
    Write,
    /// The sending task reads samples out of it.
    Read,
}

/// True when `op` may be done to a buffer in state `state`.
pub open spec fn allows(state: BufferState, op: BufferOp) -> bool {
    match op {
        BufferOp::Write => state == BufferState::PendingWrite,
        BufferOp::Read => state == BufferState::PendingRead,
    }
}

/// The state of a buffer once `op` is done.
pub open spec fn after(op: BufferOp) -> BufferState {
    match op {
        BufferOp::Write => BufferState::PendingRead,
        BufferOp::Read => BufferState::PendingWrite,
    }
}

/// The state after doing `ops` in order to a buffer in state `state`, or `None` when one of
/// them is not allowed when its turn comes.
pub open spec fn run(state: BufferState, ops: Seq<BufferOp>) -> Option<BufferState>
    decreases ops.len(),
{
    if ops.len() == 0 {
        Some(state)
    } else {
        match run(state, ops.drop_last()) {
            Some(s) => if allows(s, ops.last()) {
                Some(after(ops.last()))
            } else {
                None
            },
            None => None,
        }
    }
}

/// `ops` writes first and then alternates between reading and writing.
pub open spec fn alternates(ops: Seq<BufferOp>) -> bool {
    forall|i: int| 0 <= i < ops.len() ==> #[trigger] ops[i] == if i % 2 == 0 {
        BufferOp::Write
    } else {
        BufferOp::Read
    }
}

impl BufferState {
    /// True when the filling task may write this buffer.
    pub fn is_writable(&self) -> (r: bool)
        ensures
            r == allows(*self, BufferOp::Write),
    {
        *self == BufferState::PendingWrite
    }

    /// True when the sending task may read this buffer.
    pub fn is_readable(&self) -> (r: bool)
        ensures
            r == allows(*self, BufferOp::Read),
    {
        *self == BufferState::PendingRead
    }

    /// Records that the filling task has written this buffer.
    pub fn mark_written(&mut self)
        requires
            allows(*old(self), BufferOp::Write),
        ensures
            *final(self) == after(BufferOp::Write),
    {
        *self = BufferState::PendingRead;
    }

    /// Records that the sending task has read this buffer.
    pub fn mark_read(&mut self)
        requires
            allows(*old(self), BufferOp::Read),
        ensures
            *final(self) == after(BufferOp::Read),
    {
        *self = BufferState::PendingWrite;
    }
}

/// What the sending task does in one round.
#[derive(PartialEq, Eq, Structural, Clone, Copy, Debug)]
pub struct SendPlan {
    /// Read (and then release) the ping buffer.
    pub read_ping: bool,
    /// Read (and then release) the pong buffer.
    pub read_pong: bool,
}

impl SendPlan {
    /// True when no buffer is ready to be read in this round.
    pub fn is_idle(&self) -> (r: bool)
        ensures
            r == (!self.read_ping && !self.read_pong),
    {
        !self.read_ping && !self.read_pong
    }
}

/// The buffers that the sending task reads in a round where the buffers are in the given
/// states: each one that holds unsent samples.
pub fn plan_send(ping_state: BufferState, pong_state: BufferState) -> (r: SendPlan)
    ensures
        r.read_ping == allows(ping_state, BufferOp::Read),
        r.read_pong == allows(pong_state, BufferOp::Read),
{
    SendPlan { read_ping: ping_state.is_readable(), read_pong: pong_state.is_readable() }
}

/// Number of samples in each of the two buffers.
pub const BUFFER_SAMPLES: usize = 256;

/// One of the two sample buffers.
#[derive(PartialEq, Eq, Structural, Clone, Copy, Debug)]
pub enum Buffer {
    Ping,
    Pong,
}

/// The buffers that the filling and the sending task share, with their states.
pub struct Shared {
    pub ping: [i16; 256],
    pub pong: [i16; 256],
    pub ping_state: BufferState,
    pub pong_state: BufferState,
}

/// What the sending task took out in one round: the samples of each buffer that it read.
pub struct SendRound {
    pub ping: Option<[i16; 256]>,
    pub pong: Option<[i16; 256]>,
}

impl SendRound {
    /// True when no buffer was ready to be read in this round.
    pub fn is_idle(&self) -> (r: bool)
        ensures
            r == (self.ping is None && self.pong is None),
    {
        self.ping.is_none() && self.pong.is_none()
    }
}

impl Shared {
    /// The state of buffer `b`.
    pub open spec fn state_of(&self, b: Buffer) -> BufferState {
        match b {
            Buffer::Ping => self.ping_state,
            Buffer::Pong => self.pong_state,
        }
    }

    /// The samples in buffer `b`.
    pub open spec fn samples_of(&self, b: Buffer) -> Seq<i16> {
        match b {
            Buffer::Ping => self.ping@,
            Buffer::Pong => self.pong@,
        }
    }

    /// Two silent buffers, both waiting to be filled.
    pub fn new() -> (r: Shared)
        ensures
            r.ping_state == BufferState::PendingWrite,
            r.pong_state == BufferState::PendingWrite,
            r.ping@ == Seq::new(256, |i: int| 0i16),
            r.pong@ == Seq::new(256, |i: int| 0i16),
    {
        let r = Shared { ping: [0i16; 256], pong: [0i16; 256], ping_state: BufferState::PendingWrite, pong_state: BufferState::PendingWrite };
        proof {
            assert(r.ping@ =~= Seq::new(256, |i: int| 0i16));
            assert(r.pong@ =~= Seq::new(256, |i: int| 0i16));
        }
        r
    }

    /// The filling task's decision: true when buffer `b` may be written now.
    pub fn plan_fill(&self, b: Buffer) -> (r: bool)
        ensures
            r == allows(self.state_of(b), BufferOp::Write),
    {
        match b {
            Buffer::Ping => self.ping_state.is_writable(),
            Buffer::Pong => self.pong_state.is_writable(),
        }
    }

    /// The filling task writes `samples` into buffer `b`, which may be written, and only
    /// then marks it as holding unsent samples; the other buffer is left alone.
    pub fn fill(&mut self, b: Buffer, samples: [i16; 256])
        requires
            allows(old(self).state_of(b), BufferOp::Write),
        ensures
            final(self).samples_of(b) == samples@,
            final(self).state_of(b) == BufferState::PendingRead,
            b == Buffer::Ping ==> final(self).pong@ == old(self).pong@ && final(self).pong_state == old(self).pong_state,
            b == Buffer::Pong ==> final(self).ping@ == old(self).ping@ && final(self).ping_state == old(self).ping_state,
    {
        match b {
            Buffer::Ping => {
                self.ping = samples;
                self.ping_state.mark_written();
            },
            Buffer::Pong => {
                self.pong = samples;
                self.pong_state.mark_written();
            },
        }
    }

    /// The sending task's round: takes out a copy of each buffer that holds unsent samples,
    /// ping first, and marks it as free to be filled again. It never changes the samples,
    /// and changes no other state.
    pub fn send_round(&mut self) -> (r: SendRound)
        ensures
            final(self).ping@ == old(self).ping@,
            final(self).pong@ == old(self).pong@,
            old(self).ping_state == BufferState::PendingRead ==> (r.ping matches Some(x) && x@ == old(self).ping@)
                && final(self).ping_state == BufferState::PendingWrite,
            old(self).ping_state == BufferState::PendingWrite ==> r.ping is None && final(self).ping_state
                == BufferState::PendingWrite,
            old(self).pong_state == BufferState::PendingRead ==> (r.pong matches Some(x) && x@ == old(self).pong@)
                && final(self).pong_state == BufferState::PendingWrite,
            old(self).pong_state == BufferState::PendingWrite ==> r.pong is None && final(self).pong_state
                == BufferState::PendingWrite,
    {
        let plan = plan_send(self.ping_state, self.pong_state);
        let ping = if plan.read_ping {
            let local_buf = self.ping;
            self.ping_state.mark_read();
            Some(local_buf)
        } else {
            None
        };
        let pong = if plan.read_pong {
            let local_buf = self.pong;
            self.pong_state.mark_read();
            Some(local_buf)
        } else {
            None
        };
        SendRound { ping, pong }
    }
}

/// A buffer that starts empty goes through exactly the sequences of operations that write
/// first and then alternate: no samples are overwritten before they are sent, and none are
/// sent twice.
pub proof fn lemma_ops_alternate(ops: Seq<BufferOp>)
    ensures
        run(BufferState::PendingWrite, ops) is Some <==> alternates(ops),
        alternates(ops) ==> run(BufferState::PendingWrite, ops) == Some(
            if ops.len() % 2 == 0 {
                BufferState::PendingWrite
            } else {
                BufferState::PendingRead
            },
        ),
    decreases ops.len(),
{
    if ops.len() > 0 {
        let rest = ops.drop_last();
        lemma_ops_alternate(rest);
        if alternates(ops) {
            assert(alternates(rest)) by {
                assert forall|i: int| 0 <= i < rest.len() implies #[trigger] rest[i] == if i % 2 == 0 {
                    BufferOp::Write
                } else {
                    BufferOp::Read
                } by {
                    assert(rest[i] == ops[i]);
                }
            }
            assert(ops.last() == ops[ops.len() - 1]);
        }
        if run(BufferState::PendingWrite, ops) is Some {
            assert(run(BufferState::PendingWrite, rest) is Some);
            assert forall|i: int| 0 <= i < ops.len() implies #[trigger] ops[i] == if i % 2 == 0 {
                BufferOp::Write
            } else {
                BufferOp::Read
            } by {
                if i < rest.len() {
                    assert(rest[i] == ops[i]);
                } else {
                    assert(ops[i] == ops.last());
                }
            }
        }
    }
}

} // verus!
