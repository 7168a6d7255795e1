use vstd::prelude::*;

verus! {

/// One of the two streams of a relay: the inbound client or the destination.
#[derive(PartialEq, Eq, Structural, Debug, Clone, Copy)]
pub enum Side {
    Local,
    Remote,
}

/// Why a stream stopped carrying bytes.
#[derive(PartialEq, Eq, Structural, Debug, Clone, Copy)]
pub enum StreamError {
    /// A read returned no bytes: the peer closed the stream.
    ConnectionClosed,
    /// A read or a write failed with an I/O error other than a timeout.
    Io,
}

/// How a relay ended, naming the side that failed first.
#[derive(PartialEq, Eq, Structural, Debug, Clone, Copy)]
pub enum RelayOutcome {
    LocalSideFailed(StreamError),
    RemoteSideFailed(StreamError),
}

/// What a polling read on one stream gave.
#[derive(PartialEq, Eq, Structural, Debug, Clone, Copy)]
pub enum ReadStatus {
    /// This many bytes were read; zero means the peer closed the stream.
    Bytes(usize),
    /// Nothing arrived within the polling interval.
    WouldBlock,
    /// Any other I/O error.
    Failed,
}

/// What writing the bytes read to the other stream gave.
#[derive(PartialEq, Eq, Structural, Debug, Clone, Copy)]
pub enum WriteStatus {
    Written,
    Failed,
}

/// The next thing the caller does with the two streams.
#[derive(PartialEq, Eq, Structural, Debug, Clone, Copy)]
pub enum RelayAction {
    /// Poll this stream for bytes.
    Read(Side),
    /// Write the `len` bytes just read to the stream `to`.
    Write { to: Side, len: usize },
    /// Stop relaying.
    Finish(RelayOutcome),
}

/// Where a relay stands.
#[derive(PartialEq, Eq, Structural, Debug, Clone, Copy)]
pub enum RelayState {
    /// Waiting for the result of a read on this side.
    Reading(Side),
    /// Waiting for the result of writing bytes read from `from`.
    Writing { from: Side, len: usize },
    Done,
}

pub open spec fn other(s: Side) -> Side {
    match s {
        Side::Local => Side::Remote,
        Side::Remote => Side::Local,
    }
}

/// The outcome that blames side `s` for error `e`.
pub open spec fn failed_on(s: Side, e: StreamError) -> RelayOutcome {
    match s {
        Side::Local => RelayOutcome::LocalSideFailed(e),
        Side::Remote => RelayOutcome::RemoteSideFailed(e),
    }
}

/// The side an outcome blames.
pub open spec fn blamed(o: RelayOutcome) -> Side {
    match o {
        RelayOutcome::LocalSideFailed(_) => Side::Local,
        RelayOutcome::RemoteSideFailed(_) => Side::Remote,
    }
}

/// The state and action after a read on side `s`. Each direction is polled
/// once per turn: after a timeout, or after forwarding, the other side is read.
pub open spec fn after_read(s: Side, r: ReadStatus) -> (RelayState, RelayAction) {
    match r {
        ReadStatus::Bytes(n) => if n == 0 {
            (RelayState::Done, RelayAction::Finish(failed_on(s, StreamError::ConnectionClosed)))
        } else {
            (RelayState::Writing { from: s, len: n }, RelayAction::Write { to: other(s), len: n })
        },
        ReadStatus::WouldBlock => (RelayState::Reading(other(s)), RelayAction::Read(other(s))),
        ReadStatus::Failed => (RelayState::Done, RelayAction::Finish(failed_on(s, StreamError::Io))),
    }
}

/// The state and action after writing the bytes read from side `from`. A
/// failed write is blamed on the direction being copied, that is on `from`.
pub open spec fn after_write(from: Side, w: WriteStatus) -> (RelayState, RelayAction) {
    match w {
        WriteStatus::Written => (RelayState::Reading(other(from)), RelayAction::Read(other(from))),
        WriteStatus::Failed => (RelayState::Done, RelayAction::Finish(failed_on(from, StreamError::Io))),
    }
}

fn other_side(s: Side) -> (r: Side)
    ensures
        r == other(s),
{
    match s {
        Side::Local => Side::Remote,
        Side::Remote => Side::Local,
    }
}

fn fail_on(s: Side, e: StreamError) -> (r: RelayOutcome)
    ensures
        r == failed_on(s, e),
{
    match s {
        Side::Local => RelayOutcome::LocalSideFailed(e),
        Side::Remote => RelayOutcome::RemoteSideFailed(e),
    }
}

/// The decisions of a duplex relay between the inbound stream and the
/// destination; the caller performs the reads and writes it asks for.
pub struct Relay {
    state: RelayState,
}

impl Relay {
    pub closed spec fn view(&self) -> RelayState {
        self.state
    }

    /// A relay that starts by polling the inbound stream.
    pub fn new() -> (r: (Relay, RelayAction))
        ensures
            r.0@ == RelayState::Reading(Side::Local),
            r.1 == RelayAction::Read(Side::Local),
    {
        (Relay { state: RelayState::Reading(Side::Local) }, RelayAction::Read(Side::Local))
    }

    pub fn state(&self) -> (r: RelayState)
        ensures
            r == self@,
    {
        self.state
    }

    /// Takes the result of the read asked for.
    pub fn on_read(&mut self, r: ReadStatus) -> (a: RelayAction)
        requires
            old(self)@ is Reading,
        ensures
            (final(self)@, a) == after_read(old(self)@->Reading_0, r),
    {
        let s = match self.state {
            RelayState::Reading(s) => s,
            _ => Side::Local,
        };
        match r {
            ReadStatus::Bytes(n) => if n == 0 {
                self.state = RelayState::Done;
                RelayAction::Finish(fail_on(s, StreamError::ConnectionClosed))
            } else {
                self.state = RelayState::Writing { from: s, len: n };
                RelayAction::Write { to: other_side(s), len: n }
            },
            ReadStatus::WouldBlock => {
                let o = other_side(s);
                self.state = RelayState::Reading(o);
                RelayAction::Read(o)
            },
            ReadStatus::Failed => {
                self.state = RelayState::Done;
                RelayAction::Finish(fail_on(s, StreamError::Io))
            },
        }
    }

    /// Takes the result of the write asked for.
    pub fn on_write(&mut self, w: WriteStatus) -> (a: RelayAction)
        requires
            old(self)@ is Writing,
        ensures
            (final(self)@, a) == after_write(old(self)@->from, w),
    {
        let from = match self.state {
            RelayState::Writing { from, len } => from,
            _ => Side::Local,
        };
        match w {
            WriteStatus::Written => {
                let o = other_side(from);
                self.state = RelayState::Reading(o);
                RelayAction::Read(o)
            },
            WriteStatus::Failed => {
                self.state = RelayState::Done;
                RelayAction::Finish(fail_on(from, StreamError::Io))
            },
        }
    }
}

/// A relay ends only on a failure, and always blames the side whose read or
/// write failed: a stream that returns no bytes is reported as closed on its
/// own side and never on the other, and a timeout never ends the relay.
pub proof fn lemma_failure_blames_its_side(s: Side, r: ReadStatus, w: WriteStatus)
    ensures
        after_read(s, ReadStatus::Bytes(0)).1 == RelayAction::Finish(failed_on(s, StreamError::ConnectionClosed)),
        blamed(failed_on(s, StreamError::ConnectionClosed)) == s,
        blamed(failed_on(s, StreamError::ConnectionClosed)) != other(s),
        after_read(s, r).1 matches RelayAction::Finish(o) ==> blamed(o) == s && r != ReadStatus::WouldBlock,
        after_read(s, r).1 is Finish <==> (r == ReadStatus::Failed || r == ReadStatus::Bytes(0)),
        after_write(s, w).1 matches RelayAction::Finish(o) ==> blamed(o) == s,
        after_write(s, w).1 is Finish <==> w == WriteStatus::Failed,
{
}

} // verus!
