use telnet_door::relay::{
    ReadStatus, Relay, RelayAction, RelayOutcome, RelayState, Side, StreamError, WriteStatus,
};

/// A scripted stream: each poll gives the next status, then times out forever.
struct Script {
    reads: Vec<ReadStatus>,
    at: usize,
}

impl Script {
    fn poll(&mut self) -> ReadStatus {
        let r = self.reads.get(self.at).copied().unwrap_or(ReadStatus::WouldBlock);
        self.at += 1;
        r
    }
}

fn run(local: Vec<ReadStatus>, remote: Vec<ReadStatus>) -> (RelayOutcome, usize, usize) {
    let mut local = Script { reads: local, at: 0 };
    let mut remote = Script { reads: remote, at: 0 };
    let (mut relay, mut action) = Relay::new();
    let mut to_remote = 0;
    let mut to_local = 0;
    for _ in 0..1000 {
        action = match action {
            RelayAction::Read(Side::Local) => relay.on_read(local.poll()),
            RelayAction::Read(Side::Remote) => relay.on_read(remote.poll()),
            RelayAction::Write { to, len } => {
                match to {
                    Side::Remote => to_remote += len,
                    Side::Local => to_local += len,
                }
                relay.on_write(WriteStatus::Written)
            }
            RelayAction::Finish(o) => return (o, to_remote, to_local),
        };
    }
    panic!("relay did not end");
}

#[test]
fn local_close_blames_local() {
    let (o, to_remote, _) = run(vec![ReadStatus::Bytes(5), ReadStatus::WouldBlock, ReadStatus::Bytes(0)], vec![]);
    assert_eq!(o, RelayOutcome::LocalSideFailed(StreamError::ConnectionClosed));
    assert_eq!(to_remote, 5);
}

#[test]
fn remote_close_blames_remote() {
    let (o, to_remote, to_local) =
        run(vec![ReadStatus::Bytes(3)], vec![ReadStatus::Bytes(7), ReadStatus::WouldBlock, ReadStatus::Bytes(0)]);
    assert_eq!(o, RelayOutcome::RemoteSideFailed(StreamError::ConnectionClosed));
    assert_eq!((to_remote, to_local), (3, 7));
}

#[test]
fn read_errors_are_blamed_on_their_side() {
    assert_eq!(run(vec![ReadStatus::Failed], vec![]).0, RelayOutcome::LocalSideFailed(StreamError::Io));
    assert_eq!(run(vec![], vec![ReadStatus::Failed]).0, RelayOutcome::RemoteSideFailed(StreamError::Io));
}

#[test]
fn write_failure_is_blamed_on_the_source() {
    let (mut relay, _) = Relay::new();
    assert_eq!(relay.on_read(ReadStatus::Bytes(4)), RelayAction::Write { to: Side::Remote, len: 4 });
    assert_eq!(relay.state(), RelayState::Writing { from: Side::Local, len: 4 });
    assert_eq!(relay.on_write(WriteStatus::Failed), RelayAction::Finish(RelayOutcome::LocalSideFailed(StreamError::Io)));
    assert_eq!(relay.state(), RelayState::Done);
}

#[test]
fn directions_alternate() {
    let (mut relay, first) = Relay::new();
    assert_eq!(first, RelayAction::Read(Side::Local));
    assert_eq!(relay.on_read(ReadStatus::WouldBlock), RelayAction::Read(Side::Remote));
    assert_eq!(relay.on_read(ReadStatus::Bytes(2)), RelayAction::Write { to: Side::Local, len: 2 });
    assert_eq!(relay.on_write(WriteStatus::Written), RelayAction::Read(Side::Local));
}
