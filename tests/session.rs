use telnet_door::addressbook::{AddressBook, AddressBookEntry};
use telnet_door::line_reader::LineReader;
use telnet_door::relay::{RelayOutcome, StreamError};
use telnet_door::session::{Session, SessionAction, SessionEvent};

fn book() -> AddressBook {
    let e = |l: &str, a: &str| AddressBookEntry { label: l.to_string(), address: a.to_string(), meta: None };
    AddressBook { addresses: vec![e("A", "h1:1"), e("B", "h2:2")] }
}

const MENU: &str = "\r\nAddress book:\r\n  0: Logoff\r\n  1: A - h1:1\r\n  2: B - h2:2\r\n> ";

fn read_line(input: &[u8]) -> Vec<u8> {
    let mut r = LineReader::new();
    r.receive_chunk(input).ok().unwrap().line.unwrap()
}

fn text(v: &[u8]) -> String {
    String::from_utf8(v.to_vec()).unwrap()
}

fn at_menu(b: &AddressBook) -> Session {
    let mut s = Session::new();
    let step = s.step(b, &SessionEvent::Started(b"10.0.0.1:4000".to_vec()));
    assert_eq!(text(&step.output), format!("Hello, 10.0.0.1:4000\r\n{}", MENU));
    assert!(matches!(step.action, SessionAction::ReadLine));
    s
}

fn relaying(b: &AddressBook) -> Session {
    let mut s = at_menu(b);
    let step = s.step(b, &SessionEvent::LineRead(read_line(b"1\r")));
    assert!(matches!(step.action, SessionAction::Connect(ref a) if a == "h1:1"));
    s
}

#[test]
fn choosing_an_entry_connects_to_it() {
    let b = book();
    let mut s = at_menu(&b);
    let step = s.step(&b, &SessionEvent::LineRead(read_line(b"1\r")));
    assert!(text(&step.output).contains("Connecting to A - h1:1"));
    assert!(matches!(step.action, SessionAction::Connect(ref a) if a == "h1:1"));
}

#[test]
fn out_of_range_choice_redisplays_menu() {
    let b = book();
    let mut s = at_menu(&b);
    let step = s.step(&b, &SessionEvent::LineRead(read_line(b"9\r")));
    let out = text(&step.output);
    assert!(out.contains("Invalid choice"));
    assert!(out.contains("\"9\""));
    assert!(out.ends_with(MENU));
    assert!(matches!(step.action, SessionAction::ReadLine));
    assert!(!s.is_ended());
}

#[test]
fn unparsable_choices_never_end_the_session() {
    let b = book();
    let mut s = at_menu(&b);
    for bad in [&b"abc"[..], b"", b"3", b"-1", b"1.5"] {
        let step = s.step(&b, &SessionEvent::LineRead(bad.to_vec()));
        assert!(matches!(step.action, SessionAction::ReadLine));
        assert!(text(&step.output).ends_with(MENU));
        assert!(!s.is_ended());
    }
}

#[test]
fn zero_says_goodbye_and_closes() {
    let b = book();
    let mut s = at_menu(&b);
    let step = s.step(&b, &SessionEvent::LineRead(read_line(b"0\r")));
    assert_eq!(text(&step.output), "\r\nGoodbye!\r\n");
    assert!(matches!(step.action, SessionAction::Close));
    assert!(s.is_ended());
}

#[test]
fn remote_close_returns_to_menu() {
    let b = book();
    let mut s = relaying(&b);
    let step = s.step(&b, &SessionEvent::RelayEnded(RelayOutcome::RemoteSideFailed(StreamError::ConnectionClosed)));
    assert_eq!(text(&step.output), format!("\r\nDisconnected from A - h1:1\r\n{}", MENU));
    assert!(matches!(step.action, SessionAction::ReadLine));
    assert!(!s.is_ended());
}

#[test]
fn local_close_ends_session_without_menu() {
    let b = book();
    let mut s = relaying(&b);
    let step = s.step(&b, &SessionEvent::RelayEnded(RelayOutcome::LocalSideFailed(StreamError::ConnectionClosed)));
    assert!(step.output.is_empty());
    assert!(matches!(step.action, SessionAction::Close));
    assert!(s.is_ended());
}

#[test]
fn connect_failure_returns_to_menu() {
    let b = book();
    let mut s = relaying(&b);
    let step = s.step(&b, &SessionEvent::ConnectFailed);
    assert_eq!(text(&step.output), format!("\r\nCould not connect to A - h1:1\r\n{}", MENU));
    assert!(matches!(step.action, SessionAction::ReadLine));
}

#[test]
fn read_failure_at_menu_closes() {
    let b = book();
    let mut s = at_menu(&b);
    let step = s.step(&b, &SessionEvent::LineFailed);
    assert!(step.output.is_empty());
    assert!(matches!(step.action, SessionAction::Close));
}

#[test]
fn event_out_of_turn_closes() {
    let b = book();
    let mut s = Session::new();
    let step = s.step(&b, &SessionEvent::LineRead(b"1".to_vec()));
    assert!(matches!(step.action, SessionAction::Close));
    assert!(s.is_ended());
}

#[test]
fn second_visit_can_choose_again() {
    let b = book();
    let mut s = relaying(&b);
    s.step(&b, &SessionEvent::RelayEnded(RelayOutcome::RemoteSideFailed(StreamError::Io)));
    let step = s.step(&b, &SessionEvent::LineRead(read_line(b" 2 \r")));
    assert!(text(&step.output).contains("Connecting to B - h2:2"));
    assert!(matches!(step.action, SessionAction::Connect(ref a) if a == "h2:2"));
}
