use crate::addressbook::{AddressBook, AddressBookEntry};
use crate::byte_ops::{append_bytes, append_str};
use crate::menu::{
    choice_of, lemma_menu_selects_entries, lemma_out_of_range_is_invalid, lemma_zero_logs_off,
    parsed_number, menu_choice, menu_text, render_menu, MenuChoice, GOODBYE, INVALID_AFTER,
    INVALID_BEFORE, PROMPT,
};
use crate::relay::{RelayOutcome, StreamError};
use vstd::prelude::*;
use vstd::string::StringSliceAdditionalSpecFns;
use vstd::utf8::encode_utf8;

verus! {

pub const HELLO: &'static str = "Hello, ";

pub const CONNECTING: &'static str = "\r\nConnecting to ";

pub const DISCONNECTED: &'static str = "\r\nDisconnected from ";

pub const CONNECT_FAILED: &'static str = "\r\nCould not connect to ";

pub const SEPARATOR: &'static str = " - ";

pub const NEWLINE: &'static str = "\r\n";

/// Where one inbound connection stands.
pub enum SessionState {
    /// Accepted, not greeted yet.
    Greeting,
    /// The menu is shown and a line of input is awaited.
    AtMenu,
    /// A destination was chosen: connecting to it, then relaying.
    Relaying { label: String, address: String },
    /// The connection is over.
    Ended,
}

/// What the caller observed since the last step.
pub enum SessionEvent {
    /// The connection was accepted; the peer's address, as text.
    Started(Vec<u8>),
    /// A line of input was read from the client.
    LineRead(Vec<u8>),
    /// Reading a line failed, the client having closed the stream or otherwise.
    LineFailed,
    /// The destination could not be reached.
    ConnectFailed,
    /// The relay with the destination ended.
    RelayEnded(RelayOutcome),
}

/// What the caller does next.
pub enum SessionAction {
    /// Read one line of input (with a `LineReader`).
    ReadLine,
    /// Connect to this destination and relay until one side fails.
    Connect(String),
    /// Close the inbound connection.
    Close,
}

/// Bytes for the client, then an action.
pub struct SessionStep {
    pub output: Vec<u8>,
    pub action: SessionAction,
}

pub enum SessionView {
    Greeting,
    AtMenu,
    Relaying { label: Seq<char>, address: Seq<char> },
    Ended,
}

pub enum EventView {
    Started(Seq<u8>),
    LineRead(Seq<u8>),
    LineFailed,
    ConnectFailed,
    RelayEnded(RelayOutcome),
}

pub enum ActionView {
    ReadLine,
    Connect(Seq<char>),
    Close,
}

pub open spec fn state_view(s: SessionState) -> SessionView {
    match s {
        SessionState::Greeting => SessionView::Greeting,
        SessionState::AtMenu => SessionView::AtMenu,
        SessionState::Relaying { label, address } => SessionView::Relaying { label: label@, address: address@ },
        SessionState::Ended => SessionView::Ended,
    }
}

pub open spec fn event_view(e: SessionEvent) -> EventView {
    match e {
        SessionEvent::Started(p) => EventView::Started(p@),
        SessionEvent::LineRead(l) => EventView::LineRead(l@),
        SessionEvent::LineFailed => EventView::LineFailed,
        SessionEvent::ConnectFailed => EventView::ConnectFailed,
        SessionEvent::RelayEnded(o) => EventView::RelayEnded(o),
    }
}

pub open spec fn action_view(a: SessionAction) -> ActionView {
    match a {
        SessionAction::ReadLine => ActionView::ReadLine,
        SessionAction::Connect(addr) => ActionView::Connect(addr@),
        SessionAction::Close => ActionView::Close,
    }
}

/// The menu followed by the prompt.
pub open spec fn menu_prompt(entries: Seq<AddressBookEntry>) -> Seq<u8> {
    menu_text(entries) + PROMPT.spec_bytes()
}

/// A message naming a destination: `before`, the label, ` - `, the address, CR LF.
pub open spec fn naming(before: &str, label: Seq<char>, address: Seq<char>) -> Seq<u8> {
    before.spec_bytes() + encode_utf8(label) + SEPARATOR.spec_bytes() + encode_utf8(address)
        + NEWLINE.spec_bytes()
}

/// One step of a connection: the next state, the bytes for the client and
/// the next action. An event that does not fit the state ends the connection.
pub open spec fn session_next(s: SessionView, entries: Seq<AddressBookEntry>, e: EventView) -> (
    SessionView,
    Seq<u8>,
    ActionView,
) {
    match (s, e) {
        (SessionView::Greeting, EventView::Started(peer)) => (
            SessionView::AtMenu,
            HELLO.spec_bytes() + peer + NEWLINE.spec_bytes() + menu_prompt(entries),
            ActionView::ReadLine,
        ),
        (SessionView::AtMenu, EventView::LineRead(line)) => match choice_of(line, entries.len()) {
            MenuChoice::Logoff => (SessionView::Ended, GOODBYE.spec_bytes(), ActionView::Close),
            MenuChoice::Select(i) => {
                let entry = entries[i as int];
                (
                    SessionView::Relaying { label: entry.label@, address: entry.address@ },
                    naming(CONNECTING, entry.label@, entry.address@),
                    ActionView::Connect(entry.address@),
                )
            },
            MenuChoice::Invalid => (
                SessionView::AtMenu,
                INVALID_BEFORE.spec_bytes() + line + INVALID_AFTER.spec_bytes() + menu_prompt(entries),
                ActionView::ReadLine,
            ),
        },
        (SessionView::Relaying { label, address }, EventView::ConnectFailed) => (
            SessionView::AtMenu,
            naming(CONNECT_FAILED, label, address) + menu_prompt(entries),
            ActionView::ReadLine,
        ),
        (SessionView::Relaying { label, address }, EventView::RelayEnded(RelayOutcome::RemoteSideFailed(_))) => (
            SessionView::AtMenu,
            naming(DISCONNECTED, label, address) + menu_prompt(entries),
            ActionView::ReadLine,
        ),
        _ => (SessionView::Ended, Seq::empty(), ActionView::Close),
    }
}

/// Appends a message naming a destination.
fn push_naming(out: &mut Vec<u8>, before: &str, label: &String, address: &String)
    ensures
        final(out)@ == old(out)@ + naming(before, label@, address@),
{
    append_str(out, before);
    append_bytes(out, label.as_str().as_bytes());
    append_str(out, SEPARATOR);
    append_bytes(out, address.as_str().as_bytes());
    append_str(out, NEWLINE);
    assert(final(out)@ =~= old(out)@ + naming(before, label@, address@));
}

/// Appends the menu and the prompt.
fn push_menu(out: &mut Vec<u8>, book: &AddressBook)
    ensures
        final(out)@ == old(out)@ + menu_prompt(book.addresses@),
{
    let menu = render_menu(book);
    append_bytes(out, menu.as_slice());
    append_str(out, PROMPT);
    assert(final(out)@ =~= old(out)@ + menu_prompt(book.addresses@));
}

/// The state machine of one inbound connection: greeting, menu, relay, and
/// back to the menu until the client logs off or goes away.
pub struct Session {
    state: SessionState,
}

impl Session {
    pub closed spec fn view(&self) -> SessionView {
        state_view(self.state)
    }

    pub fn new() -> (r: Session)
        ensures
            r@ == SessionView::Greeting,
    {
        Session { state: SessionState::Greeting }
    }

    pub fn is_ended(&self) -> (r: bool)
        ensures
            r == (self@ is Ended),
    {
        matches!(self.state, SessionState::Ended)
    }

    fn end(&mut self, output: Vec<u8>) -> (r: SessionStep)
        ensures
            final(self)@ == SessionView::Ended,
            r.output == output,
            r.action == SessionAction::Close,
    {
        self.state = SessionState::Ended;
        SessionStep { output, action: SessionAction::Close }
    }

    /// Takes the next event. `book` is the address book the menu shows.
    pub fn step(&mut self, book: &AddressBook, event: &SessionEvent) -> (r: SessionStep)
        ensures
            (final(self)@, r.output@, action_view(r.action)) == session_next(
                old(self)@,
                book.addresses@,
                event_view(*event),
            ),
    {
        let mut out: Vec<u8> = Vec::new();
        match event {
            SessionEvent::Started(peer) => {
                if !matches!(self.state, SessionState::Greeting) {
                    return self.end(out);
                }
                append_str(&mut out, HELLO);
                append_bytes(&mut out, peer.as_slice());
                append_str(&mut out, NEWLINE);
                push_menu(&mut out, book);
                self.state = SessionState::AtMenu;
                assert(out@ =~= HELLO.spec_bytes() + peer@ + NEWLINE.spec_bytes() + menu_prompt(book.addresses@));
                SessionStep { output: out, action: SessionAction::ReadLine }
            },
            SessionEvent::LineRead(line) => {
                if !matches!(self.state, SessionState::AtMenu) {
                    return self.end(out);
                }
                match menu_choice(line.as_slice(), book.addresses.len()) {
                    MenuChoice::Logoff => {
                        append_str(&mut out, GOODBYE);
                        assert(out@ =~= GOODBYE.spec_bytes());
                        self.end(out)
                    },
                    MenuChoice::Select(i) => {
                        let entry = &book.addresses[i];
                        push_naming(&mut out, CONNECTING, &entry.label, &entry.address);
                        assert(out@ =~= naming(CONNECTING, entry.label@, entry.address@));
                        self.state = SessionState::Relaying {
                            label: entry.label.clone(),
                            address: entry.address.clone(),
                        };
                        SessionStep { output: out, action: SessionAction::Connect(entry.address.clone()) }
                    },
                    MenuChoice::Invalid => {
                        append_str(&mut out, INVALID_BEFORE);
                        append_bytes(&mut out, line.as_slice());
                        append_str(&mut out, INVALID_AFTER);
                        push_menu(&mut out, book);
                        assert(out@ =~= INVALID_BEFORE.spec_bytes() + line@ + INVALID_AFTER.spec_bytes()
                            + menu_prompt(book.addresses@));
                        SessionStep { output: out, action: SessionAction::ReadLine }
                    },
                }
            },
            SessionEvent::LineFailed => self.end(out),
            SessionEvent::ConnectFailed => {
                let fits = match &self.state {
                    SessionState::Relaying { label, address } => {
                        push_naming(&mut out, CONNECT_FAILED, label, address);
                        true
                    },
                    _ => false,
                };
                if !fits {
                    return self.end(out);
                }
                push_menu(&mut out, book);
                self.state = SessionState::AtMenu;
                SessionStep { output: out, action: SessionAction::ReadLine }
            },
            SessionEvent::RelayEnded(outcome) => {
                let fits = match (&self.state, outcome) {
                    (SessionState::Relaying { label, address }, RelayOutcome::RemoteSideFailed(_)) => {
                        push_naming(&mut out, DISCONNECTED, label, address);
                        true
                    },
                    _ => false,
                };
                if !fits {
                    return self.end(out);
                }
                push_menu(&mut out, book);
                self.state = SessionState::AtMenu;
                SessionStep { output: out, action: SessionAction::ReadLine }
            },
        }
    }
}

} // verus!

verus! {

/// A line that does not denote an integer in `0..=N` is answered with an
/// invalid-choice message quoting it and the menu again; the session stays at
/// the menu and reads another line.
pub proof fn lemma_invalid_input_reprompts(entries: Seq<AddressBookEntry>, line: Seq<u8>)
    requires
        parsed_number(line) matches Some(k) ==> k > entries.len(),
    ensures
        ({
            let (next, out, action) = session_next(SessionView::AtMenu, entries, EventView::LineRead(line));
            &&& next == SessionView::AtMenu
            &&& action == ActionView::ReadLine
            &&& out == INVALID_BEFORE.spec_bytes() + line + INVALID_AFTER.spec_bytes() + menu_prompt(entries)
        }),
{
    lemma_out_of_range_is_invalid(line, entries.len());
}

/// The input `0` (any line whose trimmed text is the number 0) logs off: a
/// goodbye, then the connection closes; it never selects a destination.
pub proof fn lemma_zero_input_logs_off(entries: Seq<AddressBookEntry>, line: Seq<u8>)
    requires
        parsed_number(line) == Some(0nat),
    ensures
        session_next(SessionView::AtMenu, entries, EventView::LineRead(line))
            == (SessionView::Ended, GOODBYE.spec_bytes(), ActionView::Close),
{
    lemma_zero_logs_off(line, entries.len());
}

/// Typing the number `k` of an entry (any line whose trimmed text is that
/// number) announces that entry and connects to its address.
pub proof fn lemma_selection_connects(entries: Seq<AddressBookEntry>, k: nat, line: Seq<u8>)
    requires
        1 <= k <= entries.len() <= usize::MAX,
        parsed_number(line) == Some(k),
    ensures
        ({
            let e = entries[k - 1];
            session_next(SessionView::AtMenu, entries, EventView::LineRead(line))
                == (
                SessionView::Relaying { label: e.label@, address: e.address@ },
                naming(CONNECTING, e.label@, e.address@),
                ActionView::Connect(e.address@),
            )
        }),
{
    lemma_menu_selects_entries(entries, k, line);
}

/// When the destination side of a relay fails the session goes back to the
/// menu; when the client side fails the connection closes without another
/// menu.
pub proof fn lemma_relay_end_decides_session(
    entries: Seq<AddressBookEntry>,
    label: Seq<char>,
    address: Seq<char>,
    e: StreamError,
)
    ensures
        session_next(
            SessionView::Relaying { label, address },
            entries,
            EventView::RelayEnded(RelayOutcome::RemoteSideFailed(e)),
        ) == (SessionView::AtMenu, naming(DISCONNECTED, label, address) + menu_prompt(entries), ActionView::ReadLine),
        session_next(
            SessionView::Relaying { label, address },
            entries,
            EventView::RelayEnded(RelayOutcome::LocalSideFailed(e)),
        ) == (SessionView::Ended, Seq::<u8>::empty(), ActionView::Close),
{
}

} // verus!
