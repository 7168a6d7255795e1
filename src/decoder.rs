use libtelnet_rs::events::TelnetEvents;
use libtelnet_rs::Parser;
use crate::byte_ops::{append_bytes, copy_from, copy_prefix, find_byte, joined, lacks};
use vstd::prelude::*;

verus! {

/// The telnet "Interpret As Command" escape byte.
pub const IAC: u8 = 255;

/// Subnegotiation begin.
pub const SB: u8 = 250;

/// Subnegotiation end.
pub const SE: u8 = 240;

#[verifier::external_type_specification]
#[verifier::external_body]
pub struct ExParser(Parser);

/// The bytes that the telnet parser holds in its buffer between two calls:
/// the start of a subnegotiation whose closing `IAC SE` has not arrived yet.
pub uninterp spec fn parser_pending(p: Parser) -> Seq<u8>;

/// True when no option of the parser's compatibility table is supported or
/// enabled, as in a new parser.
pub uninterp spec fn parser_options_unset(p: Parser) -> bool;

/// One structured event decoded from the inbound byte stream. Each variant
/// carries the raw bytes of the event.
pub enum ProtocolEvent {
    RawControl(Vec<u8>),
    Negotiation(Vec<u8>),
    Subnegotiation(Vec<u8>),
    DataReceive(Vec<u8>),
    DataSend(Vec<u8>),
    DecompressImmediate(Vec<u8>),
}

/// True when no byte of `s` is the IAC escape byte.
pub open spec fn is_plain(s: Seq<u8>) -> bool {
    lacks(s, IAC)
}

/// The payload of a `DataReceive` event, and nothing for the other kinds.
pub open spec fn received_payload(e: ProtocolEvent) -> Seq<u8> {
    match e {
        ProtocolEvent::DataReceive(b) => b@,
        _ => Seq::empty(),
    }
}

/// The concatenated `DataReceive` payloads of a sequence of events.
pub open spec fn received_data(events: Seq<ProtocolEvent>) -> Seq<u8>
    decreases events.len(),
{
    if events.len() == 0 {
        Seq::empty()
    } else {
        received_data(events.drop_last()) + received_payload(events.last())
    }
}

/// The events that a decoder with nothing held back yields for a plain chunk.
pub open spec fn plain_events_ok(events: Seq<ProtocolEvent>, chunk: Seq<u8>) -> bool {
    if chunk.len() == 0 {
        events.len() == 0
    } else {
        events.len() == 1 && events[0] is DataReceive && received_payload(events[0]) == chunk
    }
}

/// A complete subnegotiation, `IAC SB` .. `IAC SE`, with no SE byte before its end.
pub open spec fn is_subnegotiation(s: Seq<u8>) -> bool {
    &&& s.len() >= 4
    &&& s[0] == IAC && s[1] == SB
    &&& s[s.len() - 2] == IAC && s[s.len() - 1] == SE
    &&& forall|i: int| 2 <= i < s.len() - 1 ==> s[i] != SE
}

/// The opening of a subnegotiation, `IAC SB` .., with no SE byte yet.
pub open spec fn is_open_subnegotiation(s: Seq<u8>) -> bool {
    &&& s.len() >= 2
    &&& s[0] == IAC && s[1] == SB
    &&& forall|i: int| 2 <= i < s.len() ==> s[i] != SE
}

/// The view of one event: its kind and its bytes.
pub enum EventView {
    RawControl(Seq<u8>),
    Negotiation(Seq<u8>),
    Subnegotiation(Seq<u8>),
    DataReceive(Seq<u8>),
    DataSend(Seq<u8>),
    DecompressImmediate(Seq<u8>),
}

pub open spec fn event_view(e: ProtocolEvent) -> EventView {
    match e {
        ProtocolEvent::RawControl(b) => EventView::RawControl(b@),
        ProtocolEvent::Negotiation(b) => EventView::Negotiation(b@),
        ProtocolEvent::Subnegotiation(b) => EventView::Subnegotiation(b@),
        ProtocolEvent::DataReceive(b) => EventView::DataReceive(b@),
        ProtocolEvent::DataSend(b) => EventView::DataSend(b@),
        ProtocolEvent::DecompressImmediate(b) => EventView::DecompressImmediate(b@),
    }
}

pub open spec fn events_view(events: Seq<ProtocolEvent>) -> Seq<EventView> {
    events.map_values(|e: ProtocolEvent| event_view(e))
}

/// What a parser with no option set yields for the bytes it scans (what it
/// held followed by the new chunk): the events, and the bytes it keeps.
pub uninterp spec fn telnet_receive(buffered: Seq<u8>) -> (Seq<EventView>, Seq<u8>);

/// The telnet option commands WILL, WONT, DO and DONT.
pub open spec fn is_verb(b: u8) -> bool {
    251 <= b && b <= 254
}

/// Data, one negotiation `IAC verb option`, and data.
pub open spec fn negotiation_between(d1: Seq<u8>, verb: u8, option: u8, d2: Seq<u8>) -> Seq<u8> {
    d1 + seq![IAC, verb, option] + d2
}

/// What is known of one call of a parser with no option set, from the bytes
/// it held before (`held`), the chunk, the events and the bytes it keeps.
pub open spec fn receives(held: Seq<u8>, chunk: Seq<u8>, events: Seq<ProtocolEvent>, kept: Seq<u8>) -> bool {
    let buffered = held + chunk;
    &&& kept.len() <= buffered.len()
    &&& held.len() == 0 && is_plain(chunk) ==> plain_events_ok(events, chunk) && kept.len() == 0
    &&& is_open_subnegotiation(buffered) ==> events.len() == 0 && kept == buffered
    &&& is_subnegotiation(buffered) ==> events.len() == 0 && kept.len() == 0
    &&& forall|d1: Seq<u8>, v: u8, opt: u8, d2: Seq<u8>|
        held.len() == 0 && is_plain(d1) && is_plain(d2) && is_verb(v) && #[trigger] negotiation_between(d1, v, opt, d2)
            == chunk ==> received_data(events) == d1 + d2 && kept.len() == 0
}

/// Relies on libtelnet_rs::Parser::new: an empty buffer and a compatibility
/// table of zeros.
#[verifier::external_body]
fn new_parser() -> (r: Parser)
    ensures
        parser_pending(r) == Seq::<u8>::empty(),
        parser_options_unset(r),
{
    Parser::new()
}

/// Relies on libtelnet_rs::Parser::receive. It appends `chunk` to its buffer,
/// scans the buffer from its start and clears it; then it puts back each
/// subnegotiation that lacks its `IAC SE` ending, so what it keeps is made of
/// disjoint parts of the buffer. With no option set, the options are only
/// read, so the result depends on the scanned bytes alone. With nothing held:
/// a chunk without IAC comes back as one `DataReceive` (none when empty); a
/// negotiation `IAC verb option` between such data yields no data of its own
/// (WILL and DO are refused with a `DataSend`, WONT and DONT reported). A
/// complete subnegotiation yields an event only for an option enabled locally.
#[verifier::external_body]
fn parser_receive(parser: &mut Parser, chunk: &[u8]) -> (r: Vec<ProtocolEvent>)
    requires
        parser_options_unset(*old(parser)),
    ensures
        parser_options_unset(*final(parser)),
        (events_view(r@), parser_pending(*final(parser))) == telnet_receive(parser_pending(*old(parser)) + chunk@),
        receives(parser_pending(*old(parser)), chunk@, r@, parser_pending(*final(parser))),
{
    parser.receive(chunk).into_iter().map(|ev| match ev {
        TelnetEvents::IAC(c) => ProtocolEvent::RawControl(c.into_bytes()),
        TelnetEvents::Negotiation(n) => ProtocolEvent::Negotiation(n.into_bytes()),
        TelnetEvents::Subnegotiation(s) => ProtocolEvent::Subnegotiation(s.into_bytes()),
        TelnetEvents::DataReceive(b) => ProtocolEvent::DataReceive(b.to_vec()),
        TelnetEvents::DataSend(b) => ProtocolEvent::DataSend(b.to_vec()),
        TelnetEvents::DecompressImmediate(b) => ProtocolEvent::DecompressImmediate(b.to_vec()),
    }).collect()
}

/// The most bytes the decoder lets the parser hold back.
pub const PENDING_CAP: usize = 4096;

/// The number of IAC bytes in a row that end just before position `end`.
pub open spec fn iac_run(s: Seq<u8>, end: int) -> nat
    decreases end,
{
    if end <= 0 || end > s.len() || s[end - 1] != IAC {
        0
    } else {
        1 + iac_run(s, end - 1)
    }
}

/// The length of an unfinished command at the end of `s`: a lone IAC (not
/// the second of an escaped pair), or a lone IAC and an option verb.
pub open spec fn partial_tail(s: Seq<u8>) -> nat {
    let n = s.len() as int;
    if n >= 1 && iac_run(s, n) % 2 == 1 {
        1
    } else if n >= 2 && is_verb(s[n - 1]) && iac_run(s, n - 1) % 2 == 1 {
        2
    } else {
        0
    }
}

fn iac_run_before(s: &[u8], end: usize) -> (r: usize)
    requires
        end <= s@.len(),
    ensures
        r == iac_run(s@, end as int),
{
    let mut i: usize = end;
    let mut count: usize = 0;
    while i > 0 && s[i - 1] == IAC
        invariant
            i <= end <= s@.len(),
            count + iac_run(s@, i as int) == iac_run(s@, end as int),
            count == end - i,
        decreases i,
    {
        i = i - 1;
        count = count + 1;
    }
    count
}

fn partial_tail_len(s: &[u8]) -> (r: usize)
    ensures
        r == partial_tail(s@),
{
    let n = s.len();
    if n >= 1 && iac_run_before(s, n) % 2 == 1 {
        1
    } else if n >= 2 && 251 <= s[n - 1] && s[n - 1] <= 254 && iac_run_before(s, n - 1) % 2 == 1 {
        2
    } else {
        0
    }
}

/// Stateful telnet stream decoder. A command cut by the end of a chunk (a
/// lone IAC, or IAC and an option verb) is held back and decoded with the
/// next chunk; an unfinished subnegotiation is held by the parser until its
/// end arrives. The parser does not tell how much it holds, so the decoder
/// counts the bytes fed to it since it last knew it to hold nothing; once
/// that count passes `PENDING_CAP` it drops what may be held and starts over
/// with a fresh parser.
pub struct Decoder {
    parser: Parser,
    unsettled: usize,
    held: Vec<u8>,
}

/// The count of unsettled bytes after handing `chunk` to the parser with
/// `unsettled` counted so far: a plain chunk given to a parser known to hold
/// nothing leaves it so.
pub open spec fn counted_after(unsettled: nat, chunk: Seq<u8>) -> nat {
    if unsettled == 0 && is_plain(chunk) {
        0
    } else {
        unsettled + chunk.len()
    }
}

impl Decoder {
    /// The bytes the parser holds from earlier chunks.
    pub closed spec fn pending(&self) -> Seq<u8> {
        parser_pending(self.parser)
    }

    /// The unfinished command held back by the decoder itself.
    pub closed spec fn held(&self) -> Seq<u8> {
        self.held@
    }

    /// An upper bound of what the parser holds: the bytes handed to it since
    /// the decoder last knew that it held nothing.
    pub closed spec fn unsettled(&self) -> nat {
        self.unsettled as nat
    }

    /// True when the decoder accepts no telnet option: it refuses every
    /// request and reports no subnegotiation.
    pub closed spec fn refuses_options(&self) -> bool {
        parser_options_unset(self.parser)
    }

    /// True when no partial control sequence is held.
    pub open spec fn is_idle(&self) -> bool {
        self.pending().len() == 0 && self.held().len() == 0
    }

    /// What the parser holds is within the count, the count within the cap,
    /// and no option is ever set.
    pub open spec fn wf(&self) -> bool {
        &&& self.pending().len() <= self.unsettled() <= PENDING_CAP
        &&& self.refuses_options()
        &&& self.held().len() <= 2
    }

    /// What one `feed` call does, from the decoder before it, the chunk, the
    /// events and the decoder after it: the held bytes and the chunk, less an
    /// unfinished command at their end (which is held), go to the parser; if
    /// the count then passes the cap, the parser is replaced by a fresh one.
    pub open spec fn feeds(&self, chunk: Seq<u8>, events: Seq<ProtocolEvent>, next: Decoder) -> bool {
        let buf = self.held() + chunk;
        let cut = buf.len() - partial_tail(buf);
        let head = buf.subrange(0, cut);
        let scanned = telnet_receive(self.pending() + head);
        let counted = counted_after(self.unsettled(), head);
        &&& next.held() == buf.subrange(cut, buf.len() as int)
        &&& next.refuses_options()
        &&& events_view(events) == scanned.0
        &&& receives(self.pending(), head, events, scanned.1)
        &&& if counted > PENDING_CAP {
            next.pending().len() == 0 && next.unsettled() == 0
        } else {
            next.pending() == scanned.1 && next.unsettled() == counted
        }
    }

    pub fn new() -> (r: Decoder)
        ensures
            r.wf(),
            r.is_idle(),
            r.unsettled() == 0,
    {
        Decoder { parser: new_parser(), unsettled: 0, held: Vec::new() }
    }

    /// Decodes one chunk of inbound bytes into events.
    pub fn feed(&mut self, chunk: &[u8]) -> (r: Vec<ProtocolEvent>)
        requires
            old(self).wf(),
        ensures
            final(self).wf(),
            old(self).feeds(chunk@, r@, *final(self)),
            old(self).is_idle() && is_plain(chunk@) ==> plain_events_ok(r@, chunk@)
                && final(self).is_idle(),
    {
        let mut buf: Vec<u8> = Vec::new();
        append_bytes(&mut buf, self.held.as_slice());
        append_bytes(&mut buf, chunk);
        let n = buf.len();
        let t = partial_tail_len(buf.as_slice());
        let head = copy_prefix(buf.as_slice(), n - t);
        self.held = copy_from(buf.as_slice(), n - t);
        let events = parser_receive(&mut self.parser, head.as_slice());
        let plain = find_byte(head.as_slice(), IAC).is_none();
        proof {
            if old(self).is_idle() && is_plain(chunk@) {
                assert(buf@ =~= chunk@);
                assert(iac_run(buf@, n as int) == 0);
                if n >= 1 {
                    assert(buf@[n - 1] != IAC);
                }
                if n >= 2 {
                    assert(buf@[n - 2] != IAC);
                    assert(iac_run(buf@, n - 1) == 0);
                }
                assert(head@ =~= chunk@);
                assert(self.held@ =~= Seq::<u8>::empty());
            }
        }
        if self.unsettled == 0 && plain {
            return events;
        }
        if head.len() > PENDING_CAP - self.unsettled {
            self.parser = new_parser();
            self.unsettled = 0;
        } else {
            self.unsettled = self.unsettled + head.len();
        }
        events
    }
}

} // verus!

verus! {

/// The data received over a run of `feed` calls, one event list per call.
pub open spec fn received_over(outputs: Seq<Seq<ProtocolEvent>>) -> Seq<u8>
    decreases outputs.len(),
{
    if outputs.len() == 0 {
        Seq::empty()
    } else {
        received_over(outputs.drop_last()) + received_data(outputs.last())
    }
}

/// Chunking does not change plain data: when plain chunks are fed one after
/// another to an idle decoder, the received data is the stream itself, so any
/// two ways of cutting the same stream into chunks yield the same data.
pub proof fn lemma_plain_chunking_invariant(
    chunks: Seq<Seq<u8>>,
    outputs: Seq<Seq<ProtocolEvent>>,
    other_chunks: Seq<Seq<u8>>,
    other_outputs: Seq<Seq<ProtocolEvent>>,
)
    requires
        chunks.len() == outputs.len(),
        forall|i: int| 0 <= i < chunks.len() ==> is_plain(#[trigger] chunks[i]) && plain_events_ok(outputs[i], chunks[i]),
        other_chunks.len() == other_outputs.len(),
        forall|i: int| 0 <= i < other_chunks.len() ==> is_plain(#[trigger] other_chunks[i]) && plain_events_ok(other_outputs[i], other_chunks[i]),
        joined(chunks) == joined(other_chunks),
    ensures
        received_over(outputs) == joined(chunks),
        received_over(outputs) == received_over(other_outputs),
{
    lemma_plain_run(chunks, outputs);
    lemma_plain_run(other_chunks, other_outputs);
}

proof fn lemma_plain_run(chunks: Seq<Seq<u8>>, outputs: Seq<Seq<ProtocolEvent>>)
    requires
        chunks.len() == outputs.len(),
        forall|i: int| 0 <= i < chunks.len() ==> is_plain(#[trigger] chunks[i]) && plain_events_ok(outputs[i], chunks[i]),
    ensures
        received_over(outputs) == joined(chunks),
    decreases chunks.len(),
{
    if chunks.len() > 0 {
        let n = chunks.len() - 1;
        assert(is_plain(chunks[n]) && plain_events_ok(outputs[n], chunks[n]));
        lemma_plain_run(chunks.drop_last(), outputs.drop_last());
        let evs = outputs.last();
        if evs.len() == 1 {
            assert(evs.drop_last().len() == 0);
            assert(received_data(evs.drop_last()) =~= Seq::<u8>::empty());
            assert(evs.last() == evs[0]);
            assert(received_data(evs) =~= chunks.last());
        } else {
            assert(chunks.last() =~= Seq::<u8>::empty());
            assert(received_data(evs) =~= Seq::<u8>::empty());
        }
    }
}

} // verus!

verus! {

proof fn lemma_no_tail_after_end(s: Seq<u8>)
    requires
        s.len() >= 1,
        s.last() == SE,
    ensures
        partial_tail(s) == 0,
        s.subrange(0, s.len() - partial_tail(s)) == s,
{
    assert(iac_run(s, s.len() as int) == 0);
    assert(s.subrange(0, s.len() as int) =~= s);
}

proof fn lemma_open_head(first: Seq<u8>)
    requires
        is_open_subnegotiation(first),
    ensures
        first.len() - partial_tail(first) >= 2,
        is_open_subnegotiation(first.subrange(0, first.len() - partial_tail(first))),
{
    let n = first.len() as int;
    assert(iac_run(first, 0) == 0);
    assert(iac_run(first, 1) == 1);
    assert(iac_run(first, 2) == 0);
    if n >= 3 && iac_run(first, n) % 2 == 1 {
        assert(first[n - 1] == IAC);
    }
    let head = first.subrange(0, n - partial_tail(first));
    assert forall|i: int| 2 <= i < head.len() implies head[i] != SE by {
        assert(head[i] == first[i]);
    }
}

/// Feeding bytes that end with SE to a decoder whose held and pending bytes
/// together with them form one complete subnegotiation.
proof fn lemma_feed_closing(d: Decoder, rest: Seq<u8>, events: Seq<ProtocolEvent>, next: Decoder)
    requires
        rest.len() >= 1,
        rest.last() == SE,
        is_subnegotiation(d.pending() + (d.held() + rest)),
        d.feeds(rest, events, next),
    ensures
        events.len() == 0,
        next.is_idle(),
{
    let buf = d.held() + rest;
    assert(buf.last() == SE);
    lemma_no_tail_after_end(buf);
}

/// Feeding the opening part of a subnegotiation to an idle decoder.
proof fn lemma_feed_opening(d: Decoder, first: Seq<u8>, events: Seq<ProtocolEvent>, next: Decoder)
    requires
        d.wf(),
        d.is_idle(),
        d.unsettled() + first.len() <= PENDING_CAP,
        is_open_subnegotiation(first),
        d.feeds(first, events, next),
    ensures
        events.len() == 0,
        next.pending() + next.held() == first,
{
    assert(d.held() + first =~= first);
    lemma_open_head(first);
    let c1 = first.len() - partial_tail(first);
    let head1 = first.subrange(0, c1);
    assert(d.pending() + head1 =~= head1);
    assert(head1[0] == IAC);
    assert(!is_plain(head1));
    assert(next.pending() == head1);
    assert(head1 + first.subrange(c1, first.len() as int) =~= first);
}

/// A subnegotiation cut in two anywhere after its `IAC SB` opening decodes
/// as it does whole: the first part is held back, the second completes it,
/// and both ways yield the same events and leave the decoder idle.
pub proof fn lemma_split_subnegotiation_resumes(
    whole: Seq<u8>,
    cut: int,
    start: Decoder,
    whole_events: Seq<ProtocolEvent>,
    after_whole: Decoder,
    first_events: Seq<ProtocolEvent>,
    middle: Decoder,
    second_events: Seq<ProtocolEvent>,
    after_split: Decoder,
)
    requires
        is_subnegotiation(whole),
        2 <= cut < whole.len(),
        start.wf(),
        start.unsettled() + whole.len() <= PENDING_CAP,
        start.is_idle(),
        start.feeds(whole, whole_events, after_whole),
        start.feeds(whole.subrange(0, cut), first_events, middle),
        middle.feeds(whole.subrange(cut, whole.len() as int), second_events, after_split),
    ensures
        events_view(first_events) + events_view(second_events) == events_view(whole_events),
        after_whole.is_idle(),
        after_split.is_idle(),
{
    let n = whole.len() as int;
    let first = whole.subrange(0, cut);
    let second = whole.subrange(cut, n);
    assert(start.pending() + (start.held() + whole) =~= whole);
    lemma_feed_closing(start, whole, whole_events, after_whole);
    assert(is_open_subnegotiation(first)) by {
        assert forall|i: int| 2 <= i < first.len() implies first[i] != SE by {
            assert(first[i] == whole[i]);
        }
    }
    lemma_feed_opening(start, first, first_events, middle);
    assert(middle.pending() + (middle.held() + second) =~= whole);
    assert(second.last() == SE);
    lemma_feed_closing(middle, second, second_events, after_split);
    assert(events_view(first_events) + events_view(second_events) =~= events_view(whole_events));
}

/// A negotiation `IAC verb option` cut after its first or second byte decodes
/// as it does whole: the cut part is held back, and both ways yield the same
/// events and leave the decoder in the same state.
pub proof fn lemma_split_negotiation_resumes(
    whole: Seq<u8>,
    cut: int,
    start: Decoder,
    whole_events: Seq<ProtocolEvent>,
    after_whole: Decoder,
    first_events: Seq<ProtocolEvent>,
    middle: Decoder,
    second_events: Seq<ProtocolEvent>,
    after_split: Decoder,
)
    requires
        whole.len() == 3,
        whole[0] == IAC,
        is_verb(whole[1]),
        1 <= cut <= 2,
        start.wf(),
        start.is_idle(),
        start.feeds(whole, whole_events, after_whole),
        start.feeds(whole.subrange(0, cut), first_events, middle),
        middle.feeds(whole.subrange(cut, 3), second_events, after_split),
    ensures
        events_view(first_events) + events_view(second_events) == events_view(whole_events),
        after_split.pending() == after_whole.pending(),
        after_split.held() == after_whole.held(),
        after_split.unsettled() == after_whole.unsettled(),
{
    let first = whole.subrange(0, cut);
    assert(start.held() + first =~= first);
    assert(iac_run(first, 0) == 0);
    assert(iac_run(first, 1) == 1);
    if cut == 2 {
        assert(iac_run(first, 2) == 0);
    }
    assert(partial_tail(first) == cut);
    let head1 = first.subrange(0, 0);
    assert(head1 =~= Seq::<u8>::empty());
    assert(start.pending() + head1 =~= head1);
    assert(is_plain(head1));
    assert(first_events.len() == 0);
    assert(middle.pending().len() == 0);
    assert(middle.held() =~= first);
    assert(middle.unsettled() == start.unsettled());
    assert(middle.held() + whole.subrange(cut, 3) =~= whole);
    assert(start.held() + whole =~= whole);
    assert(middle.pending() =~= start.pending());
    assert(events_view(first_events) + events_view(second_events) =~= events_view(whole_events));
}

} // verus!

verus! {

proof fn lemma_plain_received(events: Seq<ProtocolEvent>, chunk: Seq<u8>)
    requires
        plain_events_ok(events, chunk),
    ensures
        received_data(events) == chunk,
{
    if events.len() == 1 {
        assert(events.drop_last().len() == 0);
        assert(received_data(events.drop_last()) =~= Seq::<u8>::empty());
        assert(events.last() == events[0]);
        assert(received_data(events) =~= chunk);
    } else {
        assert(received_data(events) =~= Seq::<u8>::empty());
        assert(chunk =~= Seq::<u8>::empty());
    }
}

/// Data, a negotiation ending in an option byte other than IAC, and data,
/// with nothing held: no unfinished command stands at the end.
proof fn lemma_negotiation_no_tail(d1: Seq<u8>, verb: u8, option: u8, d2: Seq<u8>)
    requires
        is_plain(d1),
        is_plain(d2),
        is_verb(verb),
        option != IAC,
    ensures
        partial_tail(negotiation_between(d1, verb, option, d2)) == 0,
{
    let s = negotiation_between(d1, verb, option, d2);
    let n = s.len() as int;
    let k = d1.len() as int;
    if d2.len() >= 2 {
        assert(s[n - 1] == d2[d2.len() - 1]);
        assert(s[n - 2] == d2[d2.len() - 2]);
    } else if d2.len() == 1 {
        assert(s[n - 1] == d2[0]);
        assert(s[n - 2] == option);
    } else {
        assert(s[n - 1] == option);
        assert(s[n - 2] == verb);
    }
    assert(iac_run(s, n) == 0);
    assert(iac_run(s, n - 1) == 0);
}

/// Data, a negotiation `IAC verb option` (option not IAC), and data give the
/// same received data whether they come in one chunk or with the chunk cut
/// inside the negotiation: the data on both sides and nothing of the
/// negotiation; and the decoder is idle afterwards either way.
#[verifier::rlimit(40)]
pub proof fn lemma_negotiation_between_data(
    d1: Seq<u8>,
    verb: u8,
    option: u8,
    d2: Seq<u8>,
    cut: int,
    start: Decoder,
    whole_events: Seq<ProtocolEvent>,
    after_whole: Decoder,
    first_events: Seq<ProtocolEvent>,
    middle: Decoder,
    second_events: Seq<ProtocolEvent>,
    after_split: Decoder,
)
    requires
        is_plain(d1),
        is_plain(d2),
        is_verb(verb),
        option != IAC,
        1 <= cut <= 2,
        start.wf(),
        start.is_idle(),
        start.feeds(negotiation_between(d1, verb, option, d2), whole_events, after_whole),
        start.feeds(negotiation_between(d1, verb, option, d2).subrange(0, d1.len() + cut), first_events, middle),
        middle.feeds(
            negotiation_between(d1, verb, option, d2).subrange(d1.len() + cut, (d1.len() + 3 + d2.len()) as int),
            second_events,
            after_split,
        ),
    ensures
        received_data(whole_events) == d1 + d2,
        received_data(first_events) + received_data(second_events) == d1 + d2,
        after_whole.is_idle(),
        after_split.is_idle(),
{
    let s = negotiation_between(d1, verb, option, d2);
    let n = s.len() as int;
    let k = d1.len() as int;
    // in one chunk
    assert(start.held() + s =~= s);
    lemma_negotiation_no_tail(d1, verb, option, d2);
    assert(s.subrange(0, n) =~= s);
    assert(start.pending() + s =~= s);
    // the part before the cut
    let f = s.subrange(0, k + cut);
    assert(start.held() + f =~= f);
    if k > 0 {
        assert(f[k - 1] == d1[k - 1]);
    }
    assert(iac_run(f, k) == 0);
    assert(f[k] == IAC);
    assert(iac_run(f, k + 1) == 1);
    if cut == 2 {
        assert(f[k + 1] == verb);
        assert(iac_run(f, k + 2) == 0);
    }
    assert(partial_tail(f) == cut);
    assert(f.subrange(0, k) =~= d1);
    assert(start.pending() + d1 =~= d1);
    lemma_plain_received(first_events, d1);
    assert(middle.pending().len() == 0);
    assert(middle.held() == f.subrange(k, k + cut));
    // the rest
    let r = s.subrange(k + cut, n);
    let empty = Seq::<u8>::empty();
    assert(middle.held() + r =~= negotiation_between(empty, verb, option, d2));
    assert(is_plain(empty));
    lemma_negotiation_no_tail(empty, verb, option, d2);
    let b2 = middle.held() + r;
    assert(b2.subrange(0, b2.len() as int) =~= b2);
    assert(middle.pending() + b2 =~= b2);
    assert(empty + d2 =~= d2);
}

} // verus!
