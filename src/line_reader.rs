use crate::byte_ops::{append_bytes, copy_prefix, find_byte, joined, lacks};
use crate::decoder::{received_data, received_payload, Decoder, ProtocolEvent, is_plain};
use vstd::prelude::*;

verus! {

/// The carriage return that ends a line of input.
pub const CR: u8 = 13;

/// Why reading a line stopped without a line.
#[derive(PartialEq, Eq, Structural, Debug)]
pub enum LineError {
    /// The peer closed the stream: a read returned no bytes.
    ConnectionClosed,
}

/// What to do after one chunk: bytes to write back to the peer, and the
/// completed line once a carriage return has arrived.
pub struct LineStep {
    pub output: Vec<u8>,
    pub line: Option<Vec<u8>>,
}

/// The bytes written back to the peer for one event: received data is echoed
/// and protocol replies are sent; other events are only observed.
pub open spec fn written_payload(e: ProtocolEvent) -> Seq<u8> {
    match e {
        ProtocolEvent::DataReceive(b) => b@,
        ProtocolEvent::DataSend(b) => b@,
        _ => Seq::empty(),
    }
}

/// The bytes written back for a sequence of events, in order.
pub open spec fn written(events: Seq<ProtocolEvent>) -> Seq<u8>
    decreases events.len(),
{
    if events.len() == 0 {
        Seq::empty()
    } else {
        written(events.drop_last()) + written_payload(events.last())
    }
}

/// Accumulating `data` after `input`: once the text holds a carriage return,
/// the line is the text before the first one and nothing is kept (what
/// follows that carriage return is dropped); until then nothing is returned
/// and the whole text is kept.
pub open spec fn accumulates(input: Seq<u8>, data: Seq<u8>, line: Option<Seq<u8>>, kept: Seq<u8>) -> bool {
    let acc = input + data;
    if lacks(acc, CR) {
        line is None && kept == acc
    } else {
        exists|p: int|
            0 <= p < acc.len() && acc[p] == CR && lacks(#[trigger] acc.subrange(0, p), CR)
                && line == Some(acc.subrange(0, p)) && kept.len() == 0
    }
}

/// The view of an optional line.
pub open spec fn line_view(l: Option<Vec<u8>>) -> Option<Seq<u8>> {
    match l {
        Some(v) => Some(v@),
        None => None,
    }
}

/// Reads one line of telnet input, chunk by chunk, echoing what it receives.
pub struct LineReader {
    decoder: Decoder,
    input: Vec<u8>,
}

impl LineReader {
    /// The text received so far (cut at the first carriage return once one came).
    pub closed spec fn input(&self) -> Seq<u8> {
        self.input@
    }

    /// The decoder of this reader.
    pub closed spec fn decoder(&self) -> Decoder {
        self.decoder
    }

    /// The decoder is well formed and the text holds no carriage return.
    pub open spec fn wf(&self) -> bool {
        self.decoder().wf() && lacks(self.input(), CR)
    }

    /// True when the decoder holds no partial control sequence.
    pub open spec fn is_idle(&self) -> bool {
        self.decoder().is_idle()
    }

    pub fn new() -> (r: LineReader)
        ensures
            r.wf(),
            r.input().len() == 0,
            r.is_idle(),
    {
        LineReader { decoder: Decoder::new(), input: Vec::new() }
    }

    /// Takes the events decoded from one chunk: writes back received data and
    /// protocol replies, and accumulates the received data into the line.
    pub fn apply_events(&mut self, events: &Vec<ProtocolEvent>) -> (r: LineStep)
        ensures
            r.output@ == written(events@),
            accumulates(old(self).input(), received_data(events@), line_view(r.line), final(self).input()),
            final(self).decoder() == old(self).decoder(),
            lacks(final(self).input(), CR),
    {
        let ghost start = self.input@;
        let mut output: Vec<u8> = Vec::new();
        let mut i: usize = 0;
        while i < events.len()
            invariant
                i <= events@.len(),
                output@ == written(events@.subrange(0, i as int)),
                self.input@ == start + received_data(events@.subrange(0, i as int)),
                self.decoder == old(self).decoder,
            decreases events@.len() - i,
        {
            let ghost before = events@.subrange(0, i as int);
            match &events[i] {
                ProtocolEvent::DataReceive(b) => {
                    append_bytes(&mut output, b.as_slice());
                    append_bytes(&mut self.input, b.as_slice());
                },
                ProtocolEvent::DataSend(b) => {
                    append_bytes(&mut output, b.as_slice());
                },
                _ => {},
            }
            i = i + 1;
            proof {
                let now = events@.subrange(0, i as int);
                assert(now.drop_last() =~= before);
                assert(now.last() == events@[i - 1]);
                assert(start + received_data(before) + received_payload(events@[i - 1]) =~= start + received_data(now));
            }
        }
        assert(events@.subrange(0, events@.len() as int) =~= events@);
        let acc = &self.input;
        match find_byte(acc.as_slice(), CR) {
            Some(p) => {
                let line = copy_prefix(acc.as_slice(), p);
                self.input = Vec::new();
                LineStep { output, line: Some(line) }
            },
            None => LineStep { output, line: None },
        }
    }

    /// Takes one chunk read from the peer. An empty chunk means the peer
    /// closed the stream. Otherwise the chunk is decoded and its events
    /// applied as by `apply_events`; a plain chunk fed to an idle reader is
    /// echoed as it is and added to the line as it is.
    pub fn receive_chunk(&mut self, chunk: &[u8]) -> (r: Result<LineStep, LineError>)
        requires
            old(self).wf(),
        ensures
            final(self).wf(),
            chunk@.len() == 0 <==> r is Err,
            chunk@.len() == 0 ==> r == Err::<LineStep, LineError>(LineError::ConnectionClosed) && *final(self) == *old(self),
            r matches Ok(step) ==> exists|events: Seq<ProtocolEvent>|
                #[trigger] old(self).decoder().feeds(chunk@, events, final(self).decoder())
                && step.output@ == written(events)
                && accumulates(old(self).input(), received_data(events), line_view(step.line), final(self).input()),
            r matches Ok(step) ==> old(self).is_idle() && is_plain(chunk@) ==>
                step.output@ == chunk@
                && accumulates(old(self).input(), chunk@, line_view(step.line), final(self).input())
                && final(self).is_idle(),
    {
        if chunk.len() == 0 {
            return Err(LineError::ConnectionClosed);
        }
        let events = self.decoder.feed(chunk);
        let step = self.apply_events(&events);
        proof {
            assert(accumulates(old(self).input(), received_data(events@), line_view(step.line), self.input()));
            if old(self).is_idle() && is_plain(chunk@) {
                let evs = events@;
                assert(evs.len() == 1);
                assert(evs.drop_last().len() == 0);
                assert(written(evs.drop_last()) =~= Seq::<u8>::empty());
                assert(received_data(evs.drop_last()) =~= Seq::<u8>::empty());
                assert(evs.last() == evs[0]);
                assert(written(evs) =~= chunk@);
                assert(received_data(evs) =~= chunk@);
            }
        }
        Ok(step)
    }
}

} // verus!

verus! {

/// The text of a stream ends a line at `p`: a carriage return stands there
/// and none before it.
pub open spec fn line_ends_at(s: Seq<u8>, p: int) -> bool {
    0 <= p < s.len() && s[p] == CR && lacks(s.subrange(0, p), CR)
}

proof fn lemma_first_cr_unique(s: Seq<u8>, p: int, q: int)
    requires
        line_ends_at(s, p),
        line_ends_at(s, q),
    ensures
        p == q,
{
    if p < q {
        assert(s.subrange(0, q)[p] == s[p]);
    } else if q < p {
        assert(s.subrange(0, p)[q] == s[q]);
    }
}

/// Chunking does not change the line: when a reader with empty text takes
/// the chunks of a stream's data one after another, keeping on while no line
/// has come, the line it returns is the stream's text up to its first
/// carriage return, and none comes while the text holds none; so any two ways
/// of cutting the same data into chunks give the same line.
pub proof fn lemma_line_chunking_invariant(
    chunks: Seq<Seq<u8>>,
    texts: Seq<Seq<u8>>,
    lines: Seq<Option<Seq<u8>>>,
)
    requires
        chunks.len() >= 1,
        texts.len() == chunks.len() + 1,
        lines.len() == chunks.len(),
        texts[0].len() == 0,
        forall|i: int| 0 <= i < chunks.len() ==> accumulates(texts[i], #[trigger] chunks[i], lines[i], texts[i + 1]),
        forall|i: int| 0 <= i < chunks.len() - 1 ==> #[trigger] lines[i] is None,
    ensures
        lacks(joined(chunks), CR) ==> lines.last() is None,
        forall|p: int| #[trigger] line_ends_at(joined(chunks), p) ==> lines.last() == Some(joined(chunks).subrange(0, p)),
    decreases chunks.len(),
{
    let m = chunks.len() as int;
    lemma_texts_before_line(chunks, texts, lines, m - 1);
    let acc = texts[m - 1] + chunks[m - 1];
    assert(acc =~= joined(chunks));
    assert(accumulates(texts[m - 1], chunks[m - 1], lines[m - 1], texts[m]));
    assert forall|p: int| #[trigger] line_ends_at(joined(chunks), p) implies lines.last() == Some(joined(chunks).subrange(0, p)) by {
        assert(!lacks(acc, CR));
        let q = choose|q: int|
            0 <= q < acc.len() && acc[q] == CR && lacks(#[trigger] acc.subrange(0, q), CR)
                && lines[m - 1] == Some(acc.subrange(0, q)) && texts[m].len() == 0;
        assert(line_ends_at(acc, q));
        lemma_first_cr_unique(acc, p, q);
    }
}

proof fn lemma_texts_before_line(
    chunks: Seq<Seq<u8>>,
    texts: Seq<Seq<u8>>,
    lines: Seq<Option<Seq<u8>>>,
    k: int,
)
    requires
        0 <= k < chunks.len(),
        texts.len() == chunks.len() + 1,
        lines.len() == chunks.len(),
        texts[0].len() == 0,
        forall|i: int| 0 <= i < chunks.len() ==> accumulates(texts[i], #[trigger] chunks[i], lines[i], texts[i + 1]),
        forall|i: int| 0 <= i < chunks.len() - 1 ==> #[trigger] lines[i] is None,
    ensures
        texts[k] == joined(chunks.subrange(0, k)),
    decreases k,
{
    if k == 0 {
        assert(texts[0] =~= joined(chunks.subrange(0, 0)));
    } else {
        lemma_texts_before_line(chunks, texts, lines, k - 1);
        assert(accumulates(texts[k - 1], chunks[k - 1], lines[k - 1], texts[k]));
        assert(lines[k - 1] is None);
        assert(chunks.subrange(0, k).drop_last() =~= chunks.subrange(0, k - 1));
        assert(chunks.subrange(0, k).last() == chunks[k - 1]);
    }
}

} // verus!
