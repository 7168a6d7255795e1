use telnet_door::decoder::{Decoder, ProtocolEvent};

fn received(events: &[ProtocolEvent]) -> Vec<u8> {
    let mut out = Vec::new();
    for e in events {
        if let ProtocolEvent::DataReceive(b) = e {
            out.extend_from_slice(b);
        }
    }
    out
}

#[test]
fn plain_chunk_is_one_data_event() {
    let mut d = Decoder::new();
    let evs = d.feed(b"hello");
    assert_eq!(evs.len(), 1);
    assert!(matches!(&evs[0], ProtocolEvent::DataReceive(b) if b.as_slice() == b"hello"));
}

#[test]
fn empty_chunk_gives_no_events() {
    let mut d = Decoder::new();
    assert!(d.feed(b"").is_empty());
}

#[test]
fn plain_data_is_chunking_invariant() {
    let stream = b"select 12\r and more";
    let mut whole = Decoder::new();
    let all = received(&whole.feed(stream));
    for cut in 0..stream.len() {
        let mut d = Decoder::new();
        let mut got = received(&d.feed(&stream[..cut]));
        got.extend(received(&d.feed(&stream[cut..])));
        assert_eq!(got, all);
    }
    let mut d = Decoder::new();
    let mut got = Vec::new();
    for b in stream.iter() {
        got.extend(received(&d.feed(&[*b])));
    }
    assert_eq!(got, stream.to_vec());
}

#[test]
fn will_request_is_refused_with_dont() {
    let mut d = Decoder::new();
    let evs = d.feed(&[255, 251, 1]);
    assert_eq!(evs.len(), 1);
    assert!(matches!(&evs[0], ProtocolEvent::DataSend(b) if b.as_slice() == [255u8, 254, 1]));
}

#[test]
fn do_request_is_refused_with_wont() {
    let mut d = Decoder::new();
    let evs = d.feed(&[b'a', 255, 253, 24, b'b']);
    assert_eq!(received(&evs), b"ab".to_vec());
    assert!(evs.iter().any(|e| matches!(e, ProtocolEvent::DataSend(b) if b.as_slice() == [255u8, 252, 24])));
}

#[test]
fn split_subnegotiation_resumes() {
    let whole_seq = [255u8, 250, 24, 1, 255, 240];
    let mut whole = Decoder::new();
    let mut whole_events = whole.feed(&whole_seq);
    whole_events.extend(whole.feed(b"x"));
    let mut split = Decoder::new();
    let mut split_events = split.feed(&whole_seq[..3]);
    split_events.extend(split.feed(&whole_seq[3..]));
    split_events.extend(split.feed(b"x"));
    assert_eq!(whole_events.len(), split_events.len());
    assert_eq!(received(&whole_events), b"x".to_vec());
    assert_eq!(received(&split_events), b"x".to_vec());
}

#[test]
fn nop_command_is_raw_control() {
    let mut d = Decoder::new();
    let evs = d.feed(&[255, 241]);
    assert_eq!(evs.len(), 1);
    assert!(matches!(&evs[0], ProtocolEvent::RawControl(b) if b.as_slice() == [255u8, 241]));
}

#[test]
fn overlong_subnegotiation_is_dropped_at_the_cap() {
    let mut d = Decoder::new();
    assert!(d.feed(&[255, 250, 24]).is_empty());
    assert!(d.feed(&vec![b'a'; 5000]).is_empty());
    let evs = d.feed(b"x");
    assert_eq!(received(&evs), b"x".to_vec());
}

#[test]
fn subnegotiation_under_the_cap_is_still_held() {
    let mut d = Decoder::new();
    assert!(d.feed(&[255, 250, 24]).is_empty());
    assert!(d.feed(&vec![b'a'; 1000]).is_empty());
    assert!(d.feed(&[255, 240]).is_empty());
    assert_eq!(received(&d.feed(b"y")), b"y".to_vec());
}

#[test]
fn split_negotiation_gives_the_same_events() {
    let whole_seq = [255u8, 253, 3];
    let mut whole = Decoder::new();
    let w = whole.feed(&whole_seq);
    assert_eq!(w.len(), 1);
    assert!(matches!(&w[0], ProtocolEvent::DataSend(b) if b.as_slice() == [255u8, 252, 3]));
    for cut in 1..3 {
        let mut d = Decoder::new();
        let first = d.feed(&whole_seq[..cut]);
        assert!(first.is_empty());
        let second = d.feed(&whole_seq[cut..]);
        assert_eq!(second.len(), 1);
        assert!(matches!(&second[0], ProtocolEvent::DataSend(b) if b.as_slice() == [255u8, 252, 3]));
    }
}

#[test]
fn escaped_iac_pair_is_not_held() {
    let mut d = Decoder::new();
    let evs = d.feed(&[b'a', 255, 255]);
    assert_eq!(received(&evs), b"a".to_vec());
    assert_eq!(received(&d.feed(b"b")), b"b".to_vec());
}
