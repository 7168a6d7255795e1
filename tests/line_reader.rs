use telnet_door::decoder::ProtocolEvent;
use telnet_door::line_reader::{LineError, LineReader};

#[test]
fn empty_read_is_connection_closed() {
    let mut r = LineReader::new();
    assert!(matches!(r.receive_chunk(b""), Err(LineError::ConnectionClosed)));
}

#[test]
fn line_ends_at_carriage_return_and_rest_is_dropped() {
    let mut r = LineReader::new();
    let step = r.receive_chunk(b"12\rxyz").ok().unwrap();
    assert_eq!(step.output, b"12\rxyz".to_vec());
    assert_eq!(step.line, Some(b"12".to_vec()));
}

#[test]
fn line_accumulates_over_chunks() {
    let mut r = LineReader::new();
    let s1 = r.receive_chunk(b"4").ok().unwrap();
    assert_eq!(s1.output, b"4".to_vec());
    assert_eq!(s1.line, None);
    let s2 = r.receive_chunk(b"2").ok().unwrap();
    assert_eq!(s2.line, None);
    let s3 = r.receive_chunk(b"\r\n").ok().unwrap();
    assert_eq!(s3.output, b"\r\n".to_vec());
    assert_eq!(s3.line, Some(b"42".to_vec()));
}

#[test]
fn control_bytes_are_not_echoed_but_replies_are_sent() {
    let mut r = LineReader::new();
    let step = r.receive_chunk(&[255, 251, 1, b'7', b'\r']).ok().unwrap();
    assert_eq!(step.output, vec![255, 254, 1, b'7', b'\r']);
    assert_eq!(step.line, Some(b"7".to_vec()));
}

#[test]
fn backspace_is_kept_as_content() {
    let mut r = LineReader::new();
    let step = r.receive_chunk(&[b'1', 8, b'2', b'\r']).ok().unwrap();
    assert_eq!(step.line, Some(vec![b'1', 8, b'2']));
}

#[test]
fn apply_events_echoes_data_and_sends_replies() {
    let mut r = LineReader::new();
    let events = vec![
        ProtocolEvent::Negotiation(vec![255, 251, 3]),
        ProtocolEvent::DataReceive(b"ab".to_vec()),
        ProtocolEvent::DataSend(vec![255, 253, 3]),
        ProtocolEvent::Subnegotiation(vec![255, 250, 24, 255, 240]),
        ProtocolEvent::DataReceive(b"c\rd".to_vec()),
    ];
    let step = r.apply_events(&events);
    assert_eq!(step.output, vec![b'a', b'b', 255, 253, 3, b'c', b'\r', b'd']);
    assert_eq!(step.line, Some(b"abc".to_vec()));
}

#[test]
fn negotiation_split_across_reads_is_resumed() {
    let mut r = LineReader::new();
    let s1 = r.receive_chunk(&[b'1', 255, 251]).ok().unwrap();
    assert_eq!(s1.output, b"1".to_vec());
    assert_eq!(s1.line, None);
    let s2 = r.receive_chunk(&[1, b'\r']).ok().unwrap();
    assert_eq!(s2.output, vec![255, 254, 1, b'\r']);
    assert_eq!(s2.line, Some(b"1".to_vec()));
}

#[test]
fn negotiation_in_one_read_gives_the_same_line() {
    let mut r = LineReader::new();
    let s = r.receive_chunk(&[b'1', 255, 251, 1, b'\r']).ok().unwrap();
    assert_eq!(s.output, vec![b'1', 255, 254, 1, b'\r']);
    assert_eq!(s.line, Some(b"1".to_vec()));
}

#[test]
fn every_cut_of_a_negotiation_gives_the_same_line_and_output() {
    let stream = [b'4', b'2', 255, 253, 24, b'x', b'\r'];
    let mut whole = LineReader::new();
    let w = whole.receive_chunk(&stream).ok().unwrap();
    for cut in 1..stream.len() {
        let mut r = LineReader::new();
        let a = r.receive_chunk(&stream[..cut]).ok().unwrap();
        assert_eq!(a.line, None);
        let b = r.receive_chunk(&stream[cut..]).ok().unwrap();
        let mut out = a.output.clone();
        out.extend(b.output);
        assert_eq!(out, w.output);
        assert_eq!(b.line, w.line);
    }
    assert_eq!(w.line, Some(b"42x".to_vec()));
}

#[test]
fn reader_is_empty_after_a_line() {
    let mut r = LineReader::new();
    assert_eq!(r.receive_chunk(b"5\r").ok().unwrap().line, Some(b"5".to_vec()));
    assert_eq!(r.receive_chunk(b"6\r").ok().unwrap().line, Some(b"6".to_vec()));
}
