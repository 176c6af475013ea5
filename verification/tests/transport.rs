use protohackers::listener::Outgoing;
use protohackers::listener::Routed;
use protohackers::listener::SessionTable;
use protohackers::parse::DecodeError;
use protohackers::parse::chunk_payload;
use protohackers::parse::LcrpMessage;
use protohackers::parse::encode_message;
use protohackers::parse::escape;
use protohackers::parse::parse_message;
use protohackers::parse::unescape;
use protohackers::session::ReadOutcome;
use protohackers::session::Session;

fn data_msg(session_id: i32, pos: i32, data: &[u8]) -> LcrpMessage {
    LcrpMessage::Data { session_id, pos, data: data.to_vec() }
}

#[test]
fn encode_connect() {
    let m = LcrpMessage::Connect { session_id: 7 };
    assert_eq!(encode_message(&m), b"/connect/7/".to_vec());
}

#[test]
fn encode_ack() {
    let m = LcrpMessage::Ack { session_id: 12345, len: 0 };
    assert_eq!(encode_message(&m), b"/ack/12345/0/".to_vec());
}

#[test]
fn encode_data_escapes_payload() {
    let m = data_msg(5, 0, b"a\\b/c");
    assert_eq!(encode_message(&m), b"/data/5/0/a\\\\b\\/c/".to_vec());
}

#[test]
fn parse_connect() {
    assert_eq!(
        parse_message(b"/connect/123/"),
        Ok(LcrpMessage::Connect { session_id: 123 })
    );
}

#[test]
fn parse_close() {
    assert_eq!(parse_message(b"/close/0/"), Ok(LcrpMessage::Close { session_id: 0 }));
}

#[test]
fn parse_data_unescapes_payload() {
    assert_eq!(parse_message(b"/data/5/0/a\\\\b\\/c/"), Ok(data_msg(5, 0, b"a\\b/c")));
}

#[test]
fn parse_empty_datagram_is_end_of_input() {
    assert_eq!(parse_message(b""), Err::<LcrpMessage, _>(DecodeError::Empty));
}

#[test]
fn parse_rejects_malformed() {
    assert_eq!(parse_message(b"/bogus/1/"), Err::<LcrpMessage, _>(DecodeError::Invalid));
    assert_eq!(parse_message(b"/connect/"), Err::<LcrpMessage, _>(DecodeError::Invalid));
    assert_eq!(parse_message(b"connect/1/"), Err::<LcrpMessage, _>(DecodeError::Invalid));
    assert_eq!(parse_message(b"/connect/1"), Err::<LcrpMessage, _>(DecodeError::Invalid));
    assert_eq!(parse_message(b"/connect/1/2/"), Err::<LcrpMessage, _>(DecodeError::Invalid));
    assert_eq!(parse_message(b"/data/1/2/raw/slash//"), Err::<LcrpMessage, _>(DecodeError::Invalid));
}

#[test]
fn parse_rejects_bad_numbers() {
    // a leading zero, a value out of the 31-bit range, a non-digit
    assert_eq!(parse_message(b"/connect/01/"), Err::<LcrpMessage, _>(DecodeError::Invalid));
    assert_eq!(
        parse_message(b"/connect/2147483648/"),
        Err::<LcrpMessage, _>(DecodeError::Invalid)
    );
    assert_eq!(parse_message(b"/connect/1x/"), Err::<LcrpMessage, _>(DecodeError::Invalid));
    assert_eq!(
        parse_message(b"/connect/2147483647/"),
        Ok(LcrpMessage::Connect { session_id: 2147483647 })
    );
}

#[test]
fn codec_round_trips_all_four_kinds() {
    let messages = vec![
        LcrpMessage::Connect { session_id: 1 },
        LcrpMessage::Close { session_id: 2147483647 },
        LcrpMessage::Ack { session_id: 42, len: 31337 },
        data_msg(9, 11, b"line with /slash/ and \\backslash\\ inside\n"),
        data_msg(9, 0, b""),
    ];
    for m in messages {
        let wire = encode_message(&m);
        assert_eq!(parse_message(&wire), Ok(m));
    }
}

#[test]
fn escape_and_unescape_strings() {
    assert_eq!(escape(String::from("a/b\\c")), String::from("a\\/b\\\\c"));
    assert_eq!(unescape(String::from("a\\/b\\\\c")), String::from("a/b\\c"));
    let original = String::from("foo/bar\\baz");
    assert_eq!(unescape(escape(original.clone())), original);
}

#[test]
fn in_order_data_is_buffered_and_acknowledged() {
    let mut s = Session::new(1, 7, 0);
    let ack = s.on_data(0, &b"hello".to_vec());
    assert_eq!(ack, Some(5));
    assert_eq!(s.received_buffer, b"hello".to_vec());
    assert_eq!(s.received_offset, 5);
}

#[test]
fn duplicate_data_changes_nothing() {
    let mut s = Session::new(1, 7, 0);
    s.on_data(0, &b"abcd".to_vec());
    // the same bytes again, and a shorter prefix of them
    let ack = s.on_data(0, &b"abcd".to_vec());
    assert!(ack.is_none());
    let ack2 = s.on_data(0, &b"ab".to_vec());
    assert!(ack2.is_none());
    assert_eq!(s.received_buffer, b"abcd".to_vec());
    assert_eq!(s.received_offset, 4);
}

#[test]
fn gap_is_never_buffered_and_reacknowledges() {
    let mut s = Session::new(1, 7, 0);
    s.on_data(0, &b"ab".to_vec());
    let ack = s.on_data(5, &b"cd".to_vec());
    assert_eq!(ack, Some(2));
    assert_eq!(s.received_buffer, b"ab".to_vec());
    assert_eq!(s.received_offset, 2);
}

#[test]
fn partial_ack_then_tick_resends_exactly_the_suffix() {
    let mut s = Session::new(1, 7, 0);
    let pos = s.write(&b"0123456789".to_vec());
    assert_eq!(pos, 0);
    let violation = s.on_ack(4);
    assert!(!violation);
    let (resend_pos, suffix) = s.tick().expect("unacknowledged bytes are outstanding");
    assert_eq!(resend_pos, 4);
    assert_eq!(suffix, b"456789".to_vec());
}

#[test]
fn full_ack_quiets_the_tick() {
    let mut s = Session::new(1, 7, 0);
    s.write(&b"hello\n".to_vec());
    assert!(!s.on_ack(6));
    assert!(s.tick().is_none());
}

#[test]
fn overlarge_ack_is_a_violation() {
    let mut s = Session::new(1, 7, 0);
    s.write(&b"hi".to_vec());
    assert!(s.on_ack(3));
    assert!(!s.open);
}

#[test]
fn read_line_takes_through_the_last_terminator() {
    let mut s = Session::new(1, 7, 0);
    s.on_data(0, &b"ab\ncd\nef".to_vec());
    match s.read_line() {
        ReadOutcome::Line(line) => assert_eq!(line, b"ab\ncd\n".to_vec()),
        other => panic!("expected a line, got {:?}", other),
    }
    assert_eq!(s.received_buffer, b"ef".to_vec());
    assert!(matches!(s.read_line(), ReadOutcome::WouldBlock));
}

#[test]
fn read_line_reports_end_of_stream_when_closed_and_drained() {
    let mut s = Session::new(1, 7, 0);
    s.close();
    assert!(matches!(s.read_line(), ReadOutcome::EndOfStream));
}

fn single_out(r: &Routed) -> &Outgoing {
    assert_eq!(r.out.len(), 1);
    &r.out[0]
}

#[test]
fn connect_write_ack_close_session_lifecycle() {
    let mut table = SessionTable::new();
    // connect: acknowledged at zero, session accepted
    let r = table.route(42, &LcrpMessage::Connect { session_id: 1 }, 0);
    assert_eq!(single_out(&r).peer, 42);
    assert_eq!(single_out(&r).msg, LcrpMessage::Ack { session_id: 1, len: 0 });
    assert_eq!(r.accepted, Some(1));
    // write a line: it starts at position zero and the tick offers it
    assert_eq!(table.stream_write(1, &b"hello\n".to_vec()), Some(0));
    let (peer, pos, payload) = table.tick_by_id(1).expect("bytes are outstanding");
    assert_eq!((peer, pos, payload), (42, 0, b"hello\n".to_vec()));
    // the peer acknowledges all six bytes: no retransmission is owed
    let r = table.route(42, &LcrpMessage::Ack { session_id: 1, len: 6 }, 1);
    assert!(r.out.is_empty());
    assert!(table.tick_by_id(1).is_none());
    // the peer closes: one close goes back and the stream reads as ended
    let r = table.route(42, &LcrpMessage::Close { session_id: 1 }, 2);
    assert_eq!(single_out(&r).msg, LcrpMessage::Close { session_id: 1 });
    assert!(matches!(table.stream_read(1), ReadOutcome::EndOfStream));
}

#[test]
fn repeated_connect_is_idempotent() {
    let mut table = SessionTable::new();
    table.route(42, &LcrpMessage::Connect { session_id: 1 }, 0);
    let r = table.route(42, &LcrpMessage::Connect { session_id: 1 }, 1);
    assert_eq!(single_out(&r).msg, LcrpMessage::Ack { session_id: 1, len: 0 });
    assert_eq!(r.accepted, None);
    assert_eq!(table.sessions.len(), 1);
}

#[test]
fn gap_then_fill_makes_the_line_readable() {
    let mut table = SessionTable::new();
    table.route(42, &LcrpMessage::Connect { session_id: 1 }, 0);
    // in-order bytes are buffered and acknowledged
    let r = table.route(
        42,
        &LcrpMessage::Data { session_id: 1, pos: 0, data: b"ab".to_vec() },
        1,
    );
    assert_eq!(single_out(&r).msg, LcrpMessage::Ack { session_id: 1, len: 2 });
    // a gap: nothing is buffered, the old offset is acknowledged again
    let r = table.route(
        42,
        &LcrpMessage::Data { session_id: 1, pos: 5, data: b"cd".to_vec() },
        2,
    );
    assert_eq!(single_out(&r).msg, LcrpMessage::Ack { session_id: 1, len: 2 });
    assert_eq!(table.sessions[0].received_buffer, b"ab".to_vec());
    assert!(matches!(table.stream_read(1), ReadOutcome::WouldBlock));
    // the gap is filled from the acknowledged offset
    let r = table.route(
        42,
        &LcrpMessage::Data { session_id: 1, pos: 2, data: b"cd\n".to_vec() },
        3,
    );
    assert_eq!(single_out(&r).msg, LcrpMessage::Ack { session_id: 1, len: 5 });
    match table.stream_read(1) {
        ReadOutcome::Line(line) => assert_eq!(line, b"abcd\n".to_vec()),
        other => panic!("expected a line, got {:?}", other),
    }
}

#[test]
fn stray_message_for_unknown_session_gets_one_close() {
    let mut table = SessionTable::new();
    let r = table.route(
        42,
        &LcrpMessage::Data { session_id: 99, pos: 0, data: b"x".to_vec() },
        0,
    );
    assert_eq!(r.out.len(), 1);
    assert_eq!(r.out[0].peer, 42);
    assert_eq!(r.out[0].msg, LcrpMessage::Close { session_id: 99 });
    assert_eq!(r.accepted, None);
    assert_eq!(table.sessions.len(), 0);
    let r = table.route(7, &LcrpMessage::Ack { session_id: 99, len: 0 }, 0);
    assert_eq!(r.out[0].msg, LcrpMessage::Close { session_id: 99 });
    let r = table.route(7, &LcrpMessage::Close { session_id: 99 }, 0);
    assert_eq!(r.out[0].msg, LcrpMessage::Close { session_id: 99 });
}

#[test]
fn overlarge_ack_closes_the_session() {
    let mut table = SessionTable::new();
    table.route(42, &LcrpMessage::Connect { session_id: 1 }, 0);
    let r = table.route(42, &LcrpMessage::Ack { session_id: 1, len: 100 }, 1);
    assert_eq!(single_out(&r).msg, LcrpMessage::Close { session_id: 1 });
    assert!(matches!(table.stream_read(1), ReadOutcome::EndOfStream));
}

#[test]
fn sweep_expires_only_the_idle() {
    let mut table = SessionTable::new();
    table.route(42, &LcrpMessage::Connect { session_id: 1 }, 0);
    table.route(43, &LcrpMessage::Connect { session_id: 2 }, 90);
    table.sweep(100, 30);
    assert_eq!(table.session_ids(), vec![2]);
}

#[test]
fn writes_accumulate_at_increasing_positions() {
    let mut table = SessionTable::new();
    table.route(42, &LcrpMessage::Connect { session_id: 1 }, 0);
    assert_eq!(table.stream_write(1, &b"abc".to_vec()), Some(0));
    assert_eq!(table.stream_write(1, &b"defg".to_vec()), Some(3));
    let (_, pos, payload) = table.tick_by_id(1).expect("outstanding");
    assert_eq!(pos, 0);
    assert_eq!(payload, b"abcdefg".to_vec());
    assert_eq!(table.stream_write(99, &b"x".to_vec()), None);
}

#[test]
fn in_order_delivery_concatenates_payloads() {
    let mut s = Session::new(1, 7, 0);
    let payloads: Vec<&[u8]> = vec![b"one ", b"two ", b"three\n"];
    let mut expected: Vec<u8> = Vec::new();
    for p in payloads {
        let pos = s.received_offset;
        let ack = s.on_data(pos, &p.to_vec());
        expected.extend_from_slice(p);
        assert_eq!(ack, Some(expected.len() as i32));
    }
    assert_eq!(s.received_buffer, expected);
    assert_eq!(s.received_offset, expected.len() as i32);
}

#[test]
fn payload_chunks_cover_the_payload_in_order() {
    let data = b"abcdefghij".to_vec();
    let chunks = chunk_payload(&data, 4);
    assert_eq!(chunks, vec![b"abcd".to_vec(), b"efgh".to_vec(), b"ij".to_vec()]);
    assert_eq!(chunk_payload(&Vec::new(), 4), Vec::<Vec<u8>>::new());
    assert_eq!(chunk_payload(&b"ab".to_vec(), 2), vec![b"ab".to_vec()]);
}

#[test]
fn parse_rejects_payloads_that_are_not_text() {
    // the unescaped payload must be valid text
    assert_eq!(
        parse_message(b"/data/1/0/\xFF/"),
        Err::<LcrpMessage, _>(DecodeError::Invalid)
    );
    // a multibyte character is fine
    assert_eq!(
        parse_message(b"/data/1/0/\xC3\xA9/"),
        Ok(data_msg(1, 0, b"\xC3\xA9"))
    );
}
