use vclock_peers::codec::{decode, encode, CodecError, PeerMessage};

fn msg(sender: &str, clock: Vec<u64>) -> PeerMessage {
    PeerMessage { sender: sender.as_bytes().to_vec(), clock }
}

#[test]
fn encoding_is_the_json_object() {
    let m = msg("server1", vec![1, 0, 0]);
    let bytes = encode(&m);
    assert_eq!(
        String::from_utf8(bytes).unwrap(),
        "{\"sender_id\":\"server1\",\"clock\":[1,0,0]}"
    );
    let m = msg("a b", vec![]);
    assert_eq!(String::from_utf8(encode(&m)).unwrap(), "{\"sender_id\":\"a b\",\"clock\":[]}");
    let m = msg("x", vec![18446744073709551615, 10, 907]);
    assert_eq!(
        String::from_utf8(encode(&m)).unwrap(),
        "{\"sender_id\":\"x\",\"clock\":[18446744073709551615,10,907]}"
    );
}

#[test]
fn round_trip_gives_the_message_back() {
    let cases = vec![
        msg("server2", vec![4, 5, 0]),
        msg("", vec![0, 0, 0]),
        msg("p", vec![]),
        msg("long name with spaces/and:symbols", vec![u64::MAX, 1, 22, 333]),
    ];
    for m in cases.iter() {
        let back = decode(&encode(m), m.clock.len()).unwrap();
        assert_eq!(back.sender, m.sender);
        assert_eq!(back.clock, m.clock);
    }
}

#[test]
fn wrong_number_of_entries_is_a_clock_error() {
    let two = encode(&msg("server2", vec![3, 4]));
    assert!(matches!(decode(&two, 3), Err(CodecError::MalformedClock)));
    let four = encode(&msg("server2", vec![3, 4, 5, 6]));
    assert!(matches!(decode(&four, 3), Err(CodecError::MalformedClock)));
    let none = encode(&msg("server2", vec![]));
    assert!(matches!(decode(&none, 3), Err(CodecError::MalformedClock)));
}

#[test]
fn unknown_sender_decodes() {
    let payload = b"{\"sender_id\":\"server9\",\"clock\":[2,0,7]}";
    let m = decode(payload, 3).unwrap();
    assert_eq!(m.sender, b"server9".to_vec());
    assert_eq!(m.clock, vec![2, 0, 7]);
}

#[test]
fn malformed_payloads_are_message_errors() {
    let bad: Vec<&[u8]> = vec![
        b"",
        b"{",
        b"{\"sender_id\":\"s\",\"clock\":[1,2,3]",
        b"{\"sender_id\":\"s\",\"clock\":[1,2,3]}\0\0",
        b"{\"sender_id\":\"s\",\"clock\":[1,,3]}",
        b"{\"sender_id\":\"s\",\"clock\":[1,2,]}",
        b"{\"sender_id\":\"s\",\"clock\":[1,-2,3]}",
        b"{\"sender_id\":\"s\",\"clock\":[1,2,18446744073709551616]}",
        b"{\"sender_id\":\"s\\x\",\"clock\":[1,2,3]}",
        b"{\"sender_id\":\"s\\u0041\",\"clock\":[1,2,3]}",
        b"{\"sender_id\":\"s\\u001\",\"clock\":[1,2,3]}",
        b"{\"sender_id\":\"s\n\",\"clock\":[1,2,3]}",
        b"{\"sender_id\":\"s\\\",\"clock\":[1,2,3]}",
        b"{\"sender\":\"s\",\"clock\":[1,2,3]}",
        b"{\"sender_id\":\"s\",\"clock\":(1,2,3)}",
    ];
    for b in bad.iter() {
        assert!(matches!(decode(b, 3), Err(CodecError::MalformedMessage)), "{:?}", b);
    }
}

#[test]
fn largest_entry_decodes() {
    let payload = b"{\"sender_id\":\"s\",\"clock\":[18446744073709551615,0,1]}";
    let m = decode(payload, 3).unwrap();
    assert_eq!(m.clock, vec![u64::MAX, 0, 1]);
}

#[test]
fn encoding_reads_as_json() {
    let m = msg("server3", vec![4, 5, 6]);
    let v: serde_json::Value = serde_json::from_slice(&encode(&m)).unwrap();
    assert_eq!(v.get("sender_id").and_then(|s| s.as_str()), Some("server3"));
    let clock: Vec<u64> = v
        .get("clock")
        .and_then(|c| c.as_array())
        .unwrap()
        .iter()
        .map(|x| x.as_u64().unwrap())
        .collect();
    assert_eq!(clock, vec![4, 5, 6]);
}

#[test]
fn numbers_with_leading_zeros_are_refused() {
    let bad: &[u8] = b"{\"sender_id\":\"s\",\"clock\":[01,2,3]}";
    assert!(matches!(decode(bad, 3), Err(CodecError::MalformedMessage)));
    let bad: &[u8] = b"{\"sender_id\":\"s\",\"clock\":[1,2,00]}";
    assert!(matches!(decode(bad, 3), Err(CodecError::MalformedMessage)));
    let good: &[u8] = b"{\"sender_id\":\"s\",\"clock\":[0,20,3]}";
    assert_eq!(decode(good, 3).unwrap().clock, vec![0, 20, 3]);
}

#[test]
fn senders_with_quotes_backslashes_and_control_bytes_are_escaped() {
    let m = PeerMessage { sender: b"a\"b\\c\nd\x1f".to_vec(), clock: vec![1, 2, 3] };
    let bytes = encode(&m);
    assert_eq!(
        String::from_utf8(bytes.clone()).unwrap(),
        "{\"sender_id\":\"a\\\"b\\\\c\\u000ad\\u001f\",\"clock\":[1,2,3]}"
    );
    let back = decode(&bytes, 3).unwrap();
    assert_eq!(back.sender, m.sender);
    assert_eq!(back.clock, m.clock);
    let v: serde_json::Value = serde_json::from_slice(&bytes).unwrap();
    assert_eq!(v.get("sender_id").and_then(|s| s.as_str()), Some("a\"b\\c\nd\u{1f}"));
}

#[test]
fn round_trip_for_every_single_byte_sender() {
    for x in 0..=255u8 {
        let m = PeerMessage { sender: vec![x, b'q', x], clock: vec![x as u64, 0] };
        let back = decode(&encode(&m), 2).unwrap();
        assert_eq!(back.sender, m.sender);
        assert_eq!(back.clock, m.clock);
    }
}

#[test]
fn escaped_sender_from_a_peer_decodes() {
    let payload: &[u8] = b"{\"sender_id\":\"q\\\"\\\\\\u0000\",\"clock\":[0,1,2]}";
    let m = decode(payload, 3).unwrap();
    assert_eq!(m.sender, vec![b'q', b'"', b'\\', 0]);
}
