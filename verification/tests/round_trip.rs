#![allow(deprecated)]

use plaintalkio::{DecodeError, Message, PlainTalkCodec};
use tokio_core::io::EasyBuf;

fn encode(fields: &[Vec<u8>]) -> Vec<u8> {
    let mut out = Vec::new();
    PlainTalkCodec.encode(Message { fields: fields.to_vec() }, &mut out);
    out
}

fn decode(bytes: &[u8]) -> (Result<Option<Message>, DecodeError>, Vec<u8>) {
    let mut buf = EasyBuf::from(bytes.to_vec());
    let result = PlainTalkCodec.decode(&mut buf);
    (result, buf.as_slice().to_vec())
}

fn assert_round_trip(fields: Vec<Vec<u8>>) {
    let wire = encode(&fields);
    let (result, left) = decode(&wire);
    assert_eq!(result, Ok(Some(Message { fields })));
    assert!(left.is_empty());
}

#[test]
fn round_trip_of_plain_fields() {
    assert_round_trip(vec![b"42".to_vec(), b"list".to_vec()]);
}

#[test]
fn round_trip_of_empty_fields() {
    assert_round_trip(vec![vec![]]);
    assert_round_trip(vec![vec![], vec![]]);
    assert_round_trip(vec![vec![], b"x".to_vec(), vec![], vec![]]);
}

#[test]
fn round_trip_of_every_reserved_byte() {
    assert_round_trip(vec![b" ".to_vec(), b"\n".to_vec(), b"\r".to_vec(), b"{".to_vec()]);
    assert_round_trip(vec![b" \n\r{".to_vec()]);
    assert_round_trip(vec![b"\r\n".to_vec(), b"{1}".to_vec(), b"{}{".to_vec()]);
}

#[test]
fn round_trip_of_a_single_opening_brace() {
    let wire = encode(&[b"{".to_vec()]);
    assert_eq!(wire, b"{1}{\n".to_vec());
    let (result, left) = decode(&wire);
    assert_eq!(result, Ok(Some(Message { fields: vec![b"{".to_vec()] })));
    assert!(left.is_empty());
}

#[test]
fn round_trip_of_every_byte_value() {
    let all: Vec<u8> = (0u8..=255).collect();
    assert_round_trip(vec![all.clone()]);
    let singles: Vec<Vec<u8>> = (0u8..=255).map(|byte| vec![byte]).collect();
    assert_round_trip(singles);
    let mut reversed = all.clone();
    reversed.reverse();
    assert_round_trip(vec![all, vec![], reversed]);
}

#[test]
fn round_trip_of_fields_that_look_like_escapes() {
    assert_round_trip(vec![b"{3}abc".to_vec(), b"}".to_vec(), b"{999999999999999999999999}".to_vec()]);
}

#[test]
fn round_trip_of_long_fields() {
    assert_round_trip(vec![vec![b' '; 100_000], vec![b'a'; 100_000], vec![b'\n'; 9], vec![b'{'; 10]]);
}

#[test]
fn message_without_fields_comes_back_as_one_empty_field() {
    let wire = encode(&[]);
    assert_eq!(wire, b"\n".to_vec());
    let (result, _) = decode(&wire);
    assert_eq!(result, Ok(Some(Message { fields: vec![vec![]] })));
}

#[test]
fn round_trip_ignores_what_follows_the_message() {
    let fields = vec![b"a b".to_vec(), b"c".to_vec()];
    let mut wire = encode(&fields);
    let own = wire.len();
    wire.extend_from_slice(b"\r\r{x} anything");
    let (result, left) = decode(&wire);
    assert_eq!(result, Ok(Some(Message { fields })));
    assert_eq!(left, wire[own..].to_vec());
}

#[test]
fn byte_by_byte_feeding_equals_feeding_at_once() {
    let fields = vec![
        b"7".to_vec(),
        b"define".to_vec(),
        b"a term".to_vec(),
        b"line one\r\nline {two}\n".to_vec(),
        vec![],
        (0u8..=255).collect(),
    ];
    let wire = encode(&fields);
    let mut buf = EasyBuf::new();
    let mut codec = PlainTalkCodec;
    for (index, byte) in wire.iter().enumerate() {
        buf.get_mut().push(*byte);
        let result = codec.decode(&mut buf);
        if index + 1 < wire.len() {
            assert_eq!(result, Ok(None));
            assert_eq!(buf.len(), index + 1);
        } else {
            assert_eq!(result, Ok(Some(Message { fields: fields.clone() })));
            assert_eq!(buf.len(), 0);
        }
    }
    assert_eq!(decode(&wire).0, Ok(Some(Message { fields })));
}

#[test]
fn every_proper_prefix_of_an_encoding_asks_for_more() {
    let wire = encode(&[b"x y".to_vec(), vec![], b"{".to_vec(), b"plain".to_vec()]);
    for cut in 0..wire.len() {
        let (result, left) = decode(&wire[..cut]);
        assert_eq!(result, Ok(None));
        assert_eq!(left, wire[..cut].to_vec());
    }
}

#[test]
fn chunked_feeding_equals_feeding_at_once() {
    let fields = vec![b"id 1".to_vec(), b"payload\nwith\nlines".to_vec(), b"end".to_vec()];
    let wire = encode(&fields);
    for size in 1..=wire.len() {
        let mut buf = EasyBuf::new();
        let mut codec = PlainTalkCodec;
        let mut decoded = None;
        for chunk in wire.chunks(size) {
            assert!(decoded.is_none());
            buf.get_mut().extend_from_slice(chunk);
            decoded = codec.decode(&mut buf).unwrap();
        }
        assert_eq!(decoded, Some(Message { fields: fields.clone() }));
        assert_eq!(buf.len(), 0);
    }
}

#[test]
fn a_rejected_buffer_stays_rejected_when_bytes_follow() {
    let bad: [&[u8]; 3] = [b"a\rb", b"{1x", b"{99999999999999999999999999999999"];
    for start in bad {
        let first = decode(start).0;
        assert!(first.is_err());
        let mut longer = start.to_vec();
        longer.extend_from_slice(b"123}\n more\n");
        assert_eq!(decode(&longer).0, first);
    }
}
