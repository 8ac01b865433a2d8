use plaintalkio::encoder::field_needs_escape;
use plaintalkio::{is_safe_byte, Message, PlainTalkCodec, PlainTalkProto};

fn encode(parts: &[&[u8]]) -> Vec<u8> {
    let message = Message { fields: parts.iter().map(|part| part.to_vec()).collect() };
    let mut out = Vec::new();
    PlainTalkCodec.encode(message, &mut out);
    out
}

#[test]
fn safe_fields_go_out_verbatim() {
    assert_eq!(encode(&[b"1", b"define", b"word"]), b"1 define word\n".to_vec());
}

#[test]
fn one_empty_field_is_a_bare_line_feed() {
    assert_eq!(encode(&[b""]), b"\n".to_vec());
}

#[test]
fn no_fields_is_a_bare_line_feed() {
    assert_eq!(encode(&[]), b"\n".to_vec());
}

#[test]
fn empty_fields_leave_only_their_separators() {
    assert_eq!(encode(&[b"", b"", b"x", b""]), b"  x \n".to_vec());
}

#[test]
fn field_with_a_space_is_escaped_as_a_whole() {
    assert_eq!(encode(&[b"id", b"hello world"]), b"id {11}hello world\n".to_vec());
}

#[test]
fn each_reserved_byte_forces_an_escape() {
    assert_eq!(encode(&[b" "]), b"{1} \n".to_vec());
    assert_eq!(encode(&[b"\n"]), b"{1}\n\n".to_vec());
    assert_eq!(encode(&[b"\r"]), b"{1}\r\n".to_vec());
    assert_eq!(encode(&[b"{"]), b"{1}{\n".to_vec());
}

#[test]
fn closing_brace_and_digits_are_not_reserved() {
    assert_eq!(encode(&[b"}", b"12}", b"0"]), b"} 12} 0\n".to_vec());
}

#[test]
fn one_reserved_byte_escapes_the_entire_field() {
    assert_eq!(encode(&[b"abc def"]), b"{7}abc def\n".to_vec());
    assert_eq!(encode(&[b"abcdefghi{"]), b"{10}abcdefghi{\n".to_vec());
}

#[test]
fn escape_length_is_written_in_decimal_without_padding() {
    let field = vec![b' '; 1234];
    let mut expected = b"{1234}".to_vec();
    expected.extend_from_slice(&field);
    expected.push(b'\n');
    assert_eq!(encode(&[&field]), expected);

    let field = vec![b'\n'; 100];
    let mut expected = b"{100}".to_vec();
    expected.extend_from_slice(&field);
    expected.push(b'\n');
    assert_eq!(encode(&[&field]), expected);

    let field = vec![b'{'; 9];
    let mut expected = b"{9}".to_vec();
    expected.extend_from_slice(&field);
    expected.push(b'\n');
    assert_eq!(encode(&[&field]), expected);
}

#[test]
fn encoder_never_writes_a_carriage_return_of_its_own() {
    let out = encode(&[b"a", b"b"]);
    assert!(!out.contains(&b'\r'));
    assert_eq!(out.last(), Some(&b'\n'));
}

#[test]
fn encode_appends_behind_what_the_buffer_holds() {
    let mut out = b"earlier\n".to_vec();
    let mut codec = PlainTalkCodec;
    codec.encode(Message { fields: vec![b"a".to_vec(), b"b c".to_vec()] }, &mut out);
    codec.encode(Message { fields: vec![b"d".to_vec()] }, &mut out);
    assert_eq!(out, b"earlier\na {3}b c\nd\n".to_vec());
}

#[test]
fn binary_field_is_carried_with_its_exact_length() {
    let field: Vec<u8> = (0u8..=255).collect();
    let out = encode(&[&field]);
    let mut expected = b"{256}".to_vec();
    expected.extend_from_slice(&field);
    expected.push(b'\n');
    assert_eq!(out, expected);
}

#[test]
fn exactly_four_bytes_are_unsafe() {
    for byte in 0u8..=255 {
        let reserved = byte == 0x20 || byte == 0x0A || byte == 0x0D || byte == 0x7B;
        assert_eq!(is_safe_byte(byte), !reserved);
    }
}

#[test]
fn field_needs_escape_looks_at_every_byte() {
    assert!(!field_needs_escape(b""));
    assert!(!field_needs_escape(b"plain}text"));
    assert!(field_needs_escape(b" leading"));
    assert!(field_needs_escape(b"trailing\n"));
    assert!(field_needs_escape(b"mid{dle"));
    assert!(field_needs_escape(b"car\rriage"));
}

#[test]
fn protocol_frames_connections_with_the_plaintalk_codec() {
    let mut codec = PlainTalkProto.codec();
    let mut out = Vec::new();
    codec.encode(Message { fields: vec![b"x y".to_vec()] }, &mut out);
    assert_eq!(out, b"{3}x y\n".to_vec());
}
