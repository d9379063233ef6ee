//! Wire-level tests of the frame codec: exact encodings, round trips,
//! and the classification of incomplete and malformed buffers.

use resp_frames::frame::FrameCheck;
use resp_frames::Frame;

fn roundtrip(frame: Frame) {
    let bytes = frame.encode();
    match Frame::check(&bytes) {
        FrameCheck::Complete(n) => assert_eq!(n, bytes.len()),
        other => panic!("expected a complete frame, got {:?}", other),
    }
    let back = Frame::parse(&bytes);
    assert_eq!(back, frame);
}

#[test]
fn encode_integer_negative() {
    let bytes = Frame::Integer(-42).encode();
    assert_eq!(bytes, b":-42\r\n".to_vec());
}

#[test]
fn encode_null() {
    let bytes = Frame::Null.encode();
    assert_eq!(bytes, b"$-1\r\n".to_vec());
}

#[test]
fn encode_bulk_two_bytes() {
    let bytes = Frame::Bulk(b"OK".to_vec()).encode();
    assert_eq!(bytes, b"$2\r\nOK\r\n".to_vec());
}

#[test]
fn encode_simple() {
    let bytes = Frame::Simple(b"OK".to_vec()).encode();
    assert_eq!(bytes, b"+OK\r\n".to_vec());
}

#[test]
fn encode_error() {
    let bytes = Frame::Error(b"ERR unknown".to_vec()).encode();
    assert_eq!(bytes, b"-ERR unknown\r\n".to_vec());
}

#[test]
fn encode_integer_zero_and_large() {
    assert_eq!(Frame::Integer(0).encode(), b":0\r\n".to_vec());
    assert_eq!(
        Frame::Integer(i64::MAX).encode(),
        b":9223372036854775807\r\n".to_vec()
    );
    assert_eq!(
        Frame::Integer(i64::MIN).encode(),
        b":-9223372036854775808\r\n".to_vec()
    );
}

#[test]
fn round_trip_every_variant() {
    roundtrip(Frame::Simple(b"PONG".to_vec()));
    roundtrip(Frame::Error(b"ERR wrong type".to_vec()));
    roundtrip(Frame::Integer(-42));
    roundtrip(Frame::Integer(i64::MIN));
    roundtrip(Frame::Integer(i64::MAX));
    roundtrip(Frame::Bulk(b"hello world".to_vec()));
    roundtrip(Frame::Bulk(Vec::new()));
    roundtrip(Frame::Null);
}

#[test]
fn bulk_payload_may_hold_tag_bytes() {
    // The payload is length-prefixed: bytes that look like other frames
    // must come through verbatim.
    let payload = b"+foo\r\n:-1\r\n$9".to_vec();
    let frame = Frame::Bulk(payload.clone());
    let bytes = frame.encode();
    let mut expected = b"$13\r\n".to_vec();
    expected.extend_from_slice(&payload);
    expected.extend_from_slice(b"\r\n");
    assert_eq!(bytes, expected);
    roundtrip(frame);
}

#[test]
fn empty_bulk_encodes_with_zero_length() {
    let bytes = Frame::Bulk(Vec::new()).encode();
    assert_eq!(bytes, b"$0\r\n\r\n".to_vec());
}

#[test]
fn check_reports_incomplete_prefixes() {
    assert_eq!(Frame::check(b""), FrameCheck::Incomplete);
    assert_eq!(Frame::check(b":12"), FrameCheck::Incomplete);
    assert_eq!(Frame::check(b"+abc\r"), FrameCheck::Incomplete);
    assert_eq!(Frame::check(b"$3\r\nfo"), FrameCheck::Incomplete);
    assert_eq!(Frame::check(b"$3\r\nfoo\r"), FrameCheck::Incomplete);
    assert_eq!(Frame::check(b"$-1\r"), FrameCheck::Incomplete);
}

#[test]
fn check_reports_protocol_errors() {
    // An unknown tag: the array tag is reserved and not decodable.
    assert_eq!(Frame::check(b"*1\r\n"), FrameCheck::ProtocolError);
    // Non-digit integer text.
    assert_eq!(Frame::check(b":abc\r\n"), FrameCheck::ProtocolError);
    assert_eq!(Frame::check(b":-\r\n"), FrameCheck::ProtocolError);
    assert_eq!(Frame::check(b":\r\n"), FrameCheck::ProtocolError);
    // Out-of-range integers.
    assert_eq!(
        Frame::check(b":9223372036854775808\r\n"),
        FrameCheck::ProtocolError
    );
    assert_eq!(
        Frame::check(b":-9223372036854775809\r\n"),
        FrameCheck::ProtocolError
    );
    assert_eq!(
        Frame::check(b":99999999999999999999999\r\n"),
        FrameCheck::ProtocolError
    );
    // Bad bulk lengths.
    assert_eq!(Frame::check(b"$-2\r\n"), FrameCheck::ProtocolError);
    assert_eq!(Frame::check(b"$2x\r\nab\r\n"), FrameCheck::ProtocolError);
    // A bare LF, or a CR not followed by LF, inside a line.
    assert_eq!(Frame::check(b"+ok\nmore"), FrameCheck::ProtocolError);
    assert_eq!(Frame::check(b"+ok\rx\r\n"), FrameCheck::ProtocolError);
    // A bulk body not closed by CRLF.
    assert_eq!(Frame::check(b"$3\r\nfooXY"), FrameCheck::ProtocolError);
}

#[test]
fn check_counts_only_the_first_frame() {
    let bytes = b"+OK\r\n:1\r\n";
    assert_eq!(Frame::check(bytes), FrameCheck::Complete(5));
    assert_eq!(Frame::parse(bytes), Frame::Simple(b"OK".to_vec()));
}

#[test]
fn parse_null_and_leading_zeros() {
    assert_eq!(Frame::check(b"$-1\r\n"), FrameCheck::Complete(5));
    assert_eq!(Frame::parse(b"$-1\r\n"), Frame::Null);
    assert_eq!(Frame::check(b":007\r\n"), FrameCheck::Complete(6));
    assert_eq!(Frame::parse(b":007\r\n"), Frame::Integer(7));
    assert_eq!(Frame::parse(b":-0\r\n"), Frame::Integer(0));
    assert_eq!(
        Frame::parse(b":-9223372036854775808\r\n"),
        Frame::Integer(i64::MIN)
    );
}

#[test]
fn try_encode_refuses_what_has_no_wire_form() {
    assert_eq!(Frame::Array(Vec::new()).try_encode(), None);
    assert_eq!(Frame::Simple(b"bad\r\nline".to_vec()).try_encode(), None);
    assert_eq!(Frame::Error(b"bad\nline".to_vec()).try_encode(), None);
    assert_eq!(
        Frame::Simple(b"fine".to_vec()).try_encode(),
        Some(b"+fine\r\n".to_vec())
    );
    assert_eq!(Frame::Null.try_encode(), Some(b"$-1\r\n".to_vec()));
}
