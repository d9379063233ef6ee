//! Tests of the connection's read buffering: partial delivery, exact
//! consumption, and the classification of a peer close.

use resp_frames::Connection;
use resp_frames::Frame;
use resp_frames::FrameError;

#[test]
fn frame_split_across_two_reads() {
    // The bulk frame `$3\r\nfoo\r\n` arrives split after its length line:
    // the first attempt asks for more, the second returns the full frame.
    let mut conn = Connection::new();
    conn.feed(b"$3\r\n");
    assert_eq!(conn.parse_frame(), Ok(None));
    conn.feed(b"foo\r\n");
    assert_eq!(conn.parse_frame(), Ok(Some(Frame::Bulk(b"foo".to_vec()))));
    assert_eq!(conn.parse_frame(), Ok(None));
}

#[test]
fn frame_split_at_an_arbitrary_point() {
    let mut conn = Connection::new();
    conn.feed(b"$3\r\nf");
    assert_eq!(conn.parse_frame(), Ok(None));
    conn.feed(b"oo\r");
    assert_eq!(conn.parse_frame(), Ok(None));
    conn.feed(b"\n");
    assert_eq!(conn.parse_frame(), Ok(Some(Frame::Bulk(b"foo".to_vec()))));
}

#[test]
fn parse_consumes_exactly_one_frame() {
    // Two frames buffered at once: each call removes exactly one frame's
    // bytes from the front and preserves the rest verbatim.
    let mut conn = Connection::new();
    conn.feed(b"+a\r\n:1\r\n");
    assert_eq!(conn.parse_frame(), Ok(Some(Frame::Simple(b"a".to_vec()))));
    assert_eq!(conn.parse_frame(), Ok(Some(Frame::Integer(1))));
    assert_eq!(conn.parse_frame(), Ok(None));
}

#[test]
fn clean_close_on_empty_buffer() {
    let conn = Connection::new();
    assert_eq!(conn.on_peer_close(), Ok(None));
}

#[test]
fn clean_close_after_all_frames_consumed() {
    let mut conn = Connection::new();
    conn.feed(b"+OK\r\n");
    assert_eq!(conn.parse_frame(), Ok(Some(Frame::Simple(b"OK".to_vec()))));
    assert_eq!(conn.on_peer_close(), Ok(None));
}

#[test]
fn dirty_close_with_partial_bulk_buffered() {
    // The peer stops after `$3\r\nfo`: a partial bulk body is a fatal
    // reset, not a clean end of stream.
    let mut conn = Connection::new();
    conn.feed(b"$3\r\nfo");
    assert_eq!(conn.parse_frame(), Ok(None));
    assert_eq!(conn.on_peer_close(), Err(FrameError::PeerReset));
}

#[test]
fn malformed_bytes_are_a_protocol_error() {
    let mut conn = Connection::new();
    conn.feed(b"*1\r\n");
    assert_eq!(conn.parse_frame(), Err(FrameError::Protocol));
    // The buffer is left as it was: the error repeats.
    assert_eq!(conn.parse_frame(), Err(FrameError::Protocol));
}

#[test]
fn large_frame_fed_in_small_pieces() {
    let payload: Vec<u8> = (0u8..=255).collect();
    let encoded = Frame::Bulk(payload.clone()).encode();
    let mut conn = Connection::new();
    for piece in encoded.chunks(7) {
        assert_eq!(conn.parse_frame(), Ok(None));
        conn.feed(piece);
    }
    assert_eq!(conn.parse_frame(), Ok(Some(Frame::Bulk(payload))));
    assert_eq!(conn.on_peer_close(), Ok(None));
}
