//! Per-socket framing state: a growable read buffer of bytes already
//! pulled from the socket but not yet consumed into a parsed frame.
//!
//! The socket itself stays outside this module. The driving loop feeds
//! bytes it has read into the connection with [`Connection::feed`], asks
//! for a frame with [`Connection::parse_frame`], and, when the peer
//! closes its write side, classifies the close with
//! [`Connection::on_peer_close`]. The buffer is `bytes::BytesMut`, held
//! behind a handful of trusted wrappers that state what the crate's own
//! source shows of each call.

use vstd::prelude::*;

use crate::frame::{decode_spec, Decoded, Frame, FrameCheck};

verus! {

#[verifier::external_type_specification]
#[verifier::external_body]
pub struct ExBytesMut(bytes::BytesMut);

/// The bytes a `bytes::BytesMut` currently holds, front to back.
pub uninterp spec fn bytes_view(b: bytes::BytesMut) -> Seq<u8>;

/// Relies on bytes::BytesMut::with_capacity: the returned buffer holds
/// no bytes, whatever its capacity.
#[verifier::external_body]
fn buf_with_capacity(cap: usize) -> (r: bytes::BytesMut)
    ensures
        bytes_view(r) == Seq::<u8>::empty(),
{
    bytes::BytesMut::with_capacity(cap)
}

/// Relies on bytes::BytesMut's Deref to [u8]: a slice of exactly the
/// buffered bytes.
#[verifier::external_body]
fn buf_slice(b: &bytes::BytesMut) -> (r: &[u8])
    ensures
        r@ == bytes_view(*b),
{
    &b[..]
}

/// Relies on bytes::Buf::advance for bytes::BytesMut: discards exactly
/// the first `n` buffered bytes. It panics when `n` exceeds the buffered
/// length, so that case is excluded.
#[verifier::external_body]
fn buf_advance(b: &mut bytes::BytesMut, n: usize)
    requires
        n <= bytes_view(*old(b)).len(),
    ensures
        bytes_view(*final(b)) == bytes_view(*old(b)).skip(n as int),
{
    bytes::Buf::advance(b, n);
}

/// Relies on bytes::BytesMut::extend_from_slice: appends the given bytes
/// at the back, growing the buffer as needed.
#[verifier::external_body]
fn buf_extend(b: &mut bytes::BytesMut, data: &[u8])
    ensures
        bytes_view(*final(b)) == bytes_view(*old(b)) + data@,
{
    b.extend_from_slice(data);
}

/// A fatal connection error: either the buffered bytes are not a valid
/// frame, or the peer closed its side in the middle of a frame.
#[derive(Clone, Copy, PartialEq, Eq, Debug)]
pub enum FrameError {
    Protocol,
    PeerReset,
}

/// The framing state of one connection: every byte read from the socket
/// and not yet consumed into a parsed frame, in arrival order.
pub struct Connection {
    buffer: bytes::BytesMut,
}

impl View for Connection {
    type V = Seq<u8>;

    closed spec fn view(&self) -> Seq<u8> {
        bytes_view(self.buffer)
    }
}

impl Connection {
    /// A connection with nothing buffered yet, ready to take the bytes
    /// of one accepted stream.
    pub fn new() -> (c: Connection)
        ensures
            c@ == Seq::<u8>::empty(),
    {
        Connection { buffer: buf_with_capacity(4096) }
    }

    /// Appends bytes just read from the socket to the back of the read
    /// buffer. Nothing already buffered is touched.
    pub fn feed(&mut self, data: &[u8])
        ensures
            final(self)@ == old(self)@ + data@,
    {
        buf_extend(&mut self.buffer, data);
    }

    /// Attempts to decode one frame from the front of the read buffer.
    ///
    /// Returns the frame and removes exactly its encoded bytes from the
    /// front, leaving the rest untouched; or returns `Ok(None)` when the
    /// buffered bytes are a (possibly empty) prefix of an unfinished
    /// frame, asking the caller to read more from the socket; or fails
    /// with a protocol error when the bytes cannot begin a valid frame.
    /// In the latter two cases the buffer is left exactly as it was.
    pub fn parse_frame(&mut self) -> (r: Result<Option<Frame>, FrameError>)
        ensures
            ({
                let pre = old(self)@;
                match r {
                    Ok(Some(f)) => decode_spec(pre) matches Decoded::Found(fv, n) && f@ == fv
                        && final(self)@ == pre.skip(n),
                    Ok(None) => decode_spec(pre) is NeedMore && final(self)@ == pre,
                    Err(e) => e == FrameError::Protocol && decode_spec(pre) is Malformed
                        && final(self)@ == pre,
                }
            }),
    {
        let slice = buf_slice(&self.buffer);
        match Frame::check(slice) {
            FrameCheck::Complete(n) => {
                let frame = Frame::parse(slice);
                buf_advance(&mut self.buffer, n);
                Ok(Some(frame))
            }
            FrameCheck::Incomplete => Ok(None),
            FrameCheck::ProtocolError => Err(FrameError::Protocol),
        }
    }

    /// Classifies a peer close (a zero-byte socket read): a clean end of
    /// stream when nothing is buffered, and a fatal reset when the peer
    /// stopped in the middle of a frame.
    pub fn on_peer_close(&self) -> (r: Result<Option<Frame>, FrameError>)
        ensures
            ({
                match r {
                    Ok(o) => o is None && self@.len() == 0,
                    Err(e) => e == FrameError::PeerReset && self@.len() > 0,
                }
            }),
    {
        let slice = buf_slice(&self.buffer);
        if slice.len() == 0 {
            Ok(None)
        } else {
            Err(FrameError::PeerReset)
        }
    }
}

} // verus!
