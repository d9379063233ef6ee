//! The wire data model of the protocol and its encode rules.
//!
//! A frame is one complete protocol message. Its first byte is a tag that
//! uniquely determines the variant: `+` simple string, `-` error string,
//! `:` signed integer, `$` bulk byte string (with `$-1` marking null).
//! Text fields end with CRLF; a bulk payload is length-prefixed, so it may
//! hold arbitrary bytes, including bytes that look like frame tags.

use vstd::prelude::*;

verus! {

/// One complete protocol message.
///
/// `Simple` and `Error` carry UTF-8 text by convention; at the wire level
/// they are byte strings that must not contain CR or LF. `Array` is
/// reserved: this engine neither encodes nor decodes it.
#[derive(Debug, PartialEq, Eq)]
pub enum Frame {
    Simple(Vec<u8>),
    Error(Vec<u8>),
    Integer(i64),
    Bulk(Vec<u8>),
    Null,
    Array(Vec<Frame>),
}

/// The mathematical value of a frame, used by all contracts.
pub enum FrameVal {
    Simple(Seq<u8>),
    Error(Seq<u8>),
    Integer(int),
    Bulk(Seq<u8>),
    Null,
    Array(Seq<FrameVal>),
}

pub open spec fn frame_view(f: Frame) -> FrameVal
    decreases f,
{
    match f {
        Frame::Simple(s) => FrameVal::Simple(s@),
        Frame::Error(s) => FrameVal::Error(s@),
        Frame::Integer(v) => FrameVal::Integer(v as int),
        Frame::Bulk(b) => FrameVal::Bulk(b@),
        Frame::Null => FrameVal::Null,
        Frame::Array(items) => FrameVal::Array(frames_view(items@)),
    }
}

pub open spec fn frames_view(s: Seq<Frame>) -> Seq<FrameVal>
    decreases s,
{
    if s.len() == 0 {
        Seq::empty()
    } else {
        seq![frame_view(s[0])] + frames_view(s.skip(1))
    }
}

impl View for Frame {
    type V = FrameVal;

    open spec fn view(&self) -> FrameVal {
        frame_view(*self)
    }
}

/// The two-byte frame terminator.
pub open spec fn crlf() -> Seq<u8> {
    seq![13u8, 10u8]
}

/// A text field may not contain CR or LF: the terminator must be the first
/// CRLF after the tag.
pub open spec fn line_ok(s: Seq<u8>) -> bool {
    forall|i: int| 0 <= i < s.len() ==> s[i] != 13 && s[i] != 10
}

/// The decimal digits of `n`, most significant first, no leading zeros.
pub open spec fn digits_of(n: nat) -> Seq<u8>
    decreases n,
{
    if n < 10 {
        seq![(48 + n) as u8]
    } else {
        digits_of(n / 10).push((48 + n % 10) as u8)
    }
}

/// The decimal ASCII form of a signed value: a minus sign for negative
/// values, then the digits of the magnitude.
pub open spec fn int_digits(v: int) -> Seq<u8> {
    if v < 0 {
        seq![45u8] + digits_of((-v) as nat)
    } else {
        digits_of(v as nat)
    }
}

/// Which frames have a wire form. `Array` has none, and the text of a
/// simple or error frame must be free of CR and LF, since its encoding
/// ends at the first CRLF.
pub open spec fn encodable(f: FrameVal) -> bool {
    match f {
        FrameVal::Simple(s) => line_ok(s),
        FrameVal::Error(s) => line_ok(s),
        FrameVal::Integer(v) => i64::MIN <= v <= i64::MAX,
        FrameVal::Bulk(b) => b.len() <= u64::MAX,
        FrameVal::Null => true,
        FrameVal::Array(_) => false,
    }
}

/// The exact wire form of an encodable frame.
pub open spec fn encode_spec(f: FrameVal) -> Seq<u8>
    recommends
        encodable(f),
{
    match f {
        FrameVal::Simple(s) => seq![43u8] + s + crlf(),
        FrameVal::Error(s) => seq![45u8] + s + crlf(),
        FrameVal::Integer(v) => seq![58u8] + int_digits(v) + crlf(),
        FrameVal::Bulk(b) => seq![36u8] + digits_of(b.len()) + crlf() + b + crlf(),
        FrameVal::Null => seq![36u8, 45u8, 49u8, 13u8, 10u8],
        FrameVal::Array(_) => Seq::empty(),
    }
}

/// The spec-level outcome of decoding the front of a byte sequence:
/// a frame together with the number of bytes its wire form occupies,
/// a signal that more bytes are needed, or a protocol error.
pub enum Decoded {
    Found(FrameVal, int),
    NeedMore,
    Malformed,
}

/// Position of the first CR or LF at or after `i`, or `s.len()` if none.
pub open spec fn line_end(s: Seq<u8>, i: int) -> int
    recommends
        0 <= i <= s.len(),
    decreases s.len() - i,
        when 0 <= i <= s.len()
{
    if i >= s.len() {
        s.len() as int
    } else if s[i] == 13 || s[i] == 10 {
        i
    } else {
        line_end(s, i + 1)
    }
}

/// Whether a complete CRLF-terminated line starts at `i`: `Ready(j)` says
/// the line's text is `s[i..j]` and `s[j..j+2]` is CRLF. A lone CR at the
/// end of the buffer only needs more bytes; a bare LF, or a CR not
/// followed by LF, is malformed.
pub enum LineStatus {
    Ready(int),
    NeedMore,
    Malformed,
}

pub open spec fn line_status(s: Seq<u8>, i: int) -> LineStatus
    recommends
        0 <= i <= s.len(),
{
    let j = line_end(s, i);
    if j == s.len() {
        LineStatus::NeedMore
    } else if s[j] == 10 {
        LineStatus::Malformed
    } else if j + 1 == s.len() {
        LineStatus::NeedMore
    } else if s[j + 1] != 10 {
        LineStatus::Malformed
    } else {
        LineStatus::Ready(j)
    }
}

pub open spec fn is_digit(b: u8) -> bool {
    48 <= b <= 57
}

pub open spec fn all_digits(s: Seq<u8>) -> bool {
    forall|i: int| 0 <= i < s.len() ==> is_digit(s[i])
}

/// Numeric value of a decimal digit string.
pub open spec fn dec_value(s: Seq<u8>) -> int
    recommends
        all_digits(s),
    decreases s.len(),
{
    if s.len() == 0 {
        0
    } else {
        dec_value(s.drop_last()) * 10 + (s.last() - 48)
    }
}

/// A valid unsigned decimal field: nonempty digits whose value fits in a
/// 64-bit length.
pub open spec fn u64_field(s: Seq<u8>) -> bool {
    s.len() > 0 && all_digits(s) && dec_value(s) <= u64::MAX
}

/// The signed 64-bit value of an integer frame's text, if the text is a
/// well-formed decimal that fits; out-of-range or non-digit text has none.
pub open spec fn int_line_value(c: Seq<u8>) -> Option<int> {
    if c.len() > 0 && c[0] == 45 {
        let d = c.skip(1);
        if d.len() > 0 && all_digits(d) && dec_value(d) <= 0x8000000000000000 {
            Some(-dec_value(d))
        } else {
            None
        }
    } else if c.len() > 0 && all_digits(c) && dec_value(c) <= 0x7fffffffffffffff {
        Some(dec_value(c))
    } else {
        None
    }
}

/// What the front of `s` decodes to. The first byte picks the variant;
/// a frame is reported only when every byte of it is present and well
/// formed, so no bytes of a partial frame are ever consumed.
pub open spec fn decode_spec(s: Seq<u8>) -> Decoded {
    if s.len() == 0 {
        Decoded::NeedMore
    } else if s[0] == 43 || s[0] == 45 || s[0] == 58 {
        match line_status(s, 1) {
            LineStatus::Ready(j) => {
                let c = s.subrange(1, j);
                if s[0] == 43 {
                    Decoded::Found(FrameVal::Simple(c), j + 2)
                } else if s[0] == 45 {
                    Decoded::Found(FrameVal::Error(c), j + 2)
                } else {
                    match int_line_value(c) {
                        Some(v) => Decoded::Found(FrameVal::Integer(v), j + 2),
                        None => Decoded::Malformed,
                    }
                }
            }
            LineStatus::NeedMore => Decoded::NeedMore,
            LineStatus::Malformed => Decoded::Malformed,
        }
    } else if s[0] == 36 {
        match line_status(s, 1) {
            LineStatus::Ready(j) => {
                let c = s.subrange(1, j);
                if c == seq![45u8, 49u8] {
                    Decoded::Found(FrameVal::Null, j + 2)
                } else if u64_field(c) {
                    let len = dec_value(c);
                    if s.len() < j + 2 + len + 2 {
                        Decoded::NeedMore
                    } else if s[j + 2 + len] == 13 && s[j + 2 + len + 1] == 10 {
                        Decoded::Found(FrameVal::Bulk(s.subrange(j + 2, j + 2 + len)), j + 2 + len + 2)
                    } else {
                        Decoded::Malformed
                    }
                } else {
                    Decoded::Malformed
                }
            }
            LineStatus::NeedMore => Decoded::NeedMore,
            LineStatus::Malformed => Decoded::Malformed,
        }
    } else {
        Decoded::Malformed
    }
}

/// Appends the decimal digits of `v` to `out`.
fn push_u64(out: &mut Vec<u8>, v: u64)
    ensures
        final(out)@ == old(out)@ + digits_of(v as nat),
{
    let mut rev: Vec<u8> = Vec::new();
    let mut n: u64 = v;
    proof {
        assert(digits_of(v as nat) =~= digits_of(v as nat) + rev@.reverse());
    }
    loop
        invariant_except_break
            digits_of(v as nat) == digits_of(n as nat) + rev@.reverse(),
        ensures
            digits_of(v as nat) == rev@.reverse(),
        decreases n,
    {
        let d: u8 = (n % 10) as u8 + 48;
        let next: u64 = n / 10;
        proof {
            assert(rev@.push(d).reverse() =~= seq![d] + rev@.reverse());
            if n >= 10 {
                assert(digits_of(n as nat) == digits_of(n as nat / 10).push(d));
                assert(digits_of(next as nat) + (seq![d] + rev@.reverse())
                    =~= digits_of(n as nat) + rev@.reverse());
            } else {
                assert(digits_of(n as nat) =~= seq![d]);
                assert(digits_of(n as nat) + rev@.reverse() =~= seq![d] + rev@.reverse());
            }
        }
        rev.push(d);
        if next == 0 {
            break;
        }
        n = next;
    }
    let mut i: usize = rev.len();
    proof {
        assert(out@ =~= old(out)@ + rev@.reverse().take(rev@.len() - i));
    }
    while i > 0
        invariant
            i <= rev@.len(),
            digits_of(v as nat) == rev@.reverse(),
            out@ == old(out)@ + rev@.reverse().take(rev@.len() - i),
        decreases i,
    {
        i = i - 1;
        let d = rev[i];
        proof {
            assert(rev@.reverse()[rev@.len() - 1 - i] == rev@[i as int]);
            assert(rev@.reverse().take(rev@.len() - i)
                =~= rev@.reverse().take(rev@.len() - (i + 1)).push(rev@[i as int]));
        }
        out.push(d);
    }
    proof {
        assert(rev@.reverse().take(rev@.len() as int) =~= rev@.reverse());
    }
}

/// Appends the decimal ASCII form of `v`, sign included, to `out`.
fn push_i64(out: &mut Vec<u8>, v: i64)
    ensures
        final(out)@ == old(out)@ + int_digits(v as int),
{
    if v < 0 {
        out.push(45);
        let m: u64 = if v == i64::MIN {
            9223372036854775808u64
        } else {
            (-v) as u64
        };
        assert(m as nat == (-(v as int)) as nat);
        push_u64(out, m);
        assert(out@ =~= old(out)@ + int_digits(v as int));
    } else {
        push_u64(out, v as u64);
    }
}

/// Appends all of `data` to `out`.
fn push_bytes(out: &mut Vec<u8>, data: &Vec<u8>)
    ensures
        final(out)@ == old(out)@ + data@,
{
    let mut i: usize = 0;
    proof {
        assert(out@ =~= old(out)@ + data@.take(0));
    }
    while i < data.len()
        invariant
            i <= data@.len(),
            out@ == old(out)@ + data@.take(i as int),
        decreases data@.len() - i,
    {
        let b = data[i];
        proof {
            assert(data@.take(i + 1) =~= data@.take(i as int).push(data@[i as int]));
        }
        out.push(b);
        i = i + 1;
    }
    proof {
        assert(data@.take(data@.len() as int) =~= data@);
    }
}

/// Appends the frame terminator to `out`.
fn push_crlf(out: &mut Vec<u8>)
    ensures
        final(out)@ == old(out)@ + crlf(),
{
    out.push(13);
    out.push(10);
    proof {
        assert(out@ =~= old(out)@ + crlf());
    }
}

/// `line_end` is the scan's stopping point: nothing before `j` is CR or
/// LF, and `j` is the end of the bytes or holds CR or LF.
pub proof fn lemma_line_end_at(s: Seq<u8>, i: int, j: int)
    requires
        0 <= i <= j <= s.len(),
        forall|k: int| i <= k < j ==> s[k] != 13 && s[k] != 10,
        j == s.len() || s[j] == 13 || s[j] == 10,
    ensures
        line_end(s, i) == j,
    decreases j - i,
{
    if i < j {
        lemma_line_end_at(s, i + 1, j);
    }
}

proof fn lemma_dec_value_step(s: Seq<u8>, i: int)
    requires
        0 <= i < s.len(),
    ensures
        dec_value(s.subrange(0, i + 1)) == dec_value(s.subrange(0, i)) * 10 + (s[i] - 48),
{
    assert(s.subrange(0, i + 1).drop_last() =~= s.subrange(0, i));
    assert(s.subrange(0, i + 1).last() == s[i]);
}

proof fn lemma_dec_value_nonneg(s: Seq<u8>)
    requires
        all_digits(s),
    ensures
        dec_value(s) >= 0,
    decreases s.len(),
{
    if s.len() > 0 {
        assert(all_digits(s.drop_last()));
        lemma_dec_value_nonneg(s.drop_last());
    }
}

/// Reading further digits never shrinks the value: the value of a prefix
/// is a lower bound for the value of the whole digit string.
proof fn lemma_dec_value_prefix_grows(s: Seq<u8>, i: int)
    requires
        0 <= i <= s.len(),
        all_digits(s),
    ensures
        dec_value(s.subrange(0, i)) <= dec_value(s),
    decreases s.len() - i,
{
    if i < s.len() {
        lemma_dec_value_step(s, i);
        assert(all_digits(s.subrange(0, i)));
        lemma_dec_value_nonneg(s.subrange(0, i));
        lemma_dec_value_prefix_grows(s, i + 1);
    } else {
        assert(s.subrange(0, i) =~= s);
    }
}

/// The exec-side outcome of looking for a CRLF-terminated line.
enum LineScan {
    Ready(usize),
    Incomplete,
    Malformed,
}

/// Scans for the line that starts at `start`, without mutating anything.
fn scan_line(buf: &[u8], start: usize) -> (r: LineScan)
    requires
        start <= buf@.len(),
    ensures
        ({
            let st = line_status(buf@, start as int);
            match r {
                LineScan::Ready(j) => st == LineStatus::Ready(j as int) && start <= j && j + 2
                    <= buf@.len(),
                LineScan::Incomplete => st == LineStatus::NeedMore,
                LineScan::Malformed => st == LineStatus::Malformed,
            }
        }),
{
    let mut i: usize = start;
    while i < buf.len() && buf[i] != 13 && buf[i] != 10
        invariant
            start <= i <= buf@.len(),
            forall|k: int| start <= k < i ==> buf@[k] != 13 && buf@[k] != 10,
        decreases buf@.len() - i,
    {
        i = i + 1;
    }
    proof {
        lemma_line_end_at(buf@, start as int, i as int);
    }
    if i == buf.len() {
        LineScan::Incomplete
    } else if buf[i] == 10 {
        LineScan::Malformed
    } else if i + 1 == buf.len() {
        LineScan::Incomplete
    } else if buf[i + 1] != 10 {
        LineScan::Malformed
    } else {
        LineScan::Ready(i)
    }
}

/// Parses the digits `buf[start..end]` as an unsigned 64-bit decimal.
/// `None` means the region is not a valid in-range decimal field.
fn parse_u64(buf: &[u8], start: usize, end: usize) -> (r: Option<u64>)
    requires
        start <= end <= buf@.len(),
    ensures
        ({
            let c = buf@.subrange(start as int, end as int);
            match r {
                Some(v) => u64_field(c) && v as int == dec_value(c),
                None => !u64_field(c),
            }
        }),
{
    let ghost c = buf@.subrange(start as int, end as int);
    if start == end {
        assert(c.len() == 0);
        return None;
    }
    let mut i: usize = start;
    let mut acc: u64 = 0;
    proof {
        assert(c.subrange(0, 0) =~= Seq::<u8>::empty());
    }
    while i < end
        invariant
            start <= i <= end <= buf@.len(),
            c == buf@.subrange(start as int, end as int),
            all_digits(c.subrange(0, i - start)),
            acc as int == dec_value(c.subrange(0, i - start)),
        decreases end - i,
    {
        let b = buf[i];
        let ghost k = i - start;
        proof {
            assert(c[k] == buf@[i as int]);
        }
        if b < 48 || b > 57 {
            proof {
                assert(!is_digit(c[k]));
            }
            return None;
        }
        let d: u8 = b - 48;
        if acc > u64::MAX / 10 || (acc == u64::MAX / 10 && d > 5) {
            proof {
                lemma_dec_value_step(c, k);
                assert(dec_value(c.subrange(0, k + 1)) > u64::MAX);
                if all_digits(c) {
                    lemma_dec_value_prefix_grows(c, k + 1);
                }
            }
            return None;
        }
        proof {
            lemma_dec_value_step(c, k);
            assert(all_digits(c.subrange(0, k + 1)));
        }
        acc = acc * 10 + d as u64;
        i = i + 1;
    }
    proof {
        assert(c.subrange(0, end - start) =~= c);
    }
    Some(acc)
}

/// Parses the text of an integer frame, sign included, as a signed
/// 64-bit decimal. `None` means the text is not a valid in-range decimal.
fn parse_int_line(buf: &[u8], start: usize, end: usize) -> (r: Option<i64>)
    requires
        start <= end <= buf@.len(),
    ensures
        ({
            let c = buf@.subrange(start as int, end as int);
            match r {
                Some(v) => int_line_value(c) == Some(v as int),
                None => int_line_value(c) is None,
            }
        }),
{
    let ghost c = buf@.subrange(start as int, end as int);
    if start < end && buf[start] == 45 {
        proof {
            assert(c[0] == buf@[start as int]);
            assert(buf@.subrange(start + 1, end as int) =~= c.skip(1));
        }
        match parse_u64(buf, start + 1, end) {
            Some(m) => {
                if m <= 9223372036854775808u64 {
                    let v: i64 = if m == 9223372036854775808u64 {
                        i64::MIN
                    } else {
                        -(m as i64)
                    };
                    Some(v)
                } else {
                    None
                }
            }
            None => None,
        }
    } else {
        proof {
            if c.len() > 0 {
                assert(c[0] == buf@[start as int]);
            }
        }
        match parse_u64(buf, start, end) {
            Some(m) => {
                if m <= 0x7fffffffffffffffu64 {
                    Some(m as i64)
                } else {
                    None
                }
            }
            None => None,
        }
    }
}

/// The outcome of `Frame::check`: a complete frame of the given encoded
/// length is buffered, or more bytes are needed, or the bytes are not a
/// valid frame and the connection cannot recover.
#[derive(Debug, Clone, Copy, PartialEq, Eq)]
pub enum FrameCheck {
    Complete(usize),
    Incomplete,
    ProtocolError,
}

/// Copies `buf[start..end]` into a fresh vector.
fn copy_range(buf: &[u8], start: usize, end: usize) -> (r: Vec<u8>)
    requires
        start <= end <= buf@.len(),
    ensures
        r@ == buf@.subrange(start as int, end as int),
{
    let mut out: Vec<u8> = Vec::new();
    let mut i: usize = start;
    proof {
        assert(out@ =~= buf@.subrange(start as int, start as int));
    }
    while i < end
        invariant
            start <= i <= end <= buf@.len(),
            out@ == buf@.subrange(start as int, i as int),
        decreases end - i,
    {
        let b = buf[i];
        proof {
            assert(buf@.subrange(start as int, i + 1) =~= buf@.subrange(start as int, i as int)
                .push(buf@[i as int]));
        }
        out.push(b);
        i = i + 1;
    }
    out
}

/// Reports whether `s` is free of CR and LF, as the text of a simple or
/// error frame must be.
fn line_free(s: &Vec<u8>) -> (r: bool)
    ensures
        r == line_ok(s@),
{
    let mut i: usize = 0;
    while i < s.len()
        invariant
            i <= s@.len(),
            forall|k: int| 0 <= k < i ==> s@[k] != 13 && s@[k] != 10,
        decreases s@.len() - i,
    {
        if s[i] == 13 || s[i] == 10 {
            return false;
        }
        i = i + 1;
    }
    true
}

impl Frame {
    /// First decode pass: scans the buffered bytes without mutating
    /// anything, and reports whether a complete, well-formed frame starts
    /// at the front, and how many bytes it occupies. `Incomplete` is not
    /// an error: it asks the caller to read more bytes first.
    pub fn check(buf: &[u8]) -> (r: FrameCheck)
        ensures
            ({
                let d = decode_spec(buf@);
                match r {
                    FrameCheck::Complete(n) => d matches Decoded::Found(f, m) && m == n as int
                        && n <= buf@.len(),
                    FrameCheck::Incomplete => d is NeedMore,
                    FrameCheck::ProtocolError => d is Malformed,
                }
            }),
    {
        if buf.len() == 0 {
            return FrameCheck::Incomplete;
        }
        let tag = buf[0];
        if tag == 43 || tag == 45 || tag == 58 {
            match scan_line(buf, 1) {
                LineScan::Ready(j) => {
                    if tag == 58 {
                        match parse_int_line(buf, 1, j) {
                            Some(_) => FrameCheck::Complete(j + 2),
                            None => FrameCheck::ProtocolError,
                        }
                    } else {
                        FrameCheck::Complete(j + 2)
                    }
                }
                LineScan::Incomplete => FrameCheck::Incomplete,
                LineScan::Malformed => FrameCheck::ProtocolError,
            }
        } else if tag == 36 {
            match scan_line(buf, 1) {
                LineScan::Ready(j) => {
                    let ghost c = buf@.subrange(1, j as int);
                    if j == 3 && buf[1] == 45 && buf[2] == 49 {
                        proof {
                            assert(c =~= seq![45u8, 49u8]);
                        }
                        FrameCheck::Complete(5)
                    } else {
                        proof {
                            if c == seq![45u8, 49u8] {
                                assert(j == 3 && buf@[1] == 45 && buf@[2] == 49);
                            }
                        }
                        match parse_u64(buf, 1, j) {
                            Some(l) => {
                                let rem: usize = buf.len() - (j + 2);
                                if (rem as u64) < l || (rem as u64) - l < 2 {
                                    FrameCheck::Incomplete
                                } else {
                                    let li = l as usize;
                                    if buf[j + 2 + li] == 13 && buf[j + 2 + li + 1] == 10 {
                                        FrameCheck::Complete(j + 2 + li + 2)
                                    } else {
                                        FrameCheck::ProtocolError
                                    }
                                }
                            }
                            None => FrameCheck::ProtocolError,
                        }
                    }
                }
                LineScan::Incomplete => FrameCheck::Incomplete,
                LineScan::Malformed => FrameCheck::ProtocolError,
            }
        } else {
            FrameCheck::ProtocolError
        }
    }

    /// Second decode pass: materializes the frame whose presence `check`
    /// has already validated. The caller must only invoke it on bytes
    /// whose front decodes to a complete frame.
    pub fn parse(buf: &[u8]) -> (r: Frame)
        requires
            decode_spec(buf@) is Found,
        ensures
            decode_spec(buf@) matches Decoded::Found(f, n) && r@ == f,
    {
        let tag = buf[0];
        if tag == 43 || tag == 45 {
            match scan_line(buf, 1) {
                LineScan::Ready(j) => {
                    let content = copy_range(buf, 1, j);
                    if tag == 43 {
                        Frame::Simple(content)
                    } else {
                        Frame::Error(content)
                    }
                }
                _ => vstd::pervasive::unreached(),
            }
        } else if tag == 58 {
            match scan_line(buf, 1) {
                LineScan::Ready(j) => {
                    match parse_int_line(buf, 1, j) {
                        Some(v) => Frame::Integer(v),
                        None => vstd::pervasive::unreached(),
                    }
                }
                _ => vstd::pervasive::unreached(),
            }
        } else {
            assert(tag == 36);
            match scan_line(buf, 1) {
                LineScan::Ready(j) => {
                    let ghost c = buf@.subrange(1, j as int);
                    if j == 3 && buf[1] == 45 && buf[2] == 49 {
                        proof {
                            assert(c =~= seq![45u8, 49u8]);
                        }
                        Frame::Null
                    } else {
                        proof {
                            if c == seq![45u8, 49u8] {
                                assert(j == 3 && buf@[1] == 45 && buf@[2] == 49);
                            }
                        }
                        match parse_u64(buf, 1, j) {
                            Some(l) => {
                                let li = l as usize;
                                let payload = copy_range(buf, j + 2, j + 2 + li);
                                Frame::Bulk(payload)
                            }
                            None => vstd::pervasive::unreached(),
                        }
                    }
                }
                _ => vstd::pervasive::unreached(),
            }
        }
    }

    /// Serializes the frame into its exact wire form.
    ///
    /// The caller must not pass an `Array` frame: the engine has no wire
    /// form for it, so that case is ruled out up front rather than encoded
    /// wrongly. `try_encode` is the total variant that reports the failure
    /// instead.
    pub fn encode(&self) -> (out: Vec<u8>)
        requires
            encodable(self@),
        ensures
            out@ == encode_spec(self@),
    {
        let mut out: Vec<u8> = Vec::new();
        match self {
            Frame::Simple(s) => {
                out.push(43);
                push_bytes(&mut out, s);
                push_crlf(&mut out);
                proof {
                    assert(out@ =~= encode_spec(self@));
                }
            }
            Frame::Error(s) => {
                out.push(45);
                push_bytes(&mut out, s);
                push_crlf(&mut out);
                proof {
                    assert(out@ =~= encode_spec(self@));
                }
            }
            Frame::Integer(v) => {
                out.push(58);
                push_i64(&mut out, *v);
                push_crlf(&mut out);
                proof {
                    assert(out@ =~= encode_spec(self@));
                }
            }
            Frame::Bulk(b) => {
                out.push(36);
                push_u64(&mut out, b.len() as u64);
                push_crlf(&mut out);
                push_bytes(&mut out, b);
                push_crlf(&mut out);
                proof {
                    assert(b@.len() as u64 as nat == b@.len());
                    assert(out@ =~= encode_spec(self@));
                }
            }
            Frame::Null => {
                out.push(36);
                out.push(45);
                out.push(49);
                out.push(13);
                out.push(10);
                proof {
                    assert(out@ =~= encode_spec(self@));
                }
            }
            Frame::Array(_) => {
                proof {
                    assert(false);
                }
            }
        }
        out
    }

    /// Total encoder: returns the wire form, or `None` exactly when the
    /// frame has none — an `Array`, or simple or error text with an
    /// embedded CR or LF, which no CRLF-terminated line can carry.
    pub fn try_encode(&self) -> (r: Option<Vec<u8>>)
        ensures
            match r {
                Some(out) => encodable(self@) && out@ == encode_spec(self@),
                None => !encodable(self@),
            },
    {
        match self {
            Frame::Simple(s) => {
                if line_free(s) {
                    Some(self.encode())
                } else {
                    None
                }
            }
            Frame::Error(s) => {
                if line_free(s) {
                    Some(self.encode())
                } else {
                    None
                }
            }
            Frame::Integer(_) => Some(self.encode()),
            Frame::Bulk(b) => {
                let n = b.len();
                proof {
                    assert(b@.len() == n <= usize::MAX);
                    assert(usize::MAX <= u64::MAX);
                }
                Some(self.encode())
            }
            Frame::Null => Some(self.encode()),
            Frame::Array(_) => None,
        }
    }
}

} // verus!
