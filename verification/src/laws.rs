//! The laws that tie the encoder and the decoder together, proved once
//! for every frame value and every buffer content.

use vstd::prelude::*;

use crate::frame::{
    all_digits, crlf, dec_value, decode_spec, digits_of, encodable, encode_spec, int_digits,
    int_line_value, is_digit, lemma_line_end_at, line_ok, line_status, Decoded, FrameVal,
    LineStatus,
};

verus! {

/// Every byte of `digits_of(n)` is a decimal digit, and there is at
/// least one of them.
pub proof fn lemma_digits_of_shape(n: nat)
    ensures
        digits_of(n).len() >= 1,
        all_digits(digits_of(n)),
    decreases n,
{
    if n >= 10 {
        lemma_digits_of_shape(n / 10);
        assert forall|i: int| 0 <= i < digits_of(n).len() implies is_digit(digits_of(n)[i]) by {
            if i < digits_of(n).len() - 1 {
                assert(digits_of(n)[i] == digits_of(n / 10)[i]);
            }
        }
    }
}

/// Reading the digits of `n` back as a decimal gives `n`.
pub proof fn lemma_dec_value_of_digits(n: nat)
    ensures
        dec_value(digits_of(n)) == n,
    decreases n,
{
    if n >= 10 {
        lemma_dec_value_of_digits(n / 10);
        let s = digits_of(n);
        assert(s == digits_of(n / 10).push((48 + n % 10) as u8));
        assert(s.drop_last() =~= digits_of(n / 10));
        assert(s.len() > 0);
        assert(dec_value(s) == dec_value(s.drop_last()) * 10 + (s.last() - 48));
        assert(s.last() == (48 + n % 10) as u8);
        assert((48 + n % 10) as u8 - 48 == n % 10);
        assert(dec_value(s) == (n / 10) * 10 + n % 10);
        assert((n / 10) * 10 + n % 10 == n) by (nonlinear_arith);
        assert(dec_value(digits_of(n)) == n);
    } else {
        let s = digits_of(n);
        assert(s.drop_last() =~= Seq::<u8>::empty());
        assert(s.last() == (48 + n) as u8);
        assert(dec_value(s) == dec_value(s.drop_last()) * 10 + (s.last() - 48));
        assert(dec_value(s.drop_last()) == 0);
        assert(dec_value(digits_of(n)) == n);
    }
}

/// The signed decimal text of an in-range value is CR/LF-free and reads
/// back as exactly that value.
pub proof fn lemma_int_digits_read_back(v: int)
    requires
        i64::MIN <= v <= i64::MAX,
    ensures
        line_ok(int_digits(v)),
        int_line_value(int_digits(v)) == Some(v),
{
    if v < 0 {
        let d = digits_of((-v) as nat);
        lemma_digits_of_shape((-v) as nat);
        lemma_dec_value_of_digits((-v) as nat);
        let c = seq![45u8] + d;
        assert(c.skip(1) =~= d);
        assert(c[0] == 45);
        assert forall|i: int| 0 <= i < c.len() implies c[i] != 13 && c[i] != 10 by {
            if i > 0 {
                assert(c[i] == d[i - 1]);
                assert(is_digit(d[i - 1]));
            }
        }
    } else {
        let c = digits_of(v as nat);
        lemma_digits_of_shape(v as nat);
        lemma_dec_value_of_digits(v as nat);
        assert(is_digit(c[0]));
    }
}

/// In `[tag] + c + CRLF + rest` with CR/LF-free text `c`, the first line
/// after the tag is exactly `c`, ready, with its CRLF in place.
proof fn lemma_line_in_place(tag: u8, c: Seq<u8>, rest: Seq<u8>)
    requires
        line_ok(c),
    ensures
        ({
            let s = seq![tag] + c + crlf() + rest;
            s.len() == 3 + c.len() + rest.len() && s[0] == tag && line_status(s, 1)
                == LineStatus::Ready(1 + c.len() as int) && s.subrange(1, 1 + c.len() as int) == c
        }),
{
    let s = seq![tag] + c + crlf() + rest;
    assert forall|k: int| 1 <= k < 1 + c.len() implies s[k] != 13 && s[k] != 10 by {
        assert(s[k] == c[k - 1]);
    }
    assert(s[1 + c.len() as int] == 13);
    lemma_line_end_at(s, 1, 1 + c.len() as int);
    assert(s[2 + c.len() as int] == 10);
    assert(s.subrange(1, 1 + c.len() as int) =~= c);
}

/// Round trip: the wire form of any encodable frame, however many bytes
/// follow it, decodes to exactly that frame, consuming exactly the wire
/// form's length. Holds for every variant — simple, error, integer,
/// bulk and null.
pub proof fn lemma_encode_decode(f: FrameVal, rest: Seq<u8>)
    requires
        encodable(f),
    ensures
        decode_spec(encode_spec(f) + rest) == Decoded::Found(f, encode_spec(f).len() as int),
{
    let e = encode_spec(f);
    let s = e + rest;
    match f {
        FrameVal::Simple(c) => {
            assert(s =~= seq![43u8] + c + crlf() + rest);
            lemma_line_in_place(43, c, rest);
        }
        FrameVal::Error(c) => {
            assert(s =~= seq![45u8] + c + crlf() + rest);
            lemma_line_in_place(45, c, rest);
        }
        FrameVal::Integer(v) => {
            let c = int_digits(v);
            lemma_int_digits_read_back(v);
            assert(s =~= seq![58u8] + c + crlf() + rest);
            lemma_line_in_place(58, c, rest);
        }
        FrameVal::Bulk(b) => {
            let dl = digits_of(b.len());
            lemma_digits_of_shape(b.len());
            lemma_dec_value_of_digits(b.len());
            let tail = b + crlf() + rest;
            assert(s =~= seq![36u8] + dl + crlf() + tail);
            lemma_line_in_place(36, dl, tail);
            let j = 1 + dl.len() as int;
            assert(is_digit(dl[0]));
            assert(dl != seq![45u8, 49u8]) by {
                if dl == seq![45u8, 49u8] {
                    assert(dl[0] == 45);
                }
            }
            assert(s.len() == j + 2 + b.len() + 2 + rest.len());
            assert(s[j + 2 + b.len()] == 13) by {
                assert(tail[b.len() as int] == 13);
            }
            assert(s[j + 2 + b.len() + 1] == 10) by {
                assert(tail[b.len() as int + 1] == 10);
            }
            assert(s.subrange(j + 2, j + 2 + b.len()) =~= b);
        }
        FrameVal::Null => {
            assert(s[0] == 36 && s[1] == 45 && s[2] == 49 && s[3] == 13 && s[4] == 10);
            lemma_line_end_at(s, 1, 3);
            assert(s.subrange(1, 3) =~= seq![45u8, 49u8]);
        }
        FrameVal::Array(_) => {
            assert(false);
        }
    }
}

/// Any strict prefix of `[tag] + c + CRLF` still awaits its line: the
/// scan either runs out of bytes or stops at a final CR with no LF yet.
proof fn lemma_line_prefix_needs_more(tag: u8, c: Seq<u8>, k: int)
    requires
        line_ok(c),
        1 <= k < 3 + c.len(),
    ensures
        line_status((seq![tag] + c + crlf()).take(k), 1) == LineStatus::NeedMore,
{
    let full = seq![tag] + c + crlf();
    let t = full.take(k);
    if k <= 1 + c.len() {
        assert forall|i: int| 1 <= i < k implies t[i] != 13 && t[i] != 10 by {
            assert(t[i] == c[i - 1]);
        }
        lemma_line_end_at(t, 1, k);
    } else {
        assert forall|i: int| 1 <= i < k - 1 implies t[i] != 13 && t[i] != 10 by {
            assert(t[i] == c[i - 1]);
        }
        assert(t[k - 1] == 13);
        lemma_line_end_at(t, 1, k - 1);
    }
}

/// Partial delivery: as long as only a strict prefix of a frame's wire
/// form has arrived — whatever the split point — decoding asks for more
/// bytes: it returns no frame, and raises no error, until the frame's
/// last byte is buffered.
pub proof fn lemma_encode_prefix_needs_more(f: FrameVal, k: int)
    requires
        encodable(f),
        0 <= k < encode_spec(f).len(),
    ensures
        decode_spec(encode_spec(f).take(k)) is NeedMore,
{
    let e = encode_spec(f);
    let t = e.take(k);
    if k == 0 {
        assert(t.len() == 0);
    } else {
        match f {
            FrameVal::Simple(c) => {
                assert(e =~= seq![43u8] + c + crlf());
                lemma_line_prefix_needs_more(43, c, k);
                assert(t[0] == 43);
            }
            FrameVal::Error(c) => {
                assert(e =~= seq![45u8] + c + crlf());
                lemma_line_prefix_needs_more(45, c, k);
                assert(t[0] == 45);
            }
            FrameVal::Integer(v) => {
                let c = int_digits(v);
                lemma_int_digits_read_back(v);
                assert(e =~= seq![58u8] + c + crlf());
                lemma_line_prefix_needs_more(58, c, k);
                assert(t[0] == 58);
            }
            FrameVal::Bulk(b) => {
                let dl = digits_of(b.len());
                lemma_digits_of_shape(b.len());
                lemma_dec_value_of_digits(b.len());
                let j = 1 + dl.len() as int;
                assert(t[0] == 36);
                if k < j + 2 {
                    let header = seq![36u8] + dl + crlf();
                    assert(t =~= header.take(k));
                    lemma_line_prefix_needs_more(36, dl, k);
                } else {
                    let body = (b + crlf()).take(k - (j + 2));
                    assert(t =~= seq![36u8] + dl + crlf() + body);
                    lemma_line_in_place(36, dl, body);
                    assert(is_digit(dl[0]));
                    assert(dl != seq![45u8, 49u8]) by {
                        if dl == seq![45u8, 49u8] {
                            assert(dl[0] == 45);
                        }
                    }
                    assert(t.len() == k < j + 2 + b.len() + 2);
                }
            }
            FrameVal::Null => {
                assert(t[0] == 36);
                if k <= 3 {
                    assert forall|i: int| 1 <= i < k implies t[i] != 13 && t[i] != 10 by {
                        assert(t[i] == e[i]);
                    }
                    lemma_line_end_at(t, 1, k);
                } else {
                    assert(t[1] == 45 && t[2] == 49 && t[3] == 13);
                    lemma_line_end_at(t, 1, 3);
                }
            }
            FrameVal::Array(_) => {
                assert(false);
            }
        }
    }
}

/// Split delivery, both halves: cut a frame's wire form at any point.
/// With only the first piece buffered the decoder asks for more; with
/// the second piece appended, the buffer decodes to exactly the
/// original frame.
pub proof fn lemma_split_delivery(f: FrameVal, k: int)
    requires
        encodable(f),
        0 <= k < encode_spec(f).len(),
    ensures
        decode_spec(encode_spec(f).take(k)) is NeedMore,
        decode_spec(encode_spec(f).take(k) + encode_spec(f).skip(k)) == Decoded::Found(
            f,
            encode_spec(f).len() as int,
        ),
{
    let e = encode_spec(f);
    lemma_encode_prefix_needs_more(f, k);
    lemma_encode_decode(f, Seq::empty());
    assert(e.take(k) + e.skip(k) =~= e);
    assert(e + Seq::<u8>::empty() =~= e);
}

/// A bulk frame's payload stands verbatim on the wire: between the
/// length line's CRLF and the trailing CRLF lie exactly the payload's
/// bytes, whatever they are — even bytes that look like frame tags.
pub proof fn lemma_bulk_payload_verbatim(b: Seq<u8>)
    requires
        b.len() <= u64::MAX,
    ensures
        ({
            let e = encode_spec(FrameVal::Bulk(b));
            let h = 3 + digits_of(b.len()).len() as int;
            e.len() == h + b.len() + 2 && e.subrange(h, h + b.len()) == b && e[e.len() - 2] == 13
                && e[e.len() - 1] == 10
        }),
{
    let e = encode_spec(FrameVal::Bulk(b));
    let h = 3 + digits_of(b.len()).len() as int;
    assert(e.subrange(h, h + b.len()) =~= b);
    assert(e[e.len() - 2] == 13);
    assert(e[e.len() - 1] == 10);
}

} // verus!
