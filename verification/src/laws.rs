//! Laws of the codec and the framer.
//!
//! The round-trip law: encoding any well-formed value and decoding the
//! result gives back the value, consuming exactly the encoding.  From it
//! follow the stream laws: a split anywhere inside a frame leaves the
//! framer waiting without loss, and two concatenated frames come out as
//! exactly two values, in order.

use vstd::arithmetic::div_mod::lemma_fundamental_div_mod;
use vstd::prelude::*;
use vstd::utf8::{decode_utf8, encode_utf8, encode_utf8_decode_utf8, encode_utf8_valid_utf8};

use crate::decode::{
    all_digits, digits_val, int_line_val, lemma_find_crlf_bounds, spec_decode_at,
    spec_decode_list, spec_find_crlf, valid_int_line, valid_len_line, MalformedKind, SpecParse,
    SpecParseList,
};
use crate::framer::{spec_extract, ExtractResult};
use crate::resp::{
    dec_digits, digit_byte, digit_val, encoding, encoding_seq, int_digits, is_digit,
    lemma_dec_digits_digits, lemma_no_cr_bytes, wf, GValue,
};

verus! {

/// Reading the canonical digits back as a number gives the number.
proof fn lemma_dec_digits_val(n: nat)
    ensures
        digits_val(dec_digits(n)) == n,
    decreases n,
{
    if n < 10 {
        let s = dec_digits(n);
        assert(s.drop_last() =~= Seq::<u8>::empty());
        assert(digits_val(s.drop_last()) == 0);
        assert(s.last() == digit_byte(n));
        assert(digit_val(digit_byte(n)) == n);
        assert(digits_val(s) == 10 * digits_val(s.drop_last()) + digit_val(s.last()));
    } else {
        lemma_dec_digits_val(n / 10);
        let s = dec_digits(n);
        assert(s.drop_last() =~= dec_digits(n / 10));
        assert(s.last() == digit_byte(n % 10));
        assert(digit_val(digit_byte(n % 10)) == n % 10);
        lemma_fundamental_div_mod(n as int, 10);
    }
}

/// A digit byte is neither CR, LF, nor a sign.
proof fn lemma_digit_not_special(b: u8)
    requires
        is_digit(b),
    ensures
        b != 13,
        b != 10,
        b != 45,
        b != 43,
{
}

/// If no CRLF pair begins before `m` and one begins at `m`, the search
/// finds `m`.
proof fn lemma_find_crlf_at(s: Seq<u8>, i: int, m: int)
    requires
        0 <= i <= m,
        m + 2 <= s.len(),
        forall|j: int| i <= j < m ==> #[trigger] s[j] != 13,
        s[m] == 13,
        s[m + 1] == 10,
    ensures
        spec_find_crlf(s, i) == Some(m),
    decreases m - i,
{
    if i < m {
        lemma_find_crlf_at(s, i + 1, m);
    }
}

/// With no CRLF pair anywhere at or after `i`, the search finds nothing.
proof fn lemma_find_crlf_none(s: Seq<u8>, i: int)
    requires
        forall|j: int| i <= j && j + 2 <= s.len() ==> !(#[trigger] s[j] == 13 && s[j + 1] == 10),
    ensures
        spec_find_crlf(s, i) is None,
    decreases s.len() - i,
{
    if i + 2 <= s.len() {
        lemma_find_crlf_none(s, i + 1);
    }
}

/// The encoding of a well-formed value holds at least a tag and a
/// terminator.
proof fn lemma_encoding_len(g: GValue)
    requires
        wf(g),
    ensures
        encoding(g).len() >= 3,
{
}

/// A byte of a region known to equal `e` is the matching byte of `e`.
proof fn lemma_region_index(s: Seq<u8>, pos: int, e: Seq<u8>, k: int)
    requires
        0 <= pos,
        pos + e.len() <= s.len(),
        s.subrange(pos, pos + e.len() as int) == e,
        0 <= k < e.len(),
    ensures
        s[pos + k] == e[k],
{
    assert(s.subrange(pos, pos + e.len() as int)[k] == s[pos + k]);
}

/// Decoding at a position whose next bytes are exactly the encoding of a
/// well-formed value yields that value and consumes exactly its encoding,
/// whatever follows it in the buffer.
#[verifier::rlimit(100)]
pub proof fn lemma_decode_encoding_at(g: GValue, s: Seq<u8>, pos: int)
    requires
        wf(g),
        0 <= pos,
        pos + encoding(g).len() <= s.len(),
        s.subrange(pos, pos + encoding(g).len() as int) == encoding(g),
    ensures
        spec_decode_at(s, pos) == (SpecParse::Found { v: g, end: pos + encoding(g).len() }),
    decreases g,
{
    broadcast use encode_utf8_valid_utf8;
    broadcast use encode_utf8_decode_utf8;

    let e = encoding(g);
    let elen = e.len() as int;
    match g {
        GValue::SimpleString(t) => {
            let body = encode_utf8(t);
            lemma_no_cr_bytes(t);
            let m = pos + 1 + body.len() as int;
            lemma_region_index(s, pos, e, 0);
            assert(e[0] == 43);
            assert forall|j: int| pos + 1 <= j < m implies #[trigger] s[j] != 13 by {
                lemma_region_index(s, pos, e, j - pos);
                assert(e[j - pos] == body[j - pos - 1]);
            }
            lemma_region_index(s, pos, e, 1 + body.len() as int);
            lemma_region_index(s, pos, e, 2 + body.len() as int);
            assert(e[1 + body.len() as int] == 13);
            assert(e[2 + body.len() as int] == 10);
            lemma_find_crlf_at(s, pos + 1, m);
            assert forall|k: int| 0 <= k < body.len() implies s.subrange(pos + 1, m)[k]
                == body[k] by {
                lemma_region_index(s, pos, e, 1 + k);
                assert(e[1 + k] == body[k]);
                assert(s.subrange(pos + 1, m)[k] == s[pos + 1 + k]);
            }
            assert(s.subrange(pos + 1, m) =~= body);
            assert(decode_utf8(body) == t);
        },
        GValue::SimpleError(t) => {
            let body = encode_utf8(t);
            lemma_no_cr_bytes(t);
            let m = pos + 1 + body.len() as int;
            lemma_region_index(s, pos, e, 0);
            assert(e[0] == 45);
            assert forall|j: int| pos + 1 <= j < m implies #[trigger] s[j] != 13 by {
                lemma_region_index(s, pos, e, j - pos);
                assert(e[j - pos] == body[j - pos - 1]);
            }
            lemma_region_index(s, pos, e, 1 + body.len() as int);
            lemma_region_index(s, pos, e, 2 + body.len() as int);
            assert(e[1 + body.len() as int] == 13);
            assert(e[2 + body.len() as int] == 10);
            lemma_find_crlf_at(s, pos + 1, m);
            assert forall|k: int| 0 <= k < body.len() implies s.subrange(pos + 1, m)[k]
                == body[k] by {
                lemma_region_index(s, pos, e, 1 + k);
                assert(e[1 + k] == body[k]);
                assert(s.subrange(pos + 1, m)[k] == s[pos + 1 + k]);
            }
            assert(s.subrange(pos + 1, m) =~= body);
            assert(decode_utf8(body) == t);
        },
        GValue::Integer(n) => {
            let digs = int_digits(n);
            if n < 0 {
                lemma_dec_digits_digits((-n) as nat);
                lemma_dec_digits_val((-n) as nat);
            } else {
                lemma_dec_digits_digits(n as nat);
                lemma_dec_digits_val(n as nat);
            }
            let dlen = digs.len() as int;
            let m = pos + 1 + dlen;
            lemma_region_index(s, pos, e, 0);
            assert(e[0] == 58);
            assert forall|j: int| pos + 1 <= j < m implies #[trigger] s[j] != 13 by {
                lemma_region_index(s, pos, e, j - pos);
                assert(e[j - pos] == digs[j - pos - 1]);
                if n < 0 {
                    if j - pos - 1 == 0 {
                        assert(digs[0] == 45);
                    } else {
                        assert(digs[j - pos - 1] == dec_digits((-n) as nat)[j - pos - 2]);
                        lemma_digit_not_special(digs[j - pos - 1]);
                    }
                } else {
                    lemma_digit_not_special(digs[j - pos - 1]);
                }
            }
            lemma_region_index(s, pos, e, 1 + dlen);
            lemma_region_index(s, pos, e, 2 + dlen);
            assert(e[1 + dlen] == 13);
            assert(e[2 + dlen] == 10);
            lemma_find_crlf_at(s, pos + 1, m);
            let line = s.subrange(pos + 1, m);
            assert forall|k: int| 0 <= k < dlen implies line[k] == digs[k] by {
                lemma_region_index(s, pos, e, 1 + k);
                assert(e[1 + k] == digs[k]);
                assert(line[k] == s[pos + 1 + k]);
            }
            assert(line =~= digs);
            if n < 0 {
                assert(line[0] == 45);
                assert(line.skip(1) =~= dec_digits((-n) as nat));
                assert(int_line_val(line) == n);
                assert(valid_int_line(line));
            } else {
                lemma_digit_not_special(line[0]);
                assert(int_line_val(line) == n);
                assert(valid_int_line(line));
            }
            assert(spec_decode_at(s, pos) == (SpecParse::Found {
                v: GValue::Integer(int_line_val(line)),
                end: m + 2,
            }));
        },
        GValue::BulkString(t) => {
            let body = encode_utf8(t);
            let dd = dec_digits(body.len());
            lemma_dec_digits_digits(body.len());
            lemma_dec_digits_val(body.len());
            let ll = dd.len() as int;
            let m = pos + 1 + ll;
            lemma_region_index(s, pos, e, 0);
            assert(e[0] == 36);
            assert forall|j: int| pos + 1 <= j < m implies #[trigger] s[j] != 13 by {
                lemma_region_index(s, pos, e, j - pos);
                assert(e[j - pos] == dd[j - pos - 1]);
                lemma_digit_not_special(dd[j - pos - 1]);
            }
            lemma_region_index(s, pos, e, 1 + ll);
            lemma_region_index(s, pos, e, 2 + ll);
            assert(e[1 + ll] == 13);
            assert(e[2 + ll] == 10);
            lemma_find_crlf_at(s, pos + 1, m);
            let line = s.subrange(pos + 1, m);
            assert forall|k: int| 0 <= k < ll implies line[k] == dd[k] by {
                lemma_region_index(s, pos, e, 1 + k);
                assert(e[1 + k] == dd[k]);
                assert(line[k] == s[pos + 1 + k]);
            }
            assert(line =~= dd);
            lemma_digit_not_special(dd[0]);
            if line == seq![45u8, 49u8] {
                assert(line[0] == 45);
                assert(false);
            }
            assert(valid_len_line(line));
            let len = digits_val(line) as int;
            assert(len == body.len());
            lemma_region_index(s, pos, e, 1 + ll + 2 + len);
            lemma_region_index(s, pos, e, 1 + ll + 2 + len + 1);
            assert(e[1 + ll + 2 + len] == 13);
            assert(e[1 + ll + 2 + len + 1] == 10);
            assert(s[m + 2 + len] == 13);
            assert(s[m + 2 + len + 1] == 10);
            assert forall|k: int| 0 <= k < len implies s.subrange(m + 2, m + 2 + len)[k]
                == body[k] by {
                lemma_region_index(s, pos, e, 1 + ll + 2 + k);
                assert(e[1 + ll + 2 + k] == body[k]);
                assert(s.subrange(m + 2, m + 2 + len)[k] == s[m + 2 + k]);
            }
            assert(s.subrange(m + 2, m + 2 + len) =~= body);
            assert(decode_utf8(body) == t);
            assert(spec_decode_at(s, pos) == (SpecParse::Found {
                v: GValue::BulkString(t),
                end: m + 2 + len + 2,
            }));
        },
        GValue::Array(es) => {
            let dd = dec_digits(es.len());
            lemma_dec_digits_digits(es.len());
            lemma_dec_digits_val(es.len());
            let ll = dd.len() as int;
            let m = pos + 1 + ll;
            lemma_region_index(s, pos, e, 0);
            assert(e[0] == 42);
            assert forall|j: int| pos + 1 <= j < m implies #[trigger] s[j] != 13 by {
                lemma_region_index(s, pos, e, j - pos);
                assert(e[j - pos] == dd[j - pos - 1]);
                lemma_digit_not_special(dd[j - pos - 1]);
            }
            lemma_region_index(s, pos, e, 1 + ll);
            lemma_region_index(s, pos, e, 2 + ll);
            assert(e[1 + ll] == 13);
            assert(e[2 + ll] == 10);
            lemma_find_crlf_at(s, pos + 1, m);
            let line = s.subrange(pos + 1, m);
            assert forall|k: int| 0 <= k < ll implies line[k] == dd[k] by {
                lemma_region_index(s, pos, e, 1 + k);
                assert(e[1 + k] == dd[k]);
                assert(line[k] == s[pos + 1 + k]);
            }
            assert(line =~= dd);
            lemma_digit_not_special(dd[0]);
            if line == seq![45u8, 49u8] {
                assert(line[0] == 45);
                assert(false);
            }
            assert(valid_len_line(line));
            let body = encoding_seq(es);
            let blen = body.len() as int;
            assert forall|k: int| 0 <= k < blen implies s.subrange(m + 2, m + 2 + blen)[k]
                == body[k] by {
                lemma_region_index(s, pos, e, 1 + ll + 2 + k);
                assert(e[1 + ll + 2 + k] == body[k]);
                assert(s.subrange(m + 2, m + 2 + blen)[k] == s[m + 2 + k]);
            }
            assert(s.subrange(m + 2, m + 2 + blen) =~= body);
            lemma_decode_list_encoding(es, s, m + 2);
            assert(digits_val(line) == es.len());
            assert(spec_decode_list(s, m + 2, digits_val(line)) == (SpecParseList::FoundList {
                elems: es,
                end: m + 2 + blen,
            }));
            assert(spec_decode_at(s, pos) == (SpecParse::Found {
                v: GValue::Array(es),
                end: m + 2 + blen,
            }));
        },
        GValue::Null => {
            lemma_region_index(s, pos, e, 0);
            lemma_region_index(s, pos, e, 1);
            lemma_region_index(s, pos, e, 2);
            lemma_region_index(s, pos, e, 3);
            lemma_region_index(s, pos, e, 4);
            assert(e[0] == 36);
            assert(e[1] == 45);
            assert(e[2] == 49);
            assert(e[3] == 13);
            assert(e[4] == 10);
            lemma_find_crlf_at(s, pos + 1, pos + 3);
            assert(s.subrange(pos + 1, pos + 3) =~= seq![45u8, 49u8]);
        },
        GValue::NullArray => {
            lemma_region_index(s, pos, e, 0);
            lemma_region_index(s, pos, e, 1);
            lemma_region_index(s, pos, e, 2);
            lemma_region_index(s, pos, e, 3);
            lemma_region_index(s, pos, e, 4);
            assert(e[0] == 42);
            assert(e[1] == 45);
            assert(e[2] == 49);
            assert(e[3] == 13);
            assert(e[4] == 10);
            lemma_find_crlf_at(s, pos + 1, pos + 3);
            assert(s.subrange(pos + 1, pos + 3) =~= seq![45u8, 49u8]);
        },
        _ => {
            assert(false);
        },
    }
}

/// Decoding a run of positions covered exactly by the encodings of a
/// sequence of well-formed values yields those values in order.
pub proof fn lemma_decode_list_encoding(gs: Seq<GValue>, s: Seq<u8>, pos: int)
    requires
        forall|i: int| 0 <= i < gs.len() ==> wf(#[trigger] gs[i]),
        0 <= pos,
        pos + encoding_seq(gs).len() <= s.len(),
        s.subrange(pos, pos + encoding_seq(gs).len() as int) == encoding_seq(gs),
    ensures
        spec_decode_list(s, pos, gs.len()) == (SpecParseList::FoundList {
            elems: gs,
            end: pos + encoding_seq(gs).len(),
        }),
    decreases gs,
{
    if gs.len() == 0 {
        assert(gs =~= Seq::<GValue>::empty());
    } else {
        let whole = encoding_seq(gs);
        let wlen = whole.len() as int;
        let g0 = gs[0];
        let rest = gs.drop_first();
        let e0 = encoding(g0);
        let e0len = e0.len() as int;
        assert(whole == e0 + encoding_seq(rest));
        assert(wf(g0));
        lemma_encoding_len(g0);
        assert forall|k: int| 0 <= k < e0len implies s.subrange(pos, pos + e0len)[k] == e0[k] by {
            lemma_region_index(s, pos, whole, k);
            assert(whole[k] == e0[k]);
            assert(s.subrange(pos, pos + e0len)[k] == s[pos + k]);
        }
        assert(s.subrange(pos, pos + e0len) =~= e0);
        lemma_decode_encoding_at(g0, s, pos);
        let mid = pos + e0len;
        let rbody = encoding_seq(rest);
        let rlen = rbody.len() as int;
        assert forall|k: int| 0 <= k < rlen implies s.subrange(mid, mid + rlen)[k] == rbody[k] by {
            lemma_region_index(s, pos, whole, e0len + k);
            assert(whole[e0len + k] == rbody[k]);
            assert(s.subrange(mid, mid + rlen)[k] == s[mid + k]);
        }
        assert(s.subrange(mid, mid + rlen) =~= rbody);
        lemma_decode_list_encoding(rest, s, mid);
        assert(seq![g0] + rest =~= gs);
        assert(spec_decode_list(s, pos, gs.len()) == (SpecParseList::FoundList {
            elems: gs,
            end: pos + wlen,
        }));
    }
}

/// The round-trip law: decoding the encoding of any well-formed value
/// gives back exactly that value, consuming the whole encoding.
pub proof fn lemma_round_trip(g: GValue)
    requires
        wf(g),
    ensures
        spec_decode_at(encoding(g), 0) == (SpecParse::Found {
            v: g,
            end: encoding(g).len() as int,
        }),
{
    let e = encoding(g);
    assert(e.subrange(0, e.len() as int) =~= e);
    lemma_decode_encoding_at(g, e, 0);
}

/// The header-line bytes of the encoding of a well-formed value: the count
/// of bytes between the tag and the first CRLF, none of which is a
/// carriage return.
spec fn header_len(g: GValue) -> int {
    match g {
        GValue::SimpleString(t) => encode_utf8(t).len() as int,
        GValue::SimpleError(t) => encode_utf8(t).len() as int,
        GValue::Integer(n) => int_digits(n).len() as int,
        GValue::BulkString(t) => dec_digits(encode_utf8(t).len()).len() as int,
        GValue::Array(es) => dec_digits(es.len()).len() as int,
        GValue::Null => 2,
        GValue::NullArray => 2,
        _ => 0,
    }
}

/// In the encoding of a well-formed value, the bytes after the tag up to
/// the header terminator are free of carriage returns, and the terminator
/// follows them.
proof fn lemma_encoding_header(g: GValue)
    requires
        wf(g),
    ensures
        1 + header_len(g) + 2 <= encoding(g).len(),
        forall|i: int| 1 <= i <= header_len(g) ==> #[trigger] encoding(g)[i] != 13,
        encoding(g)[1 + header_len(g)] == 13,
        encoding(g)[1 + header_len(g) + 1] == 10,
{
    let e = encoding(g);
    let hl = header_len(g);
    match g {
        GValue::SimpleString(t) => {
            lemma_no_cr_bytes(t);
            assert forall|i: int| 1 <= i <= hl implies #[trigger] e[i] != 13 by {
                assert(e[i] == encode_utf8(t)[i - 1]);
            }
        },
        GValue::SimpleError(t) => {
            lemma_no_cr_bytes(t);
            assert forall|i: int| 1 <= i <= hl implies #[trigger] e[i] != 13 by {
                assert(e[i] == encode_utf8(t)[i - 1]);
            }
        },
        GValue::Integer(n) => {
            if n < 0 {
                lemma_dec_digits_digits((-n) as nat);
            } else {
                lemma_dec_digits_digits(n as nat);
            }
            assert forall|i: int| 1 <= i <= hl implies #[trigger] e[i] != 13 by {
                assert(e[i] == int_digits(n)[i - 1]);
                if n < 0 {
                    if i - 1 > 0 {
                        assert(int_digits(n)[i - 1] == dec_digits((-n) as nat)[i - 2]);
                        lemma_digit_not_special(int_digits(n)[i - 1]);
                    }
                } else {
                    lemma_digit_not_special(int_digits(n)[i - 1]);
                }
            }
        },
        GValue::BulkString(t) => {
            lemma_dec_digits_digits(encode_utf8(t).len());
            assert forall|i: int| 1 <= i <= hl implies #[trigger] e[i] != 13 by {
                assert(e[i] == dec_digits(encode_utf8(t).len())[i - 1]);
                lemma_digit_not_special(dec_digits(encode_utf8(t).len())[i - 1]);
            }
        },
        GValue::Array(es) => {
            lemma_dec_digits_digits(es.len());
            assert forall|i: int| 1 <= i <= hl implies #[trigger] e[i] != 13 by {
                assert(e[i] == dec_digits(es.len())[i - 1]);
                lemma_digit_not_special(dec_digits(es.len())[i - 1]);
            }
        },
        GValue::Null => {
            assert(e[1] == 45);
            assert(e[2] == 49);
        },
        GValue::NullArray => {
            assert(e[1] == 45);
            assert(e[2] == 49);
        },
        _ => {
            assert(false);
        },
    }
}

/// Decoding where the buffer ends inside the encoding of a well-formed
/// value reports `Incomplete`: a split frame is never mistaken for a
/// complete or a malformed one.
pub proof fn lemma_decode_prefix_incomplete(g: GValue, s: Seq<u8>, pos: int)
    requires
        wf(g),
        0 <= pos <= s.len(),
        s.len() - pos < encoding(g).len(),
        s.subrange(pos, s.len() as int) == encoding(g).take(s.len() - pos),
    ensures
        spec_decode_at(s, pos) is Incomplete,
    decreases g,
{
    let e = encoding(g);
    let elen = e.len() as int;
    let r = s.len() - pos;
    let part = e.take(r);
    if r == 0 {
        // nothing of the frame is buffered yet
        assert(spec_decode_at(s, pos) is Incomplete);
    } else {
        assert forall|k: int| 0 <= k < r implies s[pos + k] == e[k] by {
            lemma_region_index(s, pos, part, k);
            assert(part[k] == e[k]);
        }
        lemma_encoding_header(g);
        let hl = header_len(g);
        lemma_region_index(s, pos, part, 0);
        assert(s[pos] == e[0]);
        if r <= hl + 2 {
            assert forall|j: int|
                pos + 1 <= j && j + 2 <= s.len() implies !(#[trigger] s[j] == 13 && s[j + 1]
                == 10) by {
                assert(s[j] == e[j - pos]);
                assert(1 <= j - pos <= r - 2);
                assert(e[j - pos] != 13);
            }
            lemma_find_crlf_none(s, pos + 1);
            assert(spec_decode_at(s, pos) is Incomplete);
        } else {
            let m = pos + 1 + hl;
            assert forall|j: int| pos + 1 <= j < m implies #[trigger] s[j] != 13 by {
                assert(s[j] == e[j - pos]);
                assert(e[j - pos] != 13);
            }
            assert(s[m] == e[1 + hl]);
            assert(s[m + 1] == e[1 + hl + 1]);
            lemma_find_crlf_at(s, pos + 1, m);
            let line = s.subrange(pos + 1, m);
            assert forall|k: int| 0 <= k < hl implies line[k] == e[1 + k] by {
                assert(line[k] == s[pos + 1 + k]);
                assert(s[pos + (1 + k)] == e[1 + k]);
            }
            match g {
                GValue::BulkString(t) => {
                    let body = encode_utf8(t);
                    let dd = dec_digits(body.len());
                    lemma_dec_digits_digits(body.len());
                    lemma_dec_digits_val(body.len());
                    assert forall|k: int| 0 <= k < hl implies line[k] == dd[k] by {
                        assert(line[k] == e[1 + k]);
                        assert(e[1 + k] == dd[k]);
                    }
                    assert(line =~= dd);
                    lemma_digit_not_special(dd[0]);
                    if line == seq![45u8, 49u8] {
                        assert(line[0] == 45);
                        assert(false);
                    }
                    assert(valid_len_line(line));
                    let len = digits_val(line) as int;
                    assert(len == body.len());
                    assert(s.len() < m + 2 + len + 2);
                    assert(spec_decode_at(s, pos) is Incomplete);
                },
                GValue::Array(es) => {
                    let dd = dec_digits(es.len());
                    lemma_dec_digits_digits(es.len());
                    lemma_dec_digits_val(es.len());
                    assert forall|k: int| 0 <= k < hl implies line[k] == dd[k] by {
                        assert(line[k] == e[1 + k]);
                        assert(e[1 + k] == dd[k]);
                    }
                    assert(line =~= dd);
                    lemma_digit_not_special(dd[0]);
                    if line == seq![45u8, 49u8] {
                        assert(line[0] == 45);
                        assert(false);
                    }
                    assert(valid_len_line(line));
                    let body = encoding_seq(es);
                    let sub = s.len() - (m + 2);
                    assert(sub < body.len());
                    assert forall|k: int| 0 <= k < sub implies s.subrange(m + 2, s.len() as int)[k]
                        == body.take(sub)[k] by {
                        assert(s.subrange(m + 2, s.len() as int)[k] == s[m + 2 + k]);
                        assert(s[pos + (1 + hl + 2 + k)] == e[1 + hl + 2 + k]);
                        assert(e[1 + hl + 2 + k] == body[k]);
                    }
                    assert(s.subrange(m + 2, s.len() as int) =~= body.take(sub));
                    lemma_decode_list_prefix_incomplete(es, s, m + 2);
                    assert(spec_decode_at(s, pos) is Incomplete);
                },
                _ => {
                    // for the single-line frames the whole encoding is the
                    // header plus its terminator, so the buffer cannot
                    // reach past it here
                    assert(elen == 1 + hl + 2);
                    assert(false);
                },
            }
        }
    }
}

/// Decoding a run that ends inside the encodings of a sequence of
/// well-formed values reports `Incomplete`.
pub proof fn lemma_decode_list_prefix_incomplete(gs: Seq<GValue>, s: Seq<u8>, pos: int)
    requires
        forall|i: int| 0 <= i < gs.len() ==> wf(#[trigger] gs[i]),
        0 <= pos <= s.len(),
        s.len() - pos < encoding_seq(gs).len(),
        s.subrange(pos, s.len() as int) == encoding_seq(gs).take(s.len() - pos),
    ensures
        spec_decode_list(s, pos, gs.len()) is IncompleteList,
    decreases gs,
{
    let whole = encoding_seq(gs);
    let r = s.len() - pos;
    let part = whole.take(r);
    assert(gs.len() > 0);
    assert forall|k: int| 0 <= k < r implies s[pos + k] == whole[k] by {
        lemma_region_index(s, pos, part, k);
        assert(part[k] == whole[k]);
    }
    let g0 = gs[0];
    let rest = gs.drop_first();
    let e0 = encoding(g0);
    let e0len = e0.len() as int;
    assert(whole == e0 + encoding_seq(rest));
    assert(wf(g0));
    lemma_encoding_len(g0);
    if r < e0len {
        assert forall|k: int| 0 <= k < r implies s.subrange(pos, s.len() as int)[k]
            == e0.take(r)[k] by {
            assert(s.subrange(pos, s.len() as int)[k] == s[pos + k]);
            assert(whole[k] == e0[k]);
        }
        assert(s.subrange(pos, s.len() as int) =~= e0.take(r));
        lemma_decode_prefix_incomplete(g0, s, pos);
        assert(spec_decode_list(s, pos, gs.len()) is IncompleteList);
    } else {
        assert forall|k: int| 0 <= k < e0len implies s.subrange(pos, pos + e0len)[k] == e0[k] by {
            assert(s.subrange(pos, pos + e0len)[k] == s[pos + k]);
            assert(whole[k] == e0[k]);
        }
        assert(s.subrange(pos, pos + e0len) =~= e0);
        lemma_decode_encoding_at(g0, s, pos);
        let mid = pos + e0len;
        let rbody = encoding_seq(rest);
        let sub = s.len() - mid;
        assert(sub < rbody.len());
        assert forall|k: int| 0 <= k < sub implies s.subrange(mid, s.len() as int)[k]
            == rbody.take(sub)[k] by {
            assert(s.subrange(mid, s.len() as int)[k] == s[mid + k]);
            assert(s[pos + (e0len + k)] == whole[e0len + k]);
            assert(whole[e0len + k] == rbody[k]);
        }
        assert(s.subrange(mid, s.len() as int) =~= rbody.take(sub));
        lemma_decode_list_prefix_incomplete(rest, s, mid);
        assert(spec_decode_list(s, pos, gs.len()) is IncompleteList);
    }
}

/// Draining a buffer holding exactly one well-formed encoding yields that
/// one value and leaves the buffer empty.
pub proof fn lemma_extract_single(g: GValue)
    requires
        wf(g),
    ensures
        spec_extract(encoding(g)) == (ExtractResult {
            frames: seq![g],
            rest: Seq::<u8>::empty(),
            error: None::<MalformedKind>,
        }),
{
    let e = encoding(g);
    let elen = e.len() as int;
    lemma_round_trip(g);
    lemma_encoding_len(g);
    let tail = e.subrange(elen, elen);
    assert(tail =~= Seq::<u8>::empty());
    assert(spec_decode_at(tail, 0) is Incomplete);
    assert(spec_extract(tail).frames =~= Seq::<GValue>::empty());
    assert(seq![g] + Seq::<GValue>::empty() =~= seq![g]);
}

/// Incremental feeding: split the encoding of a well-formed value at any
/// byte boundary; the first part alone leaves the framer waiting with
/// nothing emitted and nothing lost, and the two parts together yield
/// exactly the value, as one whole read would.
pub proof fn lemma_incremental_feed(g: GValue, k: int)
    requires
        wf(g),
        0 <= k < encoding(g).len(),
    ensures
        spec_extract(encoding(g).take(k)) == (ExtractResult {
            frames: Seq::<GValue>::empty(),
            rest: encoding(g).take(k),
            error: None::<MalformedKind>,
        }),
        spec_extract(encoding(g).take(k) + encoding(g).skip(k)) == (ExtractResult {
            frames: seq![g],
            rest: Seq::<u8>::empty(),
            error: None::<MalformedKind>,
        }),
{
    let e = encoding(g);
    let part = e.take(k);
    assert(part.subrange(0, part.len() as int) =~= e.take(part.len() - 0));
    lemma_decode_prefix_incomplete(g, part, 0);
    assert(e.take(k) + e.skip(k) =~= e);
    lemma_extract_single(g);
}

/// Pipelining: a buffer holding two well-formed encodings back to back
/// yields exactly the two values, in order, and leaves the buffer empty.
pub proof fn lemma_pipelining(g1: GValue, g2: GValue)
    requires
        wf(g1),
        wf(g2),
    ensures
        spec_extract(encoding(g1) + encoding(g2)) == (ExtractResult {
            frames: seq![g1, g2],
            rest: Seq::<u8>::empty(),
            error: None::<MalformedKind>,
        }),
{
    let s = encoding(g1) + encoding(g2);
    let l1 = encoding(g1).len() as int;
    lemma_encoding_len(g1);
    lemma_encoding_len(g2);
    assert(s.subrange(0, l1) =~= encoding(g1));
    lemma_decode_encoding_at(g1, s, 0);
    assert(s.subrange(l1, s.len() as int) =~= encoding(g2));
    lemma_extract_single(g2);
    assert(seq![g1] + seq![g2] =~= seq![g1, g2]);
    assert(spec_extract(s).frames == seq![g1] + spec_extract(encoding(g2)).frames);
}

/// A found frame always advances the cursor and lies inside the buffer:
/// the guarded branches of `spec_decode_list` and `spec_extract` that
/// stand for the opposite are never reached.
pub proof fn lemma_decode_found_bounds(s: Seq<u8>, pos: int)
    requires
        0 <= pos,
    ensures
        spec_decode_at(s, pos) matches SpecParse::Found { end, .. } ==> pos < end <= s.len(),
    decreases s.len() - pos, 0int,
{
    if pos < s.len() {
        lemma_find_crlf_bounds(s, pos + 1);
        if s[pos] == 42 {
            match spec_find_crlf(s, pos + 1) {
                Some(m) => {
                    let line = s.subrange(pos + 1, m);
                    if line != seq![45u8, 49u8] && valid_len_line(line) {
                        lemma_decode_list_found_bounds(s, m + 2, digits_val(line));
                    }
                },
                None => {},
            }
        }
    }
}

/// A found run of frames never moves the cursor backwards and stays
/// inside the buffer.
pub proof fn lemma_decode_list_found_bounds(s: Seq<u8>, pos: int, count: nat)
    requires
        0 <= pos <= s.len(),
    ensures
        spec_decode_list(s, pos, count) matches SpecParseList::FoundList { end, .. } ==> pos <= end
            <= s.len(),
    decreases s.len() - pos, count,
{
    if count > 0 {
        lemma_decode_found_bounds(s, pos);
        match spec_decode_at(s, pos) {
            SpecParse::Found { v, end } => {
                if pos < end <= s.len() {
                    lemma_decode_list_found_bounds(s, end, (count - 1) as nat);
                }
            },
            _ => {},
        }
    }
}

} // verus!
