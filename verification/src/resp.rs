//! The RESP value model and its wire encoding.
//!
//! `RESPValues` is the tagged union of every frame shape the protocol can
//! carry.  Its mathematical view is `GValue`, with text payloads as
//! character sequences; the wire form of a value is a byte sequence,
//! specified by `encoding`, with every declared length counted in bytes of
//! the payload's UTF-8 form.  The executable encoder is proved to produce
//! exactly that byte sequence.

use vstd::prelude::*;
use vstd::string::StringSliceAdditionalSpecFns;
use vstd::utf8::{
    char_u32_cast, decode_utf8, encode_scalar, encode_utf8, encode_utf8_valid_utf8,
    has_width_1_encoding, has_width_2_encoding, has_width_3_encoding, is_leading_byte_width_1,
    last_continuation_byte, leading_byte_width_1, leading_byte_width_2, leading_byte_width_3,
    leading_byte_width_4, second_last_continuation_byte, third_last_continuation_byte,
    utf8_byte_ranges_bitwise, valid_first_scalar, valid_utf8, valid_utf8_concat,
};

verus! {

/// A RESP value.
///
/// The first five variants plus the two null markers are the RESP2 core
/// set and are fully supported by the encoder and decoder; `Null` is the
/// null bulk string `$-1`, `NullArray` the null array `*-1`, and the two
/// round-trip distinctly.  The remaining variants name the RESP3 tags;
/// they are stubs: nothing constructs them, and the encoder reports them
/// as unsupported.
#[derive(PartialEq, Debug)]
pub enum RESPValues {
    SimpleString(String),
    SimpleError(String),
    Integer(i64),
    BulkString(String),
    Array(Vec<RESPValues>),
    Null,
    NullArray,
    Boolean,
    Double,
    BigNumber,
    BulkError,
    VerbatimString,
    MapValue,
    SetValue,
    PushValue,
}

/// The mathematical form of a RESP value: text as character sequences,
/// integers unbounded, arrays as sequences.  Contracts speak of
/// `RESPValues` through this view.
pub ghost enum GValue {
    SimpleString(Seq<char>),
    SimpleError(Seq<char>),
    Integer(int),
    BulkString(Seq<char>),
    Array(Seq<GValue>),
    Null,
    NullArray,
    Boolean,
    Double,
    BigNumber,
    BulkError,
    VerbatimString,
    MapValue,
    SetValue,
    PushValue,
}

/// The view of a RESP value: each payload replaced by its own view.
pub open spec fn value_view(v: RESPValues) -> GValue
    decreases v,
{
    match v {
        RESPValues::SimpleString(s) => GValue::SimpleString(s@),
        RESPValues::SimpleError(s) => GValue::SimpleError(s@),
        RESPValues::Integer(n) => GValue::Integer(n as int),
        RESPValues::BulkString(s) => GValue::BulkString(s@),
        RESPValues::Array(elems) => GValue::Array(value_view_seq(elems@)),
        RESPValues::Null => GValue::Null,
        RESPValues::NullArray => GValue::NullArray,
        RESPValues::Boolean => GValue::Boolean,
        RESPValues::Double => GValue::Double,
        RESPValues::BigNumber => GValue::BigNumber,
        RESPValues::BulkError => GValue::BulkError,
        RESPValues::VerbatimString => GValue::VerbatimString,
        RESPValues::MapValue => GValue::MapValue,
        RESPValues::SetValue => GValue::SetValue,
        RESPValues::PushValue => GValue::PushValue,
    }
}

/// The views of a sequence of RESP values, element by element.
pub open spec fn value_view_seq(vs: Seq<RESPValues>) -> Seq<GValue>
    decreases vs,
{
    if vs.len() == 0 {
        Seq::empty()
    } else {
        seq![value_view(vs[0])] + value_view_seq(vs.drop_first())
    }
}

/// `value_view_seq` maps the view over the sequence pointwise.
pub proof fn lemma_value_view_seq(vs: Seq<RESPValues>)
    ensures
        value_view_seq(vs).len() == vs.len(),
        forall|i: int| 0 <= i < vs.len() ==> value_view_seq(vs)[i] == value_view(#[trigger] vs[i]),
    decreases vs.len(),
{
    if vs.len() > 0 {
        lemma_value_view_seq(vs.drop_first());
        assert forall|i: int| 0 <= i < vs.len() implies value_view_seq(vs)[i] == value_view(
            vs[i],
        ) by {
            if i > 0 {
                assert(vs.drop_first()[i - 1] == vs[i]);
                assert(value_view_seq(vs)[i] == value_view_seq(vs.drop_first())[i - 1]);
            }
        }
    }
}

/// Pushing one value onto a sequence pushes its view.
pub proof fn lemma_value_view_seq_push(vs: Seq<RESPValues>, v: RESPValues)
    ensures
        value_view_seq(vs.push(v)) == value_view_seq(vs).push(value_view(v)),
{
    lemma_value_view_seq(vs.push(v));
    lemma_value_view_seq(vs);
    assert forall|i: int| 0 <= i < vs.push(v).len() implies value_view_seq(vs.push(v))[i]
        == value_view_seq(vs).push(value_view(v))[i] by {
        assert(value_view_seq(vs.push(v))[i] == value_view(vs.push(v)[i]));
        if i < vs.len() {
            assert(vs.push(v)[i] == vs[i]);
            assert(value_view_seq(vs)[i] == value_view(vs[i]));
        } else {
            assert(vs.push(v)[i] == v);
        }
    }
    assert(value_view_seq(vs.push(v)) =~= value_view_seq(vs).push(value_view(v)));
}

impl View for RESPValues {
    type V = GValue;

    open spec fn view(&self) -> GValue {
        value_view(*self)
    }
}

/// The two-byte frame terminator.
pub open spec fn crlf() -> Seq<u8> {
    seq![13u8, 10u8]
}

/// A decimal digit byte.
pub open spec fn is_digit(b: u8) -> bool {
    48 <= b <= 57
}

/// The numeric value of a decimal digit byte.
pub open spec fn digit_val(b: u8) -> nat {
    (b - 48) as nat
}

/// The digit byte for `d`, for `d < 10`.
pub open spec fn digit_byte(d: nat) -> u8
    recommends
        d < 10,
{
    (48 + d) as u8
}

/// The canonical decimal digits of `n`: no sign, no leading zeros.
pub open spec fn dec_digits(n: nat) -> Seq<u8>
    decreases n,
{
    if n < 10 {
        seq![digit_byte(n)]
    } else {
        dec_digits(n / 10) + seq![digit_byte(n % 10)]
    }
}

/// The canonical decimal digits of a signed number: a `-` sign exactly when
/// negative, then the digits of the magnitude.
pub open spec fn int_digits(n: int) -> Seq<u8> {
    if n < 0 {
        seq![45u8] + dec_digits((-n) as nat)
    } else {
        dec_digits(n as nat)
    }
}

/// Whether `s` can stand on a single protocol line: no carriage return and
/// no line feed anywhere in it.
pub open spec fn line_ok(s: Seq<char>) -> bool {
    forall|i: int| 0 <= i < s.len() ==> s[i] != '\r' && s[i] != '\n'
}

/// Whether the encoder supports `g`: every variant of the RESP2 core set,
/// recursively through arrays.  The RESP3 stub variants are not supported.
pub open spec fn supported(g: GValue) -> bool
    decreases g,
{
    match g {
        GValue::SimpleString(_) => true,
        GValue::SimpleError(_) => true,
        GValue::Integer(_) => true,
        GValue::BulkString(_) => true,
        GValue::Array(elems) => forall|i: int|
            0 <= i < elems.len() ==> supported(#[trigger] elems[i]),
        GValue::Null => true,
        GValue::NullArray => true,
        _ => false,
    }
}

/// Whether `g` is well formed: supported, integers within the signed
/// 64-bit range, every single-line payload free of embedded CR and LF, and
/// every byte length one the machine can hold.  The view of every value
/// built from machine strings and vectors meets the length bounds;
/// well-formed values round-trip through encode and decode.
pub open spec fn wf(g: GValue) -> bool
    decreases g,
{
    match g {
        GValue::SimpleString(s) => line_ok(s),
        GValue::SimpleError(s) => line_ok(s),
        GValue::Integer(n) => i64::MIN <= n <= i64::MAX,
        GValue::BulkString(s) => encode_utf8(s).len() <= usize::MAX,
        GValue::Array(elems) => elems.len() <= usize::MAX && forall|i: int|
            0 <= i < elems.len() ==> wf(#[trigger] elems[i]),
        GValue::Null => true,
        GValue::NullArray => true,
        _ => false,
    }
}

/// The wire encoding of a supported value, as bytes.  Text payloads are
/// carried in UTF-8, and a bulk string's declared length counts the bytes
/// of that form.
pub open spec fn encoding(g: GValue) -> Seq<u8>
    decreases g,
{
    match g {
        GValue::SimpleString(s) => seq![43u8] + encode_utf8(s) + crlf(),
        GValue::SimpleError(s) => seq![45u8] + encode_utf8(s) + crlf(),
        GValue::Integer(n) => seq![58u8] + int_digits(n) + crlf(),
        GValue::BulkString(s) => seq![36u8] + dec_digits(encode_utf8(s).len()) + crlf()
            + encode_utf8(s) + crlf(),
        GValue::Array(elems) => seq![42u8] + dec_digits(elems.len()) + crlf() + encoding_seq(
            elems,
        ),
        GValue::Null => seq![36u8, 45u8, 49u8] + crlf(),
        GValue::NullArray => seq![42u8, 45u8, 49u8] + crlf(),
        _ => Seq::empty(),
    }
}

/// The concatenated encodings of a sequence of values, in order.
pub open spec fn encoding_seq(vs: Seq<GValue>) -> Seq<u8>
    decreases vs,
{
    if vs.len() == 0 {
        Seq::empty()
    } else {
        encoding(vs[0]) + encoding_seq(vs.drop_first())
    }
}

/// Appending one value to a sequence appends its encoding.
pub proof fn lemma_encoding_seq_push(vs: Seq<GValue>, g: GValue)
    ensures
        encoding_seq(vs.push(g)) == encoding_seq(vs) + encoding(g),
    decreases vs.len(),
{
    if vs.len() == 0 {
        assert(vs.push(g).drop_first() =~= Seq::<GValue>::empty());
        assert(vs.push(g)[0] == g);
        assert(encoding_seq(vs.push(g)) == encoding(g) + encoding_seq(Seq::<GValue>::empty()));
        assert(encoding_seq(vs.push(g)) =~= encoding_seq(vs) + encoding(g));
    } else {
        assert(vs.push(g).drop_first() =~= vs.drop_first().push(g));
        lemma_encoding_seq_push(vs.drop_first(), g);
        assert(encoding_seq(vs.push(g)) =~= encoding_seq(vs) + encoding(g));
    }
}

/// The canonical digits of a number: nonempty, and digit bytes throughout.
pub proof fn lemma_dec_digits_digits(n: nat)
    ensures
        dec_digits(n).len() >= 1,
        forall|i: int| 0 <= i < dec_digits(n).len() ==> is_digit(#[trigger] dec_digits(n)[i]),
    decreases n,
{
    if n >= 10 {
        lemma_dec_digits_digits(n / 10);
        assert forall|i: int| 0 <= i < dec_digits(n).len() implies is_digit(
            #[trigger] dec_digits(n)[i],
        ) by {
            if i < dec_digits(n / 10).len() {
                assert(dec_digits(n)[i] == dec_digits(n / 10)[i]);
            } else {
                assert(dec_digits(n)[i] == digit_byte(n % 10));
            }
        }
    }
}

/// Every byte of `b` is plain ASCII.
pub open spec fn all_ascii(b: Seq<u8>) -> bool {
    forall|i: int| 0 <= i < b.len() ==> #[trigger] b[i] < 0x80
}

/// A run of ASCII bytes is valid UTF-8.
pub proof fn lemma_ascii_valid_utf8(b: Seq<u8>)
    requires
        all_ascii(b),
    ensures
        valid_utf8(b),
    decreases b.len(),
{
    broadcast use utf8_byte_ranges_bitwise;

    if b.len() > 0 {
        let b0 = b[0];
        assert(b0 & 0x80 == 0 && (b0 & 0x7F) as u32 <= 0x7F && b0 & 0x7F == b0) by (bit_vector)
            requires
                b0 < 0x80,
        ;
        assert(is_leading_byte_width_1(b0));
        assert(valid_first_scalar(b));
        assert(vstd::utf8::pop_first_scalar(b) =~= b.drop_first());
        lemma_ascii_valid_utf8(b.drop_first());
    }
}

/// The UTF-8 form of a text with no carriage return holds no carriage
/// return byte: multi-byte characters use only bytes at or above 0x80.
pub proof fn lemma_no_cr_bytes(t: Seq<char>)
    requires
        forall|i: int| 0 <= i < t.len() ==> #[trigger] t[i] != '\r',
    ensures
        forall|i: int| 0 <= i < encode_utf8(t).len() ==> #[trigger] encode_utf8(t)[i] != 13,
    decreases t.len(),
{
    if t.len() > 0 {
        let c = t[0] as u32;
        let first = encode_scalar(c);
        assert forall|i: int| 0 <= i < first.len() implies #[trigger] first[i] != 13 by {
            if has_width_1_encoding(c) {
                if first[0] == 13 {
                    assert(c == 13) by (bit_vector)
                        requires
                            c <= 0x7F,
                            leading_byte_width_1(c) == 13,
                    ;
                    char_u32_cast(t[0], c);
                    char_u32_cast('\r', 13);
                    assert(t[0] == '\r');
                    assert(false);
                }
            } else if has_width_2_encoding(c) {
                assert(leading_byte_width_2(c) >= 0xC0 && last_continuation_byte(c)
                    >= 0x80) by (bit_vector);
            } else if has_width_3_encoding(c) {
                assert(leading_byte_width_3(c) >= 0xC0 && last_continuation_byte(c) >= 0x80
                    && second_last_continuation_byte(c) >= 0x80) by (bit_vector);
            } else {
                assert(leading_byte_width_4(c) >= 0xC0 && last_continuation_byte(c) >= 0x80
                    && second_last_continuation_byte(c) >= 0x80 && third_last_continuation_byte(c)
                    >= 0x80) by (bit_vector);
            }
        }
        lemma_no_cr_bytes(t.drop_first());
        assert forall|i: int| 0 <= i < encode_utf8(t).len() implies #[trigger] encode_utf8(
            t,
        )[i] != 13 by {
            if i < first.len() {
                assert(encode_utf8(t)[i] == first[i]);
            } else {
                assert(encode_utf8(t)[i] == encode_utf8(t.drop_first())[i - first.len()]);
            }
        }
    }
}

/// A single-line frame is valid UTF-8: an ASCII tag, a UTF-8 body, and
/// the terminator.
proof fn lemma_line_frame_valid(tag: u8, body: Seq<char>)
    requires
        tag < 0x80,
    ensures
        valid_utf8(seq![tag] + encode_utf8(body) + crlf()),
{
    let a = seq![tag];
    let b = encode_utf8(body);
    let c = crlf();
    lemma_ascii_valid_utf8(a);
    encode_utf8_valid_utf8(body);
    lemma_ascii_valid_utf8(c);
    valid_utf8_concat(a, b);
    valid_utf8_concat(a + b, c);
}

/// The encoding of a supported value is valid UTF-8: its framing bytes are
/// ASCII and its payloads are carried in UTF-8 form.
pub proof fn lemma_encoding_valid_utf8(g: GValue)
    requires
        supported(g),
    ensures
        valid_utf8(encoding(g)),
    decreases g,
{
    broadcast use encode_utf8_valid_utf8;
    broadcast use valid_utf8_concat;

    match g {
        GValue::SimpleString(s) => {
            lemma_line_frame_valid(43u8, s);
            assert(encoding(g) == seq![43u8] + encode_utf8(s) + crlf());
            assert(valid_utf8(encoding(g)));
        },
        GValue::SimpleError(s) => {
            lemma_line_frame_valid(45u8, s);
            assert(encoding(g) == seq![45u8] + encode_utf8(s) + crlf());
            assert(valid_utf8(encoding(g)));
        },
        GValue::Integer(n) => {
            if n < 0 {
                lemma_dec_digits_digits((-n) as nat);
            } else {
                lemma_dec_digits_digits(n as nat);
            }
            lemma_ascii_valid_utf8(seq![58u8] + int_digits(n) + crlf());
            assert(encoding(g) =~= seq![58u8] + int_digits(n) + crlf());
            assert(valid_utf8(encoding(g)));
        },
        GValue::BulkString(s) => {
            lemma_dec_digits_digits(encode_utf8(s).len());
            let header = seq![36u8] + dec_digits(encode_utf8(s).len()) + crlf();
            lemma_ascii_valid_utf8(header);
            lemma_ascii_valid_utf8(crlf());
            encode_utf8_valid_utf8(s);
            valid_utf8_concat(encode_utf8(s), crlf());
            valid_utf8_concat(header, encode_utf8(s) + crlf());
            assert(encoding(g) =~= header + (encode_utf8(s) + crlf()));
            assert(valid_utf8(encoding(g)));
        },
        GValue::Array(elems) => {
            lemma_dec_digits_digits(elems.len());
            let header = seq![42u8] + dec_digits(elems.len()) + crlf();
            lemma_ascii_valid_utf8(header);
            lemma_encoding_seq_valid_utf8(elems);
            valid_utf8_concat(header, encoding_seq(elems));
            assert(encoding(g) =~= header + encoding_seq(elems));
            assert(valid_utf8(encoding(g)));
        },
        GValue::Null => {
            lemma_ascii_valid_utf8(seq![36u8, 45u8, 49u8] + crlf());
            assert(encoding(g) =~= seq![36u8, 45u8, 49u8] + crlf());
            assert(valid_utf8(encoding(g)));
        },
        GValue::NullArray => {
            lemma_ascii_valid_utf8(seq![42u8, 45u8, 49u8] + crlf());
            assert(encoding(g) =~= seq![42u8, 45u8, 49u8] + crlf());
            assert(valid_utf8(encoding(g)));
        },
        _ => {
            assert(false);
        },
    }
}

/// The concatenated encodings of supported values are valid UTF-8.
pub proof fn lemma_encoding_seq_valid_utf8(gs: Seq<GValue>)
    requires
        forall|i: int| 0 <= i < gs.len() ==> supported(#[trigger] gs[i]),
    ensures
        valid_utf8(encoding_seq(gs)),
    decreases gs,
{
    broadcast use valid_utf8_concat;

    if gs.len() > 0 {
        lemma_encoding_valid_utf8(gs[0]);
        lemma_encoding_seq_valid_utf8(gs.drop_first());
    }
}

/// The error the encoder reports on a RESP3 stub variant.
#[derive(PartialEq, Eq, Structural, Debug, Clone, Copy)]
pub enum EncodeError {
    Unsupported,
}

/// Turns UTF-8 bytes back into an owned string.
///
/// Relies on std's `str::from_utf8`: it succeeds exactly on valid UTF-8,
/// and the characters of the result are the UTF-8 decoding of the input.
#[verifier::external_body]
pub(crate) fn utf8_to_string(v: &[u8]) -> (r: Option<String>)
    ensures
        r matches Some(s) ==> valid_utf8(v@) && s@ == decode_utf8(v@),
        r is None ==> !valid_utf8(v@),
{
    match std::str::from_utf8(v) {
        Ok(s) => Some(s.to_owned()),
        Err(_) => None,
    }
}

/// Appends the UTF-8 bytes of `s` to `out`.
#[verifier::loop_isolation(false)]
fn push_str_bytes(out: &mut Vec<u8>, s: &str)
    ensures
        final(out)@ == old(out)@ + encode_utf8(s@),
{
    let bytes = s.as_bytes();
    proof {
        assert(bytes@ == encode_utf8(s@));
    }
    let mut i: usize = 0;
    while i < bytes.len()
        invariant
            i <= bytes@.len(),
            out@ == old(out)@ + bytes@.take(i as int),
        decreases bytes@.len() - i,
    {
        out.push(bytes[i]);
        proof {
            assert(old(out)@ + bytes@.take(i as int) + seq![bytes@[i as int]] =~= old(out)@
                + bytes@.take(i as int + 1));
        }
        i += 1;
    }
    proof {
        assert(bytes@.take(bytes@.len() as int) =~= bytes@);
    }
}

/// Appends the canonical decimal digits of `n` to `out`.
fn push_decimal(out: &mut Vec<u8>, n: u64)
    ensures
        final(out)@ == old(out)@ + dec_digits(n as nat),
    decreases n,
{
    if n >= 10 {
        push_decimal(out, n / 10);
        let d: u8 = (48 + (n % 10)) as u8;
        out.push(d);
        proof {
            assert(out@ =~= old(out)@ + dec_digits(n as nat));
        }
    } else {
        let d: u8 = (48 + n) as u8;
        out.push(d);
        proof {
            assert(out@ =~= old(out)@ + dec_digits(n as nat));
        }
    }
}

/// If an array value is supported, so is each of its elements.
proof fn lemma_array_supported_index(views: Seq<GValue>, i: int)
    requires
        0 <= i < views.len(),
        supported(GValue::Array(views)),
    ensures
        supported(views[i]),
{
    reveal_with_fuel(supported, 2);
    let g = GValue::Array(views);
    assert(g->Array_0 == views);
    assert(supported(g) == (forall|j: int| 0 <= j < views.len() ==> supported(#[trigger] views[j])));
}

impl RESPValues {
    /// Whether the encoder supports this value: the RESP2 core set,
    /// recursively through arrays.
    #[verifier::loop_isolation(false)]
    pub fn is_supported(&self) -> (r: bool)
        ensures
            r == supported(self@),
        decreases *self,
    {
        match self {
            RESPValues::SimpleString(_) => true,
            RESPValues::SimpleError(_) => true,
            RESPValues::Integer(_) => true,
            RESPValues::BulkString(_) => true,
            RESPValues::Null => true,
            RESPValues::NullArray => true,
            RESPValues::Array(elems) => {
                let ghost views = value_view_seq(elems@);
                proof {
                    lemma_value_view_seq(elems@);
                }
                let mut i: usize = 0;
                while i < elems.len()
                    invariant
                        i <= elems@.len(),
                        forall|j: int| 0 <= j < i ==> supported(#[trigger] views[j]),
                    decreases elems@.len() - i,
                {
                    if !elems[i].is_supported() {
                        proof {
                            lemma_value_view_seq(elems@);
                            assert(views[i as int] == value_view(elems@[i as int]));
                            assert(self@ == GValue::Array(views));
                            assert(views.len() == elems@.len());
                            assert((i as int) < views.len());
                            if supported(GValue::Array(views)) {
                                lemma_array_supported_index(views, i as int);
                                assert(false);
                            }
                        }
                        return false;
                    }
                    i += 1;
                }
                true
            },
            _ => false,
        }
    }

    /// Appends this value's exact wire bytes to `out`.
    #[verifier::loop_isolation(false)]
    #[verifier::rlimit(60)]
    fn encode_into(&self, out: &mut Vec<u8>)
        requires
            supported(self@),
        ensures
            final(out)@ == old(out)@ + encoding(self@),
        decreases *self,
    {
        match self {
            RESPValues::SimpleString(s) => {
                out.push(43u8);
                push_str_bytes(out, s.as_str());
                out.push(13u8);
                out.push(10u8);
                proof {
                    assert(out@ =~= old(out)@ + encoding(self@));
                }
            },
            RESPValues::SimpleError(s) => {
                out.push(45u8);
                push_str_bytes(out, s.as_str());
                out.push(13u8);
                out.push(10u8);
                proof {
                    assert(out@ =~= old(out)@ + encoding(self@));
                }
            },
            RESPValues::Integer(n) => {
                out.push(58u8);
                if *n < 0 {
                    out.push(45u8);
                    let magnitude: u64 = (-(*n as i128)) as u64;
                    push_decimal(out, magnitude);
                } else {
                    push_decimal(out, *n as u64);
                }
                out.push(13u8);
                out.push(10u8);
                proof {
                    assert(out@ =~= old(out)@ + encoding(self@));
                }
            },
            RESPValues::BulkString(s) => {
                out.push(36u8);
                let payload = s.as_str().as_bytes();
                let byte_len = payload.len();
                proof {
                    assert(payload@ == encode_utf8(s@));
                    assert(byte_len == encode_utf8(s@).len());
                }
                push_decimal(out, byte_len as u64);
                out.push(13u8);
                out.push(10u8);
                push_str_bytes(out, s.as_str());
                out.push(13u8);
                out.push(10u8);
                proof {
                    assert(out@ =~= old(out)@ + encoding(self@));
                }
            },
            RESPValues::Array(elems) => {
                out.push(42u8);
                push_decimal(out, elems.len() as u64);
                out.push(13u8);
                out.push(10u8);
                let ghost views = value_view_seq(elems@);
                proof {
                    lemma_value_view_seq(elems@);
                }
                let ghost header = out@;
                let mut i: usize = 0;
                while i < elems.len()
                    invariant
                        i <= elems@.len(),
                        out@ == header + encoding_seq(views.take(i as int)),
                    decreases elems@.len() - i,
                {
                    proof {
                        lemma_value_view_seq(elems@);
                        assert(self@ == GValue::Array(views));
                        lemma_array_supported_index(views, i as int);
                        assert(value_view(elems@[i as int]) == views[i as int]);
                    }
                    elems[i].encode_into(out);
                    proof {
                        lemma_encoding_seq_push(views.take(i as int), views[i as int]);
                        assert(views.take(i as int).push(views[i as int]) =~= views.take(
                            i as int + 1,
                        ));
                        assert(out@ =~= header + encoding_seq(views.take(i as int + 1)));
                    }
                    i += 1;
                }
                proof {
                    assert(views.take(elems@.len() as int) =~= views);
                    assert(out@ =~= old(out)@ + encoding(self@));
                }
            },
            RESPValues::Null => {
                out.push(36u8);
                out.push(45u8);
                out.push(49u8);
                out.push(13u8);
                out.push(10u8);
                proof {
                    assert(out@ =~= old(out)@ + encoding(self@));
                }
            },
            RESPValues::NullArray => {
                out.push(42u8);
                out.push(45u8);
                out.push(49u8);
                out.push(13u8);
                out.push(10u8);
                proof {
                    assert(out@ =~= old(out)@ + encoding(self@));
                }
            },
            _ => {
                proof {
                    assert(false);
                }
            },
        }
    }

    /// Serializes a supported value into its exact wire form: the UTF-8
    /// bytes of the result are the value's encoding.
    pub fn to_string(&self) -> (r: String)
        requires
            supported(self@),
        ensures
            encode_utf8(r@) == encoding(self@),
    {
        let mut out: Vec<u8> = Vec::new();
        self.encode_into(&mut out);
        proof {
            lemma_encoding_valid_utf8(self@);
            assert(out@ =~= encoding(self@));
        }
        match utf8_to_string(out.as_slice()) {
            Some(s) => {
                proof {
                    broadcast use vstd::utf8::decode_utf8_encode_utf8;

                    assert(encode_utf8(decode_utf8(out@)) == out@);
                }
                s
            },
            None => {
                proof {
                    assert(false);
                }
                String::new()
            },
        }
    }

    /// The encoder of the wire layer: the exact encoding of a supported
    /// value, or `Unsupported` on a RESP3 stub.
    pub fn encode(&self) -> (r: Result<String, EncodeError>)
        ensures
            r is Ok <==> supported(self@),
            r matches Ok(s) ==> encode_utf8(s@) == encoding(self@),
    {
        if self.is_supported() {
            Ok(self.to_string())
        } else {
            Err(EncodeError::Unsupported)
        }
    }
}

} // verus!
