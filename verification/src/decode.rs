//! The RESP decoder: a byte-cursor parser from a byte buffer to a value
//! plus the position just past it.
//!
//! The grammar is specified by `spec_decode_at`, a total function on the
//! byte buffer and a cursor position; the executable decoder is proved to
//! return exactly what it says.  `Incomplete` is a control signal, not an
//! error: no complete frame stands at the position yet and the caller must
//! wait for more bytes.  `Malformed` says the bytes read so far already
//! violate the grammar at this position.

use vstd::prelude::*;
use vstd::slice::slice_subrange;
use vstd::string::StringSliceAdditionalSpecFns;
use vstd::utf8::{decode_utf8, encode_utf8, valid_utf8};

use crate::resp::{digit_val, is_digit, lemma_value_view_seq_push, utf8_to_string, value_view_seq,
    GValue, RESPValues};

verus! {

/// Why a buffer is malformed at the decode position.
#[derive(PartialEq, Eq, Structural, Debug, Clone, Copy)]
pub enum MalformedKind {
    /// The first byte of the frame is no type tag this decoder supports;
    /// the RESP3 tags fall here, outside the core set.
    UnknownTag,
    /// An integer line is not an optionally signed decimal within the
    /// signed 64-bit range.
    BadInteger,
    /// A bulk-string or array length line is neither `-1` nor an unsigned
    /// decimal that fits the machine.
    BadLength,
    /// The two bytes after a bulk-string payload are not CRLF.
    BadTerminator,
    /// A line or payload is not UTF-8 text.  This value model carries
    /// text in machine strings; a frame whose payload is not text cannot
    /// be represented and is refused.
    BadText,
}

/// The decoder outcome when no value is produced.
#[derive(PartialEq, Eq, Structural, Debug, Clone, Copy)]
pub enum DecodeOutcome {
    /// No complete frame yet: wait for more bytes.
    Incomplete,
    /// The bytes can never form a valid frame at this position.
    Malformed(MalformedKind),
}

/// The specified result of decoding one frame at a position.
pub ghost enum SpecParse {
    Found { v: GValue, end: int },
    Incomplete,
    Malformed { kind: MalformedKind },
}

/// The specified result of decoding a run of consecutive frames.
pub ghost enum SpecParseList {
    FoundList { elems: Seq<GValue>, end: int },
    IncompleteList,
    MalformedList { kind: MalformedKind },
}

/// Every byte of `s` is a decimal digit.
pub open spec fn all_digits(s: Seq<u8>) -> bool {
    forall|i: int| 0 <= i < s.len() ==> is_digit(#[trigger] s[i])
}

/// The value of `s` read as decimal digits.
pub open spec fn digits_val(s: Seq<u8>) -> nat
    decreases s.len(),
{
    if s.len() == 0 {
        0
    } else {
        10 * digits_val(s.drop_last()) + digit_val(s.last())
    }
}

/// The shape of an integer line: one optional sign, then at least one digit.
pub open spec fn int_line_shape(s: Seq<u8>) -> bool {
    if s.len() >= 1 && (s[0] == 43 || s[0] == 45) {
        s.len() >= 2 && all_digits(s.skip(1))
    } else {
        s.len() >= 1 && all_digits(s)
    }
}

/// The signed value of an integer line.
pub open spec fn int_line_val(s: Seq<u8>) -> int {
    if s.len() >= 1 && s[0] == 45 {
        -(digits_val(s.skip(1)) as int)
    } else if s.len() >= 1 && s[0] == 43 {
        digits_val(s.skip(1)) as int
    } else {
        digits_val(s) as int
    }
}

/// An integer line the decoder accepts: well shaped and within the signed
/// 64-bit range.
pub open spec fn valid_int_line(s: Seq<u8>) -> bool {
    int_line_shape(s) && i64::MIN <= int_line_val(s) <= i64::MAX
}

/// A length line the decoder accepts: at least one digit, digits only, and
/// a value the machine can hold.
pub open spec fn valid_len_line(s: Seq<u8>) -> bool {
    s.len() >= 1 && all_digits(s) && digits_val(s) <= usize::MAX
}

/// The position of the first CRLF pair at or after `i`, if the buffer
/// holds one.
pub open spec fn spec_find_crlf(s: Seq<u8>, i: int) -> Option<int>
    decreases s.len() - i,
{
    if i + 2 > s.len() {
        None
    } else if s[i] == 13 && s[i + 1] == 10 {
        Some(i)
    } else {
        spec_find_crlf(s, i + 1)
    }
}

/// Where `spec_find_crlf` points: at a CRLF pair inside the buffer, past
/// which no earlier pair lies.
pub proof fn lemma_find_crlf_bounds(s: Seq<u8>, i: int)
    ensures
        spec_find_crlf(s, i) matches Some(m) ==> {
            &&& i <= m
            &&& m + 2 <= s.len()
            &&& s[m] == 13
            &&& s[m + 1] == 10
            &&& forall|j: int| i <= j < m ==> !(#[trigger] s[j] == 13 && s[j + 1] == 10)
        },
    decreases s.len() - i,
{
    if i + 2 <= s.len() && !(s[i] == 13 && s[i + 1] == 10) {
        lemma_find_crlf_bounds(s, i + 1);
    }
}

/// The specified decoding of one frame of `s` at position `pos`.
///
/// The cursor discipline is part of the specification: an aggregate is
/// decoded by decoding each child at the advancing position, never by
/// searching for a serialized child in the remaining text.  Declared
/// lengths count bytes; text payloads are read as UTF-8.
pub open spec fn spec_decode_at(s: Seq<u8>, pos: int) -> SpecParse
    decreases s.len() - pos, 0int,
    via spec_decode_at_decreases
{
    if pos < 0 || pos >= s.len() {
        SpecParse::Incomplete
    } else if s[pos] == 43 || s[pos] == 45 {
        match spec_find_crlf(s, pos + 1) {
            None => SpecParse::Incomplete,
            Some(m) => {
                let line = s.subrange(pos + 1, m);
                if !valid_utf8(line) {
                    SpecParse::Malformed { kind: MalformedKind::BadText }
                } else if s[pos] == 43 {
                    SpecParse::Found { v: GValue::SimpleString(decode_utf8(line)), end: m + 2 }
                } else {
                    SpecParse::Found { v: GValue::SimpleError(decode_utf8(line)), end: m + 2 }
                }
            },
        }
    } else if s[pos] == 58 {
        match spec_find_crlf(s, pos + 1) {
            None => SpecParse::Incomplete,
            Some(m) => {
                let line = s.subrange(pos + 1, m);
                if valid_int_line(line) {
                    SpecParse::Found { v: GValue::Integer(int_line_val(line)), end: m + 2 }
                } else {
                    SpecParse::Malformed { kind: MalformedKind::BadInteger }
                }
            },
        }
    } else if s[pos] == 36 {
        match spec_find_crlf(s, pos + 1) {
            None => SpecParse::Incomplete,
            Some(m) => {
                let line = s.subrange(pos + 1, m);
                if line == seq![45u8, 49u8] {
                    SpecParse::Found { v: GValue::Null, end: m + 2 }
                } else if !valid_len_line(line) {
                    SpecParse::Malformed { kind: MalformedKind::BadLength }
                } else {
                    let len = digits_val(line) as int;
                    if s.len() < m + 2 + len + 2 {
                        SpecParse::Incomplete
                    } else if s[m + 2 + len] == 13 && s[m + 2 + len + 1] == 10 {
                        let payload = s.subrange(m + 2, m + 2 + len);
                        if valid_utf8(payload) {
                            SpecParse::Found {
                                v: GValue::BulkString(decode_utf8(payload)),
                                end: m + 2 + len + 2,
                            }
                        } else {
                            SpecParse::Malformed { kind: MalformedKind::BadText }
                        }
                    } else {
                        SpecParse::Malformed { kind: MalformedKind::BadTerminator }
                    }
                }
            },
        }
    } else if s[pos] == 42 {
        match spec_find_crlf(s, pos + 1) {
            None => SpecParse::Incomplete,
            Some(m) => {
                let line = s.subrange(pos + 1, m);
                if line == seq![45u8, 49u8] {
                    SpecParse::Found { v: GValue::NullArray, end: m + 2 }
                } else if !valid_len_line(line) {
                    SpecParse::Malformed { kind: MalformedKind::BadLength }
                } else {
                    match spec_decode_list(s, m + 2, digits_val(line)) {
                        SpecParseList::FoundList { elems, end } => SpecParse::Found {
                            v: GValue::Array(elems),
                            end,
                        },
                        SpecParseList::IncompleteList => SpecParse::Incomplete,
                        SpecParseList::MalformedList { kind } => SpecParse::Malformed { kind },
                    }
                }
            },
        }
    } else {
        SpecParse::Malformed { kind: MalformedKind::UnknownTag }
    }
}

#[via_fn]
proof fn spec_decode_at_decreases(s: Seq<u8>, pos: int) {
    lemma_find_crlf_bounds(s, pos + 1);
}

/// The specified decoding of `count` consecutive frames of `s`, the first
/// at position `pos`.
pub open spec fn spec_decode_list(s: Seq<u8>, pos: int, count: nat) -> SpecParseList
    decreases s.len() - pos, count,
{
    if count == 0 {
        SpecParseList::FoundList { elems: Seq::empty(), end: pos }
    } else {
        match spec_decode_at(s, pos) {
            SpecParse::Found { v, end } => {
                if pos < end <= s.len() {
                    match spec_decode_list(s, end, (count - 1) as nat) {
                        SpecParseList::FoundList { elems, end: e } => SpecParseList::FoundList {
                            elems: seq![v] + elems,
                            end: e,
                        },
                        SpecParseList::IncompleteList => SpecParseList::IncompleteList,
                        SpecParseList::MalformedList { kind } => SpecParseList::MalformedList {
                            kind,
                        },
                    }
                } else {
                    // a found frame always lies inside the buffer and
                    // advances the cursor (`lemma_decode_found_bounds`),
                    // so this branch is never reached
                    SpecParseList::IncompleteList
                }
            },
            SpecParse::Incomplete => SpecParseList::IncompleteList,
            SpecParse::Malformed { kind } => SpecParseList::MalformedList { kind },
        }
    }
}

/// Finds the first CRLF pair at or after `start`.
#[verifier::loop_isolation(false)]
fn find_crlf(s: &[u8], start: usize, n: usize) -> (r: Option<usize>)
    requires
        n == s@.len(),
        start <= n,
    ensures
        r matches Some(m) ==> spec_find_crlf(s@, start as int) == Some(m as int) && start <= m
            && m + 2 <= n,
        r is None ==> spec_find_crlf(s@, start as int) is None,
{
    let mut i = start;
    while n - i >= 2
        invariant
            start <= i <= n,
            spec_find_crlf(s@, start as int) == spec_find_crlf(s@, i as int),
        decreases n - i,
    {
        if s[i] == 13 && s[i + 1] == 10 {
            return Some(i);
        }
        i += 1;
    }
    None
}

/// Reads `s[from..to]` as decimal digits into a 64-bit value; nothing is
/// returned on an empty run, a non-digit, or overflow.
#[verifier::loop_isolation(false)]
fn parse_u64_digits(s: &[u8], from: usize, to: usize) -> (r: Option<u64>)
    requires
        from <= to,
        to <= s@.len(),
    ensures
        ({
            let line = s@.subrange(from as int, to as int);
            match r {
                Some(x) => from < to && all_digits(line) && digits_val(line) <= u64::MAX && x
                    == digits_val(line),
                None => !(from < to && all_digits(line) && digits_val(line) <= u64::MAX),
            }
        }),
{
    if from == to {
        return None;
    }
    let ghost line = s@.subrange(from as int, to as int);
    let mut acc: u64 = 0;
    let mut i = from;
    while i < to
        invariant
            from <= i <= to,
            to <= s@.len(),
            acc == digits_val(s@.subrange(from as int, i as int)),
            all_digits(s@.subrange(from as int, i as int)),
        decreases to - i,
    {
        let b = s[i];
        let ghost prefix = s@.subrange(from as int, i as int);
        let ghost prefix1 = s@.subrange(from as int, i as int + 1);
        proof {
            assert(prefix1.drop_last() =~= prefix);
            assert(prefix1.last() == s@[i as int]);
        }
        if b < 48 || b > 57 {
            proof {
                assert(line[i as int - from as int] == s@[i as int]);
                assert(!is_digit(line[i as int - from as int]));
                assert(!all_digits(line));
            }
            return None;
        }
        let d: u64 = (b - 48) as u64;
        proof {
            assert(is_digit(s@[i as int]));
            assert(d == digit_val(s@[i as int]));
            assert(digits_val(prefix1) == 10 * digits_val(prefix) + digit_val(s@[i as int]));
        }
        if acc > (u64::MAX - d) / 10 {
            proof {
                assert(10 * (acc as nat) + (d as nat) > u64::MAX) by (nonlinear_arith)
                    requires
                        acc as nat > ((u64::MAX - d) as nat) / 10,
                        d < 10,
                ;
                lemma_digits_val_take_le(line, i as int + 1 - from as int);
                assert(line.take(i as int + 1 - from as int) =~= prefix1);
                assert(digits_val(line) > u64::MAX);
            }
            return None;
        }
        acc = acc * 10 + d;
        i += 1;
    }
    proof {
        assert(s@.subrange(from as int, i as int) =~= line);
    }
    Some(acc)
}

/// The digit value of a prefix never exceeds that of the whole run.
proof fn lemma_digits_val_take_le(s: Seq<u8>, k: int)
    requires
        0 <= k <= s.len(),
    ensures
        digits_val(s.take(k)) <= digits_val(s),
    decreases s.len() - k,
{
    if k < s.len() {
        lemma_digits_val_take_le(s, k + 1);
        let t = s.take(k + 1);
        assert(t.drop_last() =~= s.take(k));
        assert(digits_val(t) == 10 * digits_val(s.take(k)) + digit_val(t.last()));
        assert(digits_val(s.take(k)) <= 10 * digits_val(s.take(k)));
    } else {
        assert(s.take(k) =~= s);
    }
}

/// Prepends already-decoded values to the result of decoding the rest of
/// a run.
pub open spec fn list_prepend(pre: Seq<GValue>, r: SpecParseList) -> SpecParseList {
    match r {
        SpecParseList::FoundList { elems, end } => SpecParseList::FoundList {
            elems: pre + elems,
            end,
        },
        _ => r,
    }
}

/// Reads `s[from..to]` as an optionally signed decimal within the signed
/// 64-bit range; nothing is returned on any other line.
fn parse_int_line(s: &[u8], from: usize, to: usize) -> (r: Option<i64>)
    requires
        from <= to,
        to <= s@.len(),
    ensures
        ({
            let line = s@.subrange(from as int, to as int);
            match r {
                Some(x) => valid_int_line(line) && x as int == int_line_val(line),
                None => !valid_int_line(line),
            }
        }),
{
    let ghost line = s@.subrange(from as int, to as int);
    if from == to {
        return None;
    }
    let b0 = s[from];
    proof {
        assert(line[0] == s@[from as int]);
    }
    if b0 == 45 || b0 == 43 {
        proof {
            assert(line.skip(1) =~= s@.subrange(from as int + 1, to as int));
        }
        match parse_u64_digits(s, from + 1, to) {
            None => {
                proof {
                    if valid_int_line(line) {
                        assert(all_digits(line.skip(1)));
                        assert(from + 1 < to);
                        if digits_val(line.skip(1)) > u64::MAX {
                            if b0 == 45 {
                                assert(int_line_val(line) < i64::MIN);
                            } else {
                                assert(int_line_val(line) > i64::MAX);
                            }
                        }
                        assert(false);
                    }
                }
                None
            },
            Some(mag) => {
                if b0 == 45 {
                    if mag <= i64::MAX as u64 {
                        Some(-(mag as i64))
                    } else if mag == i64::MAX as u64 + 1 {
                        Some(i64::MIN)
                    } else {
                        None
                    }
                } else {
                    if mag <= i64::MAX as u64 {
                        Some(mag as i64)
                    } else {
                        None
                    }
                }
            },
        }
    } else {
        match parse_u64_digits(s, from, to) {
            None => {
                proof {
                    if valid_int_line(line) {
                        if digits_val(line) > u64::MAX {
                            assert(int_line_val(line) > i64::MAX);
                        }
                        assert(false);
                    }
                }
                None
            },
            Some(mag) => {
                if mag <= i64::MAX as u64 {
                    Some(mag as i64)
                } else {
                    None
                }
            },
        }
    }
}

/// Extracts `s[from..to]` as an owned UTF-8 string, if it is text.
fn text_range(s: &[u8], from: usize, to: usize) -> (r: Option<String>)
    requires
        from <= to,
        to <= s@.len(),
    ensures
        ({
            let region = s@.subrange(from as int, to as int);
            match r {
                Some(t) => valid_utf8(region) && t@ == decode_utf8(region),
                None => !valid_utf8(region),
            }
        }),
{
    utf8_to_string(slice_subrange(s, from, to))
}

/// Decodes one frame of `s` at position `pos`; `n` is the byte length of
/// `s`.  Returns the value and the position just past its frame.
#[verifier::loop_isolation(false)]
fn decode_at(s: &[u8], pos: usize, n: usize) -> (r: Result<(RESPValues, usize), DecodeOutcome>)
    requires
        n == s@.len(),
        pos <= n,
    ensures
        r matches Ok(p) ==> spec_decode_at(s@, pos as int) == (SpecParse::Found {
            v: p.0@,
            end: p.1 as int,
        }) && pos < p.1 <= n,
        r == Err::<(RESPValues, usize), DecodeOutcome>(DecodeOutcome::Incomplete)
            ==> spec_decode_at(s@, pos as int) is Incomplete,
        r matches Err(DecodeOutcome::Malformed(k)) ==> spec_decode_at(s@, pos as int)
            == (SpecParse::Malformed { kind: k }),
    decreases n - pos, 0int,
{
    if pos >= n {
        return Err(DecodeOutcome::Incomplete);
    }
    let tag = s[pos];
    if tag == 43 || tag == 45 {
        match find_crlf(s, pos + 1, n) {
            None => Err(DecodeOutcome::Incomplete),
            Some(m) => match text_range(s, pos + 1, m) {
                None => Err(DecodeOutcome::Malformed(MalformedKind::BadText)),
                Some(content) => {
                    if tag == 43 {
                        Ok((RESPValues::SimpleString(content), m + 2))
                    } else {
                        Ok((RESPValues::SimpleError(content), m + 2))
                    }
                },
            },
        }
    } else if tag == 58 {
        match find_crlf(s, pos + 1, n) {
            None => Err(DecodeOutcome::Incomplete),
            Some(m) => match parse_int_line(s, pos + 1, m) {
                None => Err(DecodeOutcome::Malformed(MalformedKind::BadInteger)),
                Some(x) => Ok((RESPValues::Integer(x), m + 2)),
            },
        }
    } else if tag == 36 {
        match find_crlf(s, pos + 1, n) {
            None => Err(DecodeOutcome::Incomplete),
            Some(m) => {
                let ghost line = s@.subrange(pos as int + 1, m as int);
                if m == pos + 3 && s[pos + 1] == 45 && s[pos + 2] == 49 {
                    proof {
                        assert(line =~= seq![45u8, 49u8]);
                    }
                    return Ok((RESPValues::Null, m + 2));
                }
                proof {
                    if line == seq![45u8, 49u8] {
                        assert(line.len() == 2);
                        assert(s@[pos as int + 1] == 45);
                        assert(s@[pos as int + 2] == 49);
                        assert(false);
                    }
                }
                match parse_u64_digits(s, pos + 1, m) {
                    None => Err(DecodeOutcome::Malformed(MalformedKind::BadLength)),
                    Some(len64) => {
                        if len64 > usize::MAX as u64 {
                            Err(DecodeOutcome::Malformed(MalformedKind::BadLength))
                        } else {
                            let len = len64 as usize;
                            let header_end = m + 2;
                            if n - header_end < len || n - header_end - len < 2 {
                                Err(DecodeOutcome::Incomplete)
                            } else if s[header_end + len] == 13 && s[header_end + len + 1] == 10 {
                                match text_range(s, header_end, header_end + len) {
                                    None => Err(
                                        DecodeOutcome::Malformed(MalformedKind::BadText),
                                    ),
                                    Some(content) => Ok(
                                        (RESPValues::BulkString(content), header_end + len + 2),
                                    ),
                                }
                            } else {
                                Err(DecodeOutcome::Malformed(MalformedKind::BadTerminator))
                            }
                        }
                    },
                }
            },
        }
    } else if tag == 42 {
        match find_crlf(s, pos + 1, n) {
            None => Err(DecodeOutcome::Incomplete),
            Some(m) => {
                let ghost line = s@.subrange(pos as int + 1, m as int);
                if m == pos + 3 && s[pos + 1] == 45 && s[pos + 2] == 49 {
                    proof {
                        assert(line =~= seq![45u8, 49u8]);
                    }
                    return Ok((RESPValues::NullArray, m + 2));
                }
                proof {
                    if line == seq![45u8, 49u8] {
                        assert(line.len() == 2);
                        assert(s@[pos as int + 1] == 45);
                        assert(s@[pos as int + 2] == 49);
                        assert(false);
                    }
                }
                match parse_u64_digits(s, pos + 1, m) {
                    None => Err(DecodeOutcome::Malformed(MalformedKind::BadLength)),
                    Some(count64) => {
                        if count64 > usize::MAX as u64 {
                            Err(DecodeOutcome::Malformed(MalformedKind::BadLength))
                        } else {
                            let count = count64 as usize;
                            let header_end = m + 2;
                            let ghost outcome = spec_decode_list(
                                s@,
                                header_end as int,
                                count as nat,
                            );
                            proof {
                                assert(spec_decode_at(s@, pos as int) == (match outcome {
                                    SpecParseList::FoundList { elems, end } => SpecParse::Found {
                                        v: GValue::Array(elems),
                                        end,
                                    },
                                    SpecParseList::IncompleteList => SpecParse::Incomplete,
                                    SpecParseList::MalformedList { kind } => SpecParse::Malformed {
                                        kind,
                                    },
                                }));
                            }
                            let mut elems: Vec<RESPValues> = Vec::new();
                            let mut cur = header_end;
                            let mut remaining = count;
                            while remaining > 0
                                invariant
                                    header_end <= cur <= n,
                                    remaining <= count,
                                    outcome == list_prepend(
                                        value_view_seq(elems@),
                                        spec_decode_list(s@, cur as int, remaining as nat),
                                    ),
                                decreases remaining,
                            {
                                match decode_at(s, cur, n) {
                                    Err(e) => {
                                        return Err(e);
                                    },
                                    Ok((v, end)) => {
                                        proof {
                                            let rest = spec_decode_list(
                                                s@,
                                                end as int,
                                                (remaining - 1) as nat,
                                            );
                                            assert(spec_decode_list(
                                                s@,
                                                cur as int,
                                                remaining as nat,
                                            ) == list_prepend(seq![v@], rest));
                                            lemma_value_view_seq_push(elems@, v);
                                            assert(value_view_seq(elems@.push(v)) =~= value_view_seq(
                                                elems@,
                                            ) + seq![v@]);
                                            assert(list_prepend(
                                                value_view_seq(elems@),
                                                list_prepend(seq![v@], rest),
                                            ) == list_prepend(value_view_seq(elems@.push(v)), rest))
                                                by {
                                                match rest {
                                                    SpecParseList::FoundList { elems: es, end: e } => {
                                                        assert(value_view_seq(elems@) + (seq![v@]
                                                            + es) =~= (value_view_seq(elems@)
                                                            + seq![v@]) + es);
                                                    },
                                                    _ => {},
                                                }
                                            }
                                        }
                                        elems.push(v);
                                        cur = end;
                                        remaining = remaining - 1;
                                    },
                                }
                            }
                            proof {
                                assert(spec_decode_list(s@, cur as int, 0nat)
                                    == (SpecParseList::FoundList {
                                    elems: Seq::<GValue>::empty(),
                                    end: cur as int,
                                }));
                                assert(value_view_seq(elems@) + Seq::<GValue>::empty()
                                    =~= value_view_seq(elems@));
                                assert(outcome == (SpecParseList::FoundList {
                                    elems: value_view_seq(elems@),
                                    end: cur as int,
                                }));
                            }
                            Ok((RESPValues::Array(elems), cur))
                        }
                    },
                }
            },
        }
    } else {
        Err(DecodeOutcome::Malformed(MalformedKind::UnknownTag))
    }
}

impl RESPValues {
    /// Decodes the first frame of `buffer`: the value plus the count of
    /// bytes consumed.  `Incomplete` asks the caller to wait for more
    /// input; `Malformed` says the buffer can never begin a valid frame.
    pub fn decode(buffer: &[u8]) -> (r: Result<(RESPValues, usize), DecodeOutcome>)
        ensures
            r matches Ok(p) ==> spec_decode_at(buffer@, 0) == (SpecParse::Found {
                v: p.0@,
                end: p.1 as int,
            }) && 0 < p.1 <= buffer@.len(),
            r == Err::<(RESPValues, usize), DecodeOutcome>(DecodeOutcome::Incomplete)
                ==> spec_decode_at(buffer@, 0) is Incomplete,
            r matches Err(DecodeOutcome::Malformed(k)) ==> spec_decode_at(buffer@, 0)
                == (SpecParse::Malformed { kind: k }),
    {
        let n = buffer.len();
        decode_at(buffer, 0, n)
    }

    /// Parses the first complete frame of `input` into its value; what
    /// follows that frame is ignored.  The input's UTF-8 bytes are the
    /// buffer the decoder reads.
    pub fn try_from(input: &str) -> (r: Result<RESPValues, DecodeOutcome>)
        ensures
            r matches Ok(v) ==> spec_decode_at(encode_utf8(input@), 0) matches SpecParse::Found {
                v: g,
                ..
            } && g == v@,
            r == Err::<RESPValues, DecodeOutcome>(DecodeOutcome::Incomplete) ==> spec_decode_at(
                encode_utf8(input@),
                0,
            ) is Incomplete,
            r matches Err(DecodeOutcome::Malformed(k)) ==> spec_decode_at(encode_utf8(input@), 0)
                == (SpecParse::Malformed { kind: k }),
    {
        let bytes = input.as_bytes();
        proof {
            assert(bytes@ == encode_utf8(input@));
        }
        match Self::decode(bytes) {
            Ok((v, _)) => Ok(v),
            Err(e) => Err(e),
        }
    }
}

} // verus!
