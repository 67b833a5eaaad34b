use vstd::prelude::*;

use crate::value::Val;

verus! {

/// The kinds of malformed input that decoding tells apart.
#[derive(Debug, Clone, Copy, PartialEq, Eq, Structural)]
pub enum ErrorKind {
    /// A structure's terminator, or a string's declared length, runs past
    /// the end of the buffer.
    TruncatedInput,
    /// The text between `i` and `e` is no signed decimal integer that fits
    /// in 64 bits, or the `e` is missing.
    InvalidInteger,
    /// The text before `:` is not all decimal digits, or the `:` is missing.
    InvalidLength,
    /// A value in key position of a dictionary is not a byte string.
    InvalidDictionaryKey,
    /// The next byte is none of `i`, `l`, `d` or a decimal digit.
    UnrecognizedLeadingByte,
    /// A byte string's payload is not valid UTF-8 text.
    InvalidText,
    /// Lists and dictionaries are nested deeper than the decoder allows.
    NestingTooDeep,
}

pub open spec fn is_digit(c: u8) -> bool {
    48 <= c <= 57
}

pub open spec fn all_digits(s: Seq<u8>) -> bool {
    forall|k: int| 0 <= k < s.len() ==> is_digit(#[trigger] s[k])
}

/// The number that a run of decimal digits denotes.
pub open spec fn digits_value(s: Seq<u8>) -> int
    decreases s.len(),
{
    if s.len() == 0 {
        0
    } else {
        10 * digits_value(s.drop_last()) + (s.last() - 48)
    }
}

/// The index of the first byte at or after `i` that is not a decimal digit
/// (the length of `b` where there is none).
pub open spec fn digit_run_end(b: Seq<u8>, i: int) -> int
    decreases b.len() - i,
{
    if 0 <= i < b.len() && is_digit(b[i]) {
        digit_run_end(b, i + 1)
    } else {
        i
    }
}

/// The index of the first byte `c` at or after `i` (the length of `b` where
/// there is none).
pub open spec fn first_at_or_after(b: Seq<u8>, i: int, c: u8) -> int
    decreases b.len() - i,
{
    if i >= b.len() {
        b.len() as int
    } else if b[i] == c {
        i
    } else {
        first_at_or_after(b, i + 1, c)
    }
}

pub open spec fn fits_i64(n: int) -> bool {
    i64::MIN <= n <= i64::MAX
}

/// The integer that `t` spells as an optional `-` followed by one or more
/// decimal digits.
pub open spec fn integer_text_value(t: Seq<u8>) -> Option<int> {
    if t.len() > 0 && t[0] == 45 {
        let d = t.drop_first();
        if d.len() > 0 && all_digits(d) {
            Some(-digits_value(d))
        } else {
            None
        }
    } else if t.len() > 0 && all_digits(t) {
        Some(digits_value(t))
    } else {
        None
    }
}

/// What decoding one value at `pos` gives: the value and the index just past
/// it, or the kind of error and the offset at which it was found.
pub type Outcome = Result<(Val, int), (ErrorKind, int)>;

/// An integer `i<text>e` starting at `pos`, where `b[pos]` is `i`.
pub open spec fn parse_integer(b: Seq<u8>, pos: int) -> Outcome {
    let e = first_at_or_after(b, pos + 1, 101);
    if e >= b.len() {
        Err((ErrorKind::InvalidInteger, pos))
    } else {
        match integer_text_value(b.subrange(pos + 1, e)) {
            Some(v) => if fits_i64(v) {
                Ok((Val::Int(v), e + 1))
            } else {
                Err((ErrorKind::InvalidInteger, pos))
            },
            None => Err((ErrorKind::InvalidInteger, pos)),
        }
    }
}

/// A byte string `<length>:<payload>` starting at `pos`, where `b[pos]` is a
/// digit.
pub open spec fn parse_byte_string(b: Seq<u8>, pos: int) -> Outcome {
    let q = digit_run_end(b, pos);
    if q >= b.len() || b[q] != 58 {
        Err((ErrorKind::InvalidLength, pos))
    } else {
        let len = digits_value(b.subrange(pos, q));
        if q + 1 + len > b.len() {
            Err((ErrorKind::TruncatedInput, pos))
        } else {
            let payload = b.subrange(q + 1, q + 1 + len);
            if vstd::utf8::valid_utf8(payload) {
                Ok((Val::Str(payload), q + 1 + len))
            } else {
                Err((ErrorKind::InvalidText, pos))
            }
        }
    }
}

/// Decoding of one value at `pos`, where lists and dictionaries may nest
/// `depth` levels deep.
pub open spec fn parse_value(b: Seq<u8>, pos: int, depth: nat) -> Outcome
    decreases b.len() - pos, 0int,
{
    if !(0 <= pos < b.len()) {
        Err((ErrorKind::TruncatedInput, pos))
    } else if b[pos] == 105 {
        parse_integer(b, pos)
    } else if b[pos] == 108 {
        if depth == 0 {
            Err((ErrorKind::NestingTooDeep, pos))
        } else {
            parse_list(b, pos + 1, (depth - 1) as nat, Seq::empty())
        }
    } else if b[pos] == 100 {
        if depth == 0 {
            Err((ErrorKind::NestingTooDeep, pos))
        } else {
            parse_dict(b, pos + 1, (depth - 1) as nat, Map::empty())
        }
    } else if is_digit(b[pos]) {
        parse_byte_string(b, pos)
    } else {
        Err((ErrorKind::UnrecognizedLeadingByte, pos))
    }
}

/// The items of a list from `pos` on, after the items `acc` already read.
pub open spec fn parse_list(b: Seq<u8>, pos: int, depth: nat, acc: Seq<Val>) -> Outcome
    decreases b.len() - pos, 1int,
{
    if !(0 <= pos < b.len()) {
        Err((ErrorKind::TruncatedInput, pos))
    } else if b[pos] == 101 {
        Ok((Val::List(acc), pos + 1))
    } else {
        match parse_value(b, pos, depth) {
            Err(e) => Err(e),
            Ok((v, p)) => if pos < p <= b.len() {
                parse_list(b, p, depth, acc.push(v))
            } else {
                Err((ErrorKind::TruncatedInput, pos))
            },
        }
    }
}

/// The entries of a dictionary from `pos` on, after the entries `acc`
/// already read; a later key overrides an equal earlier one.
pub open spec fn parse_dict(b: Seq<u8>, pos: int, depth: nat, acc: Map<Seq<u8>, Val>) -> Outcome
    decreases b.len() - pos, 1int,
{
    if !(0 <= pos < b.len()) {
        Err((ErrorKind::TruncatedInput, pos))
    } else if b[pos] == 101 {
        Ok((Val::Dict(acc), pos + 1))
    } else {
        match parse_value(b, pos, depth) {
            Err(e) => Err(e),
            Ok((Val::Str(k), p)) => if !(pos < p) {
                Err((ErrorKind::TruncatedInput, pos))
            } else if p >= b.len() || b[p] == 101 {
                Err((ErrorKind::TruncatedInput, p))
            } else {
                match parse_value(b, p, depth) {
                    Err(e) => Err(e),
                    Ok((v, q)) => if p < q <= b.len() {
                        parse_dict(b, q, depth, acc.insert(k, v))
                    } else {
                        Err((ErrorKind::TruncatedInput, p))
                    },
                }
            },
            Ok(_) => Err((ErrorKind::InvalidDictionaryKey, pos)),
        }
    }
}

/// A run of digits denotes at least what any of its prefixes denotes, and
/// never less than zero.
pub proof fn lemma_digits_prefix(s: Seq<u8>, j: int)
    requires
        all_digits(s),
        0 <= j <= s.len(),
    ensures
        0 <= digits_value(s.subrange(0, j)) <= digits_value(s),
    decreases s.len(),
{
    if j == s.len() {
        assert(s.subrange(0, j) =~= s);
        if s.len() > 0 {
            lemma_digits_prefix(s.drop_last(), 0);
        }
    } else {
        let t = s.drop_last();
        assert(t.subrange(0, j) =~= s.subrange(0, j));
        assert(is_digit(s[s.len() - 1]));
        lemma_digits_prefix(t, j);
    }
}

/// Appending one digit to a run of digits.
pub proof fn lemma_digits_step(b: Seq<u8>, start: int, k: int)
    requires
        0 <= start <= k < b.len(),
    ensures
        b.subrange(start, k + 1).drop_last() == b.subrange(start, k),
        digits_value(b.subrange(start, k + 1)) == 10 * digits_value(b.subrange(start, k)) + (b[k]
            - 48),
{
    assert(b.subrange(start, k + 1).drop_last() =~= b.subrange(start, k));
}

} // verus!
