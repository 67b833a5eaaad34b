use vstd::prelude::*;

use crate::grammar::{
    all_digits, digit_run_end, digits_value, first_at_or_after, fits_i64, integer_text_value,
    is_digit, lemma_digits_prefix, lemma_digits_step, parse_byte_string, parse_dict, parse_list,
    parse_value, ErrorKind, Outcome,
};
use crate::text::string_from_utf8;
use crate::value::{
    all_well_formed, entries_well_formed, fold_entries, keys_distinct,
    lemma_all_well_formed_push, lemma_entries_well_formed_push, lemma_entries_well_formed_update,
    lemma_fold_push, lemma_fold_update, lemma_text_bytes_injective, lemma_views_of_push,
    text_bytes, views_of, BencodingValue, Val,
};

verus! {

broadcast use vstd::std_specs::vec::group_vec_axioms, vstd::seq::group_seq_axioms;

/// How deeply lists and dictionaries may nest in one decoded value.
pub const MAX_DEPTH: usize = 256;

/// Why decoding failed, and at which byte offset of the input: where the
/// offending value begins, or, where input ran out before a list item, a
/// dictionary value or a closing `e`, the offset at which more was needed.
#[derive(Debug, Clone, Copy, PartialEq, Eq, Structural)]
pub struct DecodeError {
    pub kind: ErrorKind,
    pub offset: usize,
}

/// What an executable decoding result stands for.
pub open spec fn outcome_of(r: Result<(BencodingValue, usize), DecodeError>) -> Outcome {
    match r {
        Ok((v, end)) => Ok((v.view(), end as int)),
        Err(e) => Err((e.kind, e.offset as int)),
    }
}

fn fail(kind: ErrorKind, offset: usize) -> (r: Result<(BencodingValue, usize), DecodeError>)
    ensures
        outcome_of(r) == Outcome::Err((kind, offset as int)),
{
    Err(DecodeError { kind, offset })
}

/// The index of the first byte `c` at or after `from`.
fn find_byte(input: &[u8], from: usize, c: u8) -> (r: usize)
    requires
        from <= input@.len(),
    ensures
        r as int == first_at_or_after(input@, from as int, c),
        from <= r <= input@.len(),
{
    let mut i = from;
    while i < input.len()
        invariant
            from <= i <= input@.len(),
            first_at_or_after(input@, i as int, c) == first_at_or_after(input@, from as int, c),
        decreases input@.len() - i,
    {
        if input[i] == c {
            return i;
        }
        i += 1;
    }
    i
}

/// The index just past the run of decimal digits that starts at `from`.
fn digit_run(input: &[u8], from: usize) -> (r: usize)
    requires
        from <= input@.len(),
    ensures
        r as int == digit_run_end(input@, from as int),
        from <= r <= input@.len(),
        all_digits(input@.subrange(from as int, r as int)),
{
    let mut i = from;
    while i < input.len() && 48 <= input[i] && input[i] <= 57
        invariant
            from <= i <= input@.len(),
            digit_run_end(input@, i as int) == digit_run_end(input@, from as int),
            forall|k: int| from <= k < i ==> is_digit(#[trigger] input@[k]),
        decreases input@.len() - i,
    {
        i += 1;
    }
    assert forall|k: int| 0 <= k < i - from implies is_digit(
        #[trigger] input@.subrange(from as int, i as int)[k],
    ) by {
        assert(input@.subrange(from as int, i as int)[k] == input@[from + k]);
    }
    i
}

/// The signed decimal integer spelled by `input[start..end]`, where it fits
/// in an `i64`.
fn integer_in(input: &[u8], start: usize, end: usize) -> (r: Option<i64>)
    requires
        start <= end <= input@.len(),
    ensures
        r is Some <==> (integer_text_value(input@.subrange(start as int, end as int)) matches Some(
            v,
        ) && fits_i64(v)),
        r matches Some(n) ==> integer_text_value(input@.subrange(start as int, end as int)) == Some(
            n as int,
        ),
{
    let ghost t = input@.subrange(start as int, end as int);
    let negative = start < end && input[start] == 45;
    let first = if negative {
        start + 1
    } else {
        start
    };
    let ghost d = input@.subrange(first as int, end as int);
    assert(negative ==> t.drop_first() =~= d);
    assert(!negative ==> t =~= d);
    assert(negative == (t.len() > 0 && t[0] == 45));
    if first == end {
        return None;
    }
    let mut acc: i64 = 0;
    let mut k = first;
    while k < end
        invariant
            start <= first <= k <= end <= input@.len(),
            d == input@.subrange(first as int, end as int),
            t == input@.subrange(start as int, end as int),
            negative == (t.len() > 0 && t[0] == 45),
            negative ==> t.drop_first() == d,
            !negative ==> t == d,
            all_digits(input@.subrange(first as int, k as int)),
            acc as int == (if negative {
                -digits_value(input@.subrange(first as int, k as int))
            } else {
                digits_value(input@.subrange(first as int, k as int))
            }),
        decreases end - k,
    {
        let c = input[k];
        if c < 48 || c > 57 {
            assert(d[k - first] == c);
            return None;
        }
        proof {
            lemma_digits_step(input@, first as int, k as int);
            let p = input@.subrange(first as int, k as int + 1);
            assert forall|i: int| 0 <= i < p.len() implies is_digit(#[trigger] p[i]) by {
                if i < p.len() - 1 {
                    assert(p[i] == input@.subrange(first as int, k as int)[i]);
                }
            }
            if all_digits(d) {
                assert(d.subrange(0, k + 1 - first) =~= p);
                lemma_digits_prefix(d, k + 1 - first);
            }
        }
        let digit = (c - 48) as i64;
        let grown = match acc.checked_mul(10) {
            Some(m) => if negative {
                m.checked_sub(digit)
            } else {
                m.checked_add(digit)
            },
            None => None,
        };
        match grown {
            Some(g) => {
                acc = g;
            },
            None => {
                return None;
            },
        }
        k += 1;
    }
    assert(input@.subrange(first as int, k as int) =~= d);
    Some(acc)
}

/// Decodes the integer `i<text>e` at `pos`.
fn decode_integer(input: &[u8], pos: usize) -> (r: Result<(BencodingValue, usize), DecodeError>)
    requires
        pos < input@.len(),
        input@[pos as int] == 105,
    ensures
        outcome_of(r) == crate::grammar::parse_integer(input@, pos as int),
        r matches Ok((v, end)) ==> pos < end <= input@.len() && v.well_formed(),
{
    let len = input.len();
    let e = find_byte(input, pos + 1, 101);
    if e >= len {
        return fail(ErrorKind::InvalidInteger, pos);
    }
    match integer_in(input, pos + 1, e) {
        Some(n) => Ok((BencodingValue::Integer(n), e + 1)),
        None => fail(ErrorKind::InvalidInteger, pos),
    }
}

/// Decodes the byte string `<length>:<payload>` at `pos`.
fn decode_byte_string(input: &[u8], pos: usize) -> (r: Result<(BencodingValue, usize), DecodeError>)
    requires
        pos < input@.len(),
        is_digit(input@[pos as int]),
    ensures
        outcome_of(r) == parse_byte_string(input@, pos as int),
        r matches Ok((v, end)) ==> pos < end <= input@.len() && v.well_formed(),
{
    let q = digit_run(input, pos);
    if q >= input.len() || input[q] != 58 {
        return fail(ErrorKind::InvalidLength, pos);
    }
    let start = q + 1;
    let room = input.len() - start;
    let ghost s = input@.subrange(pos as int, q as int);
    let mut len: usize = 0;
    let mut k = pos;
    while k < q
        invariant
            pos <= k <= q < input@.len(),
            input@[q as int] == 58,
            q as int == digit_run_end(input@, pos as int),
            room == input@.len() - (q + 1),
            s == input@.subrange(pos as int, q as int),
            all_digits(s),
            len as int == digits_value(input@.subrange(pos as int, k as int)),
            len <= room,
        decreases q - k,
    {
        proof {
            lemma_digits_step(input@, pos as int, k as int);
            assert(s.subrange(0, k + 1 - pos) =~= input@.subrange(pos as int, k + 1));
            lemma_digits_prefix(s, k + 1 - pos);
            assert(is_digit(s[k - pos]));
        }
        let digit = (input[k] - 48) as usize;
        let grown = match len.checked_mul(10) {
            Some(m) => m.checked_add(digit),
            None => None,
        };
        match grown {
            Some(g) => {
                if g > room {
                    return fail(ErrorKind::TruncatedInput, pos);
                }
                len = g;
            },
            None => {
                return fail(ErrorKind::TruncatedInput, pos);
            },
        }
        k += 1;
    }
    assert(input@.subrange(pos as int, k as int) == s);
    let payload = vstd::slice::slice_subrange(input, start, start + len);
    match string_from_utf8(vstd::slice::slice_to_vec(payload)) {
        Some(text) => Ok((BencodingValue::String(text), start + len)),
        None => fail(ErrorKind::InvalidText, pos),
    }
}

/// Decodes one value at `pos`; lists and dictionaries may nest `depth`
/// levels deep.
fn decode_value(input: &[u8], pos: usize, depth: usize) -> (r: Result<
    (BencodingValue, usize),
    DecodeError,
>)
    requires
        pos <= input@.len(),
    ensures
        outcome_of(r) == parse_value(input@, pos as int, depth as nat),
        r matches Ok((v, end)) ==> pos < end <= input@.len() && v.well_formed(),
    decreases input@.len() - pos, 0int,
{
    if pos >= input.len() {
        return fail(ErrorKind::TruncatedInput, pos);
    }
    let c = input[pos];
    if c == 105 {
        decode_integer(input, pos)
    } else if c == 108 {
        if depth == 0 {
            fail(ErrorKind::NestingTooDeep, pos)
        } else {
            decode_list(input, pos + 1, depth - 1)
        }
    } else if c == 100 {
        if depth == 0 {
            fail(ErrorKind::NestingTooDeep, pos)
        } else {
            decode_dict(input, pos + 1, depth - 1)
        }
    } else if 48 <= c && c <= 57 {
        decode_byte_string(input, pos)
    } else {
        fail(ErrorKind::UnrecognizedLeadingByte, pos)
    }
}

/// Decodes the items of a list that starts just before `pos`, through its
/// closing `e`.
fn decode_list(input: &[u8], pos: usize, depth: usize) -> (r: Result<
    (BencodingValue, usize),
    DecodeError,
>)
    requires
        pos <= input@.len(),
    ensures
        outcome_of(r) == parse_list(input@, pos as int, depth as nat, Seq::empty()),
        r matches Ok((v, end)) ==> pos < end <= input@.len() && v.well_formed(),
    decreases input@.len() - pos, 1int,
{
    let mut items: Vec<BencodingValue> = Vec::new();
    let mut tail = pos;
    assert(views_of(items@) == Seq::<Val>::empty());
    assert(all_well_formed(items@));
    loop
        invariant
            pos <= tail <= input@.len(),
            all_well_formed(items@),
            parse_list(input@, tail as int, depth as nat, views_of(items@)) == parse_list(
                input@,
                pos as int,
                depth as nat,
                Seq::empty(),
            ),
        decreases input@.len() - tail,
    {
        if tail >= input.len() {
            return fail(ErrorKind::TruncatedInput, tail);
        }
        if input[tail] == 101 {
            return Ok((BencodingValue::List(items), tail + 1));
        }
        match decode_value(input, tail, depth) {
            Err(e) => {
                return Err(e);
            },
            Ok((v, p)) => {
                proof {
                    lemma_views_of_push(items@, v);
                    lemma_all_well_formed_push(items@, v);
                }
                items.push(v);
                tail = p;
            },
        }
    }
}

/// Decodes the entries of a dictionary that starts just before `pos`,
/// through its closing `e`.
fn decode_dict(input: &[u8], pos: usize, depth: usize) -> (r: Result<
    (BencodingValue, usize),
    DecodeError,
>)
    requires
        pos <= input@.len(),
    ensures
        outcome_of(r) == parse_dict(input@, pos as int, depth as nat, Map::empty()),
        r matches Ok((v, end)) ==> pos < end <= input@.len() && v.well_formed(),
    decreases input@.len() - pos, 1int,
{
    let mut entries: Vec<(String, BencodingValue)> = Vec::new();
    let mut tail = pos;
    assert(fold_entries(Map::empty(), entries@) == Map::<Seq<u8>, Val>::empty());
    assert(entries_well_formed(entries@));
    loop
        invariant
            pos <= tail <= input@.len(),
            keys_distinct(entries@),
            entries_well_formed(entries@),
            parse_dict(input@, tail as int, depth as nat, fold_entries(Map::empty(), entries@))
                == parse_dict(input@, pos as int, depth as nat, Map::empty()),
        decreases input@.len() - tail,
    {
        if tail >= input.len() {
            return fail(ErrorKind::TruncatedInput, tail);
        }
        if input[tail] == 101 {
            return Ok((BencodingValue::Dictionary(entries), tail + 1));
        }
        let (key, p) = match decode_value(input, tail, depth) {
            Err(e) => {
                return Err(e);
            },
            Ok((BencodingValue::String(key), p)) => (key, p),
            Ok(_) => {
                return fail(ErrorKind::InvalidDictionaryKey, tail);
            },
        };
        if p >= input.len() || input[p] == 101 {
            return fail(ErrorKind::TruncatedInput, p);
        }
        let (value, q) = match decode_value(input, p, depth) {
            Err(e) => {
                return Err(e);
            },
            Ok(decoded) => decoded,
        };
        insert_entry(&mut entries, key, value);
        tail = q;
    }
}

/// Sets the entry for `key` to `value`, in place where the key is present
/// and at the end where it is not.
fn insert_entry(entries: &mut Vec<(String, BencodingValue)>, key: String, value: BencodingValue)
    requires
        keys_distinct(old(entries)@),
        entries_well_formed(old(entries)@),
        value.well_formed(),
    ensures
        keys_distinct(final(entries)@),
        entries_well_formed(final(entries)@),
        fold_entries(Map::empty(), final(entries)@) == fold_entries(
            Map::empty(),
            old(entries)@,
        ).insert(text_bytes(&key), value.view()),
{
    let mut j: usize = 0;
    while j < entries.len()
        invariant
            j <= entries@.len(),
            entries@ == old(entries)@,
            keys_distinct(entries@),
            entries_well_formed(entries@),
            value.well_formed(),
            forall|i: int| 0 <= i < j ==> (#[trigger] entries@[i]).0@ != key@,
        decreases entries@.len() - j,
    {
        if entries[j].0 == key {
            proof {
                lemma_fold_update(Map::empty(), entries@, j as int, (key, value));
                lemma_entries_well_formed_update(entries@, j as int, (key, value));
            }
            let ghost before = entries@;
            entries[j] = (key, value);
            proof {
                assert(entries@ == before.update(j as int, (key, value)));
                assert forall|a: int, b: int| 0 <= a < b < entries@.len() implies text_bytes(
                    &entries@[a].0,
                ) != text_bytes(&entries@[b].0) by {
                    if a == j {
                        assert(text_bytes(&before[b].0) != text_bytes(&before[a].0));
                    }
                }
            }
            return;
        }
        j += 1;
    }
    proof {
        lemma_fold_push(Map::empty(), entries@, (key, value));
        lemma_entries_well_formed_push(entries@, (key, value));
        assert forall|i: int| 0 <= i < entries@.len() implies text_bytes(&entries@[i].0)
            != text_bytes(&key) by {
            lemma_text_bytes_injective(&entries@[i].0, &key);
        }
    }
    entries.push((key, value));
}

/// Decodes the one bencoded value at the front of `encoded_value`, and hands
/// back that value with the bytes that follow it; lists and dictionaries may
/// nest up to `MAX_DEPTH` levels deep.
pub fn bencode_decode(encoded_value: &[u8]) -> (r: Result<(BencodingValue, &[u8]), DecodeError>)
    ensures
        match parse_value(encoded_value@, 0, MAX_DEPTH as nat) {
            Ok((v, end)) => r matches Ok((value, rest)) && value.view() == v && value.well_formed()
                && rest@
                == encoded_value@.subrange(end, encoded_value@.len() as int),
            Err((kind, offset)) => r matches Err(e) && e.kind == kind && e.offset == offset,
        },
{
    match decode_value(encoded_value, 0, MAX_DEPTH) {
        Ok((value, end)) => {
            let rest = vstd::slice::slice_subrange(encoded_value, end, encoded_value.len());
            Ok((value, rest))
        },
        Err(e) => Err(e),
    }
}

} // verus!
