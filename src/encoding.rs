use vstd::prelude::*;

use crate::decode::MAX_DEPTH;
use crate::grammar::{
    all_digits, digit_run_end, digits_value, first_at_or_after, integer_text_value, is_digit,
    parse_dict, parse_list, parse_value, Outcome,
};
use crate::value::{fold_entries, text_bytes, views_of, BencodingValue, Val};

verus! {

broadcast use vstd::std_specs::vec::group_vec_axioms, vstd::seq::group_seq_axioms;

/// The decimal digits of `n`, most significant first, without leading zeros.
pub open spec fn decimal(n: nat) -> Seq<u8>
    decreases n,
{
    if n < 10 {
        seq![(n + 48) as u8]
    } else {
        decimal(n / 10).push((n % 10 + 48) as u8)
    }
}

/// The text of an integer: an optional `-` and its decimal digits.
pub open spec fn integer_text(n: int) -> Seq<u8> {
    if n < 0 {
        seq![45u8] + decimal((-n) as nat)
    } else {
        decimal(n as nat)
    }
}

/// The encoding of a text string: its byte length, `:`, its bytes.
pub open spec fn encoded_text(s: String) -> Seq<u8> {
    decimal(text_bytes(&s).len()) + seq![58u8] + text_bytes(&s)
}

/// The bencode encoding of a value, with dictionary entries in their order.
pub open spec fn encoded(v: BencodingValue) -> Seq<u8>
    decreases v, 0int,
{
    match v {
        BencodingValue::String(s) => encoded_text(s),
        BencodingValue::Integer(n) => seq![105u8] + integer_text(n as int) + seq![101u8],
        BencodingValue::List(items) => seq![108u8] + encoded_items(items@) + seq![101u8],
        BencodingValue::Dictionary(entries) => seq![100u8] + encoded_entries(entries@) + seq![
            101u8,
        ],
    }
}

/// The encodings of a sequence of values, one after another.
pub open spec fn encoded_items(items: Seq<BencodingValue>) -> Seq<u8>
    decreases items, 1int,
{
    if items.len() == 0 {
        Seq::empty()
    } else {
        encoded(items[0]) + encoded_items(items.drop_first())
    }
}

/// The encodings of dictionary entries, each key followed by its value.
pub open spec fn encoded_entries(entries: Seq<(String, BencodingValue)>) -> Seq<u8>
    decreases entries, 1int,
{
    if entries.len() == 0 {
        Seq::empty()
    } else {
        encoded_text(entries[0].0) + encoded(entries[0].1) + encoded_entries(entries.drop_first())
    }
}

/// Lists and dictionaries in `v` nest at most `depth` levels deep.
pub open spec fn fits_depth(v: BencodingValue, depth: nat) -> bool
    decreases v, 0int,
{
    match v {
        BencodingValue::List(items) => depth > 0 && items_fit_depth(items@, (depth - 1) as nat),
        BencodingValue::Dictionary(entries) => depth > 0 && entries_fit_depth(
            entries@,
            (depth - 1) as nat,
        ),
        _ => true,
    }
}

pub open spec fn items_fit_depth(items: Seq<BencodingValue>, depth: nat) -> bool
    decreases items, 1int,
{
    items.len() == 0 || (fits_depth(items[0], depth) && items_fit_depth(items.drop_first(), depth))
}

pub open spec fn entries_fit_depth(entries: Seq<(String, BencodingValue)>, depth: nat) -> bool
    decreases entries, 1int,
{
    entries.len() == 0 || (fits_depth(entries[0].1, depth) && entries_fit_depth(
        entries.drop_first(),
        depth,
    ))
}

/// `b` holds `e` from `pos` on.
pub open spec fn holds_at(b: Seq<u8>, pos: int, e: Seq<u8>) -> bool {
    0 <= pos && pos + e.len() <= b.len() && b.subrange(pos, pos + e.len()) == e
}

proof fn lemma_holds_index(b: Seq<u8>, pos: int, e: Seq<u8>, k: int)
    requires
        holds_at(b, pos, e),
        0 <= k < e.len(),
    ensures
        b[pos + k] == e[k],
{
    assert(b.subrange(pos, pos + e.len())[k] == b[pos + k]);
}

proof fn lemma_holds_split(b: Seq<u8>, pos: int, x: Seq<u8>, y: Seq<u8>)
    requires
        holds_at(b, pos, x + y),
    ensures
        holds_at(b, pos, x),
        holds_at(b, pos + x.len(), y),
{
    assert forall|k: int| 0 <= k < x.len() implies #[trigger] b.subrange(pos, pos + x.len())[k]
        == x[k] by {
        lemma_holds_index(b, pos, x + y, k);
    }
    assert(b.subrange(pos, pos + x.len()) =~= x);
    assert forall|k: int| 0 <= k < y.len() implies #[trigger] b.subrange(
        pos + x.len(),
        pos + x.len() + y.len(),
    )[k] == y[k] by {
        lemma_holds_index(b, pos, x + y, x.len() + k);
    }
    assert(b.subrange(pos + x.len(), pos + x.len() + y.len()) =~= y);
}

proof fn lemma_decimal(n: nat)
    ensures
        decimal(n).len() >= 1,
        all_digits(decimal(n)),
        digits_value(decimal(n)) == n,
    decreases n,
{
    if n < 10 {
        assert(decimal(n).drop_last() =~= Seq::<u8>::empty());
        assert(digits_value(Seq::<u8>::empty()) == 0);
    } else {
        lemma_decimal(n / 10);
        let s = decimal(n);
        assert(s.drop_last() =~= decimal(n / 10));
        assert(s.last() == (n % 10 + 48) as u8);
        assert(n == 10 * (n / 10) + n % 10) by {
            vstd::arithmetic::div_mod::lemma_fundamental_div_mod(n as int, 10);
        }
        assert forall|k: int| 0 <= k < s.len() implies is_digit(#[trigger] s[k]) by {
            if k < s.len() - 1 {
                assert(s[k] == decimal(n / 10)[k]);
            }
        }
    }
}

proof fn lemma_digit_run(b: Seq<u8>, i: int, j: int)
    requires
        0 <= i <= j <= b.len(),
        forall|k: int| i <= k < j ==> is_digit(#[trigger] b[k]),
        j == b.len() || !is_digit(b[j]),
    ensures
        digit_run_end(b, i) == j,
    decreases j - i,
{
    if i < j {
        lemma_digit_run(b, i + 1, j);
    }
}

proof fn lemma_first_e(b: Seq<u8>, i: int, j: int)
    requires
        0 <= i <= j < b.len(),
        forall|k: int| i <= k < j ==> #[trigger] b[k] != 101,
        b[j] == 101,
    ensures
        first_at_or_after(b, i, 101) == j,
    decreases j - i,
{
    if i < j {
        lemma_first_e(b, i + 1, j);
    }
}

/// The digits of a length, then `:`, read back as that length.
proof fn lemma_parse_text(b: Seq<u8>, pos: int, s: String, depth: nat)
    requires
        holds_at(b, pos, encoded_text(s)),
    ensures
        parse_value(b, pos, depth) == Outcome::Ok(
            (Val::Str(text_bytes(&s)), pos + encoded_text(s).len()),
        ),
{
    let t = text_bytes(&s);
    let d = decimal(t.len());
    lemma_decimal(t.len());
    lemma_holds_split(b, pos, d + seq![58u8], t);
    lemma_holds_split(b, pos, d, seq![58u8]);
    let q = pos + d.len();
    lemma_holds_index(b, pos + d.len(), seq![58u8], 0);
    lemma_holds_index(b, pos, d, 0);
    assert forall|k: int| pos <= k < q implies is_digit(#[trigger] b[k]) by {
        lemma_holds_index(b, pos, d, k - pos);
    }
    lemma_digit_run(b, pos, q);
    vstd::utf8::encode_utf8_valid_utf8(s@);
}

proof fn lemma_parse_integer(b: Seq<u8>, pos: int, n: i64, depth: nat)
    requires
        holds_at(b, pos, encoded(BencodingValue::Integer(n))),
    ensures
        parse_value(b, pos, depth) == Outcome::Ok(
            (Val::Int(n as int), pos + encoded(BencodingValue::Integer(n)).len()),
        ),
{
    let t = integer_text(n as int);
    lemma_holds_split(b, pos, seq![105u8] + t, seq![101u8]);
    lemma_holds_split(b, pos, seq![105u8], t);
    lemma_holds_index(b, pos, seq![105u8], 0);
    let e = pos + 1 + t.len();
    lemma_holds_index(b, e, seq![101u8], 0);
    let m: nat = if n < 0 {
        (-n) as nat
    } else {
        n as nat
    };
    lemma_decimal(m);
    if n < 0 {
        assert(t.drop_first() =~= decimal(m));
    }
    assert forall|k: int| pos + 1 <= k < e implies #[trigger] b[k] != 101 by {
        lemma_holds_index(b, pos + 1, t, k - pos - 1);
        if n < 0 && k > pos + 1 {
            assert(t[k - pos - 1] == decimal(m)[k - pos - 2]);
        }
    }
    lemma_first_e(b, pos + 1, e);
    assert(integer_text_value(t) == Some(n as int));
}

/// Decoding at `pos` reads back any value whose encoding stands there.
pub proof fn lemma_parse_encoded(b: Seq<u8>, pos: int, v: BencodingValue, depth: nat)
    requires
        holds_at(b, pos, encoded(v)),
        fits_depth(v, depth),
    ensures
        parse_value(b, pos, depth) == Outcome::Ok((v.view(), pos + encoded(v).len())),
    decreases v, 0int,
{
    match v {
        BencodingValue::String(s) => {
            lemma_parse_text(b, pos, s, depth);
        },
        BencodingValue::Integer(n) => {
            lemma_parse_integer(b, pos, n, depth);
        },
        BencodingValue::List(items) => {
            let e = encoded_items(items@);
            lemma_holds_split(b, pos, seq![108u8] + e, seq![101u8]);
            lemma_holds_split(b, pos, seq![108u8], e);
            lemma_holds_index(b, pos, seq![108u8], 0);
            lemma_holds_index(b, pos + 1 + e.len(), seq![101u8], 0);
            lemma_parse_items(b, pos + 1, items@, (depth - 1) as nat, Seq::empty());
            assert(Seq::<Val>::empty() + views_of(items@) =~= views_of(items@));
        },
        BencodingValue::Dictionary(entries) => {
            let e = encoded_entries(entries@);
            lemma_holds_split(b, pos, seq![100u8] + e, seq![101u8]);
            lemma_holds_split(b, pos, seq![100u8], e);
            lemma_holds_index(b, pos, seq![100u8], 0);
            lemma_holds_index(b, pos + 1 + e.len(), seq![101u8], 0);
            lemma_parse_entries(b, pos + 1, entries@, (depth - 1) as nat, Map::empty());
        },
    }
}

/// An encoding never starts with the byte `e`, and is never empty.
proof fn lemma_encoded_start(v: BencodingValue)
    ensures
        encoded(v).len() > 0,
        encoded(v)[0] != 101,
{
    match v {
        BencodingValue::String(s) => {
            lemma_decimal(text_bytes(&s).len());
            assert(encoded(v)[0] == decimal(text_bytes(&s).len())[0]);
        },
        _ => {},
    }
}

proof fn lemma_parse_items(
    b: Seq<u8>,
    pos: int,
    items: Seq<BencodingValue>,
    depth: nat,
    acc: Seq<Val>,
)
    requires
        holds_at(b, pos, encoded_items(items)),
        pos + encoded_items(items).len() < b.len(),
        b[pos + encoded_items(items).len()] == 101,
        items_fit_depth(items, depth),
    ensures
        parse_list(b, pos, depth, acc) == Outcome::Ok(
            (Val::List(acc + views_of(items)), pos + encoded_items(items).len() + 1),
        ),
    decreases items, 1int,
{
    if items.len() == 0 {
        assert(acc + views_of(items) =~= acc);
    } else {
        let first = encoded(items[0]);
        let rest = items.drop_first();
        lemma_holds_split(b, pos, first, encoded_items(rest));
        lemma_encoded_start(items[0]);
        lemma_holds_index(b, pos, first, 0);
        lemma_parse_encoded(b, pos, items[0], depth);
        lemma_parse_items(b, pos + first.len(), rest, depth, acc.push(items[0].view()));
        assert(acc.push(items[0].view()) + views_of(rest) =~= acc + views_of(items));
    }
}

proof fn lemma_parse_entries(
    b: Seq<u8>,
    pos: int,
    entries: Seq<(String, BencodingValue)>,
    depth: nat,
    acc: Map<Seq<u8>, Val>,
)
    requires
        holds_at(b, pos, encoded_entries(entries)),
        pos + encoded_entries(entries).len() < b.len(),
        b[pos + encoded_entries(entries).len()] == 101,
        entries_fit_depth(entries, depth),
    ensures
        parse_dict(b, pos, depth, acc) == Outcome::Ok(
            (Val::Dict(fold_entries(acc, entries)), pos + encoded_entries(entries).len() + 1),
        ),
    decreases entries, 1int,
{
    if entries.len() > 0 {
        let key = encoded_text(entries[0].0);
        let value = encoded(entries[0].1);
        let rest = entries.drop_first();
        lemma_holds_split(b, pos, key + value, encoded_entries(rest));
        lemma_holds_split(b, pos, key, value);
        lemma_decimal(text_bytes(&entries[0].0).len());
        assert(key[0] == decimal(text_bytes(&entries[0].0).len())[0]);
        lemma_holds_index(b, pos, key, 0);
        lemma_parse_text(b, pos, entries[0].0, depth);
        let p = pos + key.len();
        lemma_encoded_start(entries[0].1);
        lemma_holds_index(b, p, value, 0);
        lemma_parse_encoded(b, p, entries[0].1, depth);
        lemma_parse_entries(
            b,
            p + value.len(),
            rest,
            depth,
            acc.insert(text_bytes(&entries[0].0), entries[0].1.view()),
        );
    }
}

/// Decoding the encoding of any value whose lists and dictionaries nest at
/// most `MAX_DEPTH` levels deep gives back what the value stands for, with
/// no bytes left over.
pub proof fn lemma_decode_encoded(v: BencodingValue)
    requires
        fits_depth(v, MAX_DEPTH as nat),
    ensures
        parse_value(encoded(v), 0, MAX_DEPTH as nat) == Outcome::Ok(
            (v.view(), encoded(v).len() as int),
        ),
{
    assert(encoded(v).subrange(0, encoded(v).len() as int) =~= encoded(v));
    lemma_parse_encoded(encoded(v), 0, v, MAX_DEPTH as nat);
}

} // verus!
