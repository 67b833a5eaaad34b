use vstd::prelude::*;

verus! {

broadcast use vstd::std_specs::vec::group_vec_axioms, vstd::seq::group_seq_axioms;

/// A decoded bencode value.
///
/// A `Dictionary` holds its entries in the order in which their keys first
/// appeared; no key occurs twice in it.
#[derive(Debug, PartialEq, Eq)]
pub enum BencodingValue {
    String(String),
    Integer(i64),
    List(Vec<BencodingValue>),
    Dictionary(Vec<(String, BencodingValue)>),
}

/// The mathematical meaning of a bencode value: byte strings are byte
/// sequences, integers are integers, lists are sequences and dictionaries
/// are maps from key bytes to values.
pub enum Val {
    Str(Seq<u8>),
    Int(int),
    List(Seq<Val>),
    Dict(Map<Seq<u8>, Val>),
}

/// The bytes of a text string in its UTF-8 encoding.
pub open spec fn text_bytes(s: &String) -> Seq<u8> {
    vstd::utf8::encode_utf8(s@)
}

impl BencodingValue {
    /// What this value stands for.
    pub open spec fn view(&self) -> Val
        decreases self, 0int,
    {
        match self {
            BencodingValue::String(s) => Val::Str(text_bytes(s)),
            BencodingValue::Integer(n) => Val::Int(*n as int),
            BencodingValue::List(items) => Val::List(views_of(items@)),
            BencodingValue::Dictionary(entries) => Val::Dict(fold_entries(Map::empty(), entries@)),
        }
    }
}

impl BencodingValue {
    /// Every dictionary in this value, at any depth, has distinct keys.
    pub open spec fn well_formed(&self) -> bool
        decreases self, 0int,
    {
        match self {
            BencodingValue::List(items) => all_well_formed(items@),
            BencodingValue::Dictionary(entries) => keys_distinct(entries@)
                && entries_well_formed(entries@),
            _ => true,
        }
    }
}

pub open spec fn all_well_formed(items: Seq<BencodingValue>) -> bool
    decreases items, 1int,
{
    items.len() == 0 || (items[0].well_formed() && all_well_formed(items.drop_first()))
}

pub open spec fn entries_well_formed(entries: Seq<(String, BencodingValue)>) -> bool
    decreases entries, 1int,
{
    entries.len() == 0 || (entries[0].1.well_formed() && entries_well_formed(
        entries.drop_first(),
    ))
}

/// The meanings of a sequence of values, in order.
pub open spec fn views_of(items: Seq<BencodingValue>) -> Seq<Val>
    decreases items, 1int,
{
    if items.len() == 0 {
        Seq::empty()
    } else {
        seq![items[0].view()] + views_of(items.drop_first())
    }
}

/// The map that results from inserting the entries into `acc` one by one,
/// first to last, so that a later entry overrides an earlier one of equal key.
pub open spec fn fold_entries(
    acc: Map<Seq<u8>, Val>,
    entries: Seq<(String, BencodingValue)>,
) -> Map<Seq<u8>, Val>
    decreases entries, 1int,
{
    if entries.len() == 0 {
        acc
    } else {
        fold_entries(
            acc.insert(text_bytes(&entries[0].0), entries[0].1.view()),
            entries.drop_first(),
        )
    }
}

/// No two entries carry keys with the same bytes.
pub open spec fn keys_distinct(entries: Seq<(String, BencodingValue)>) -> bool {
    forall|i: int, j: int|
        0 <= i < j < entries.len() ==> text_bytes(&entries[i].0) != text_bytes(&entries[j].0)
}

/// Equal key bytes mean equal keys.
pub proof fn lemma_text_bytes_injective(a: &String, b: &String)
    ensures
        text_bytes(a) == text_bytes(b) ==> a@ == b@,
{
    vstd::utf8::encode_utf8_decode_utf8(a@);
    vstd::utf8::encode_utf8_decode_utf8(b@);
}

pub proof fn lemma_views_of_push(items: Seq<BencodingValue>, v: BencodingValue)
    ensures
        views_of(items.push(v)) == views_of(items).push(v.view()),
    decreases items.len(),
{
    if items.len() == 0 {
        assert(items.push(v).drop_first() =~= items);
        assert(views_of(items.push(v)) =~= views_of(items).push(v.view()));
    } else {
        assert(items.push(v).drop_first() =~= items.drop_first().push(v));
        lemma_views_of_push(items.drop_first(), v);
        assert(views_of(items.push(v)) =~= views_of(items).push(v.view()));
    }
}

pub proof fn lemma_fold_push(
    acc: Map<Seq<u8>, Val>,
    entries: Seq<(String, BencodingValue)>,
    e: (String, BencodingValue),
)
    ensures
        fold_entries(acc, entries.push(e)) == fold_entries(acc, entries).insert(
            text_bytes(&e.0),
            e.1.view(),
        ),
    decreases entries.len(),
{
    if entries.len() == 0 {
        assert(entries.push(e).drop_first() =~= entries);
        assert(entries.push(e)[0] == e);
        let m = acc.insert(text_bytes(&e.0), e.1.view());
        assert(fold_entries(m, entries) == m);
    } else {
        assert(entries.push(e).drop_first() =~= entries.drop_first().push(e));
        assert(entries.push(e)[0] == entries[0]);
        lemma_fold_push(
            acc.insert(text_bytes(&entries[0].0), entries[0].1.view()),
            entries.drop_first(),
            e,
        );
    }
}

/// Folding in entries none of which has key `k` commutes with inserting `k`.
pub proof fn lemma_fold_absent(
    acc: Map<Seq<u8>, Val>,
    k: Seq<u8>,
    x: Val,
    entries: Seq<(String, BencodingValue)>,
)
    requires
        forall|i: int| 0 <= i < entries.len() ==> text_bytes(&(#[trigger] entries[i]).0) != k,
    ensures
        fold_entries(acc.insert(k, x), entries) == fold_entries(acc, entries).insert(k, x),
    decreases entries.len(),
{
    if entries.len() > 0 {
        let k0 = text_bytes(&entries[0].0);
        let v0 = entries[0].1.view();
        assert(acc.insert(k, x).insert(k0, v0) =~= acc.insert(k0, v0).insert(k, x));
        let rest = entries.drop_first();
        assert forall|i: int| 0 <= i < rest.len() implies text_bytes(&(#[trigger] rest[i]).0)
            != k by {
            assert(rest[i] == entries[i + 1]);
        }
        lemma_fold_absent(acc.insert(k0, v0), k, x, rest);
    }
}

/// Replacing the entry whose key equals the new one's acts as an insertion.
pub proof fn lemma_fold_update(
    acc: Map<Seq<u8>, Val>,
    entries: Seq<(String, BencodingValue)>,
    j: int,
    e: (String, BencodingValue),
)
    requires
        keys_distinct(entries),
        0 <= j < entries.len(),
        text_bytes(&entries[j].0) == text_bytes(&e.0),
    ensures
        fold_entries(acc, entries.update(j, e)) == fold_entries(acc, entries).insert(
            text_bytes(&e.0),
            e.1.view(),
        ),
    decreases entries.len(),
{
    let k = text_bytes(&e.0);
    let rest = entries.drop_first();
    let k0 = text_bytes(&entries[0].0);
    let v0 = entries[0].1.view();
    if j == 0 {
        assert(entries.update(j, e).drop_first() =~= rest);
        assert forall|i: int| 0 <= i < rest.len() implies text_bytes(&(#[trigger] rest[i]).0)
            != k by {
            assert(rest[i] == entries[i + 1]);
        }
        lemma_fold_absent(acc, k, e.1.view(), rest);
        lemma_fold_absent(acc, k, v0, rest);
        assert(fold_entries(acc, rest).insert(k, v0).insert(k, e.1.view()) =~= fold_entries(
            acc,
            rest,
        ).insert(k, e.1.view()));
    } else {
        assert(entries.update(j, e).drop_first() =~= rest.update(j - 1, e));
        assert(rest[j - 1] == entries[j]);
        lemma_fold_update(acc.insert(k0, v0), rest, j - 1, e);
    }
}

pub proof fn lemma_all_well_formed_push(items: Seq<BencodingValue>, v: BencodingValue)
    requires
        all_well_formed(items),
        v.well_formed(),
    ensures
        all_well_formed(items.push(v)),
    decreases items.len(),
{
    if items.len() == 0 {
        assert(items.push(v).drop_first() =~= items);
    } else {
        assert(items.push(v).drop_first() =~= items.drop_first().push(v));
        lemma_all_well_formed_push(items.drop_first(), v);
    }
    assert(items.push(v)[0] == if items.len() == 0 {
        v
    } else {
        items[0]
    });
}

pub proof fn lemma_entries_well_formed_push(
    entries: Seq<(String, BencodingValue)>,
    e: (String, BencodingValue),
)
    requires
        entries_well_formed(entries),
        e.1.well_formed(),
    ensures
        entries_well_formed(entries.push(e)),
    decreases entries.len(),
{
    if entries.len() == 0 {
        assert(entries.push(e).drop_first() =~= entries);
    } else {
        assert(entries.push(e).drop_first() =~= entries.drop_first().push(e));
        lemma_entries_well_formed_push(entries.drop_first(), e);
    }
    assert(entries.push(e)[0] == if entries.len() == 0 {
        e
    } else {
        entries[0]
    });
}

pub proof fn lemma_entries_well_formed_update(
    entries: Seq<(String, BencodingValue)>,
    j: int,
    e: (String, BencodingValue),
)
    requires
        entries_well_formed(entries),
        0 <= j < entries.len(),
        e.1.well_formed(),
    ensures
        entries_well_formed(entries.update(j, e)),
    decreases entries.len(),
{
    if j == 0 {
        assert(entries.update(j, e).drop_first() =~= entries.drop_first());
    } else {
        assert(entries.update(j, e).drop_first() =~= entries.drop_first().update(j - 1, e));
        lemma_entries_well_formed_update(entries.drop_first(), j - 1, e);
    }
}

} // verus!
