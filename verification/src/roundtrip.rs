use crate::canonical::{
    canonical, canonical_entries, canonical_items, canonizer, encoder, lemma_canonical_entries_maps,
    lemma_canonical_items, lemma_decode_encode, lemma_encoded_entries_maps,
};
use crate::decode::{decode_entries, decode_items, decode_value, parse_bytes, spec_decode};
use crate::encode::{encode_items, encoded_entries, join_entries, spec_encode};
use crate::entries::{
    dedup, keys_increasing, keys_unique, last_value, lemma_dedup, lemma_dedup_members,
    lemma_increasing_determined, lemma_last_value_maps, lemma_sort_by_key, lemma_sort_by_key_len,
    lemma_sort_by_key_maps, lemma_sort_by_key_members, lemma_sort_by_key_of_increasing, map_payload,
    sort_by_key,
};
use crate::value::ValueView;
use vstd::prelude::*;

verus! {

/// No dictionary anywhere in the tree holds a key twice.
pub open spec fn no_repeated_keys(v: ValueView) -> bool
    decreases v,
{
    match v {
        ValueView::Integer(_) => true,
        ValueView::Bytes(_) => true,
        ValueView::List(items) => forall|i: int|
            0 <= i < items.len() ==> no_repeated_keys(#[trigger] items[i]),
        ValueView::Dict(entries) => keys_unique(entries) && forall|i: int|
            0 <= i < entries.len() ==> no_repeated_keys((#[trigger] entries[i]).1),
    }
}

/// Every dictionary anywhere in the tree holds its entries in strictly
/// increasing order of their keys.
pub open spec fn keys_in_order(v: ValueView) -> bool
    decreases v,
{
    match v {
        ValueView::Integer(_) => true,
        ValueView::Bytes(_) => true,
        ValueView::List(items) => forall|i: int|
            0 <= i < items.len() ==> keys_in_order(#[trigger] items[i]),
        ValueView::Dict(entries) => keys_increasing(entries) && forall|i: int|
            0 <= i < entries.len() ==> keys_in_order((#[trigger] entries[i]).1),
    }
}

/// The two trees say the same: equal numbers, equal byte strings, lists
/// that say the same item by item, dictionaries of equal size in which
/// each entry of the one has a partner under the same key in the other
/// that says the same. The order of a dictionary's entries plays no part.
pub open spec fn same_tree(a: ValueView, b: ValueView) -> bool
    decreases a,
{
    match a {
        ValueView::Integer(x) => b == a,
        ValueView::Bytes(x) => b == a,
        ValueView::List(x) => b matches ValueView::List(y) && x.len() == y.len() && forall|i: int|
            0 <= i < x.len() ==> same_tree(#[trigger] x[i], y[i]),
        ValueView::Dict(x) => b matches ValueView::Dict(y) && x.len() == y.len() && forall|i: int|
            0 <= i < x.len() ==> exists|j: int|
                0 <= j < y.len() && (#[trigger] x[i]).0 == (#[trigger] y[j]).0 && same_tree(
                    x[i].1,
                    y[j].1,
                ),
    }
}

/// A tree whose dictionaries are in order is its own canonical form.
pub proof fn lemma_canonical_of_ordered(v: ValueView)
    requires
        keys_in_order(v),
    ensures
        canonical(v) == v,
    decreases v,
{
    match v {
        ValueView::Integer(_) => {},
        ValueView::Bytes(_) => {},
        ValueView::List(items) => {
            lemma_canonical_items(items);
            assert forall|i: int| 0 <= i < items.len() implies canonical(#[trigger] items[i])
                == items[i] by {
                lemma_canonical_of_ordered(items[i]);
            }
            assert(canonical_items(items) =~= items);
        },
        ValueView::Dict(entries) => {
            lemma_canonical_entries_maps(entries);
            assert forall|i: int| 0 <= i < entries.len() implies canonical(
                (#[trigger] entries[i]).1,
            ) == entries[i].1 by {
                lemma_canonical_of_ordered(entries[i].1);
            }
            assert(canonical_entries(entries) =~= entries);
            lemma_sort_by_key_of_increasing(entries);
        },
    }
}

/// The canonical form of a tree without a repeated key says the same as
/// the tree.
pub proof fn lemma_canonical_same_tree(v: ValueView)
    requires
        no_repeated_keys(v),
    ensures
        same_tree(canonical(v), v),
    decreases v,
{
    match v {
        ValueView::Integer(_) => {},
        ValueView::Bytes(_) => {},
        ValueView::List(items) => {
            lemma_canonical_items(items);
            let c = canonical_items(items);
            assert forall|i: int| 0 <= i < c.len() implies same_tree(#[trigger] c[i], items[i]) by {
                lemma_canonical_same_tree(items[i]);
            }
        },
        ValueView::Dict(entries) => {
            let sorted = sort_by_key(entries);
            let c = map_payload(sorted, canonizer());
            lemma_canonical_entries_maps(entries);
            lemma_sort_by_key_maps(entries, canonizer());
            lemma_sort_by_key_len(entries);
            assert(canonical(v) == ValueView::Dict(c));
            assert forall|i: int| 0 <= i < c.len() implies exists|j: int|
                0 <= j < entries.len() && (#[trigger] c[i]).0 == (#[trigger] entries[j]).0
                    && same_tree(c[i].1, entries[j].1) by {
                lemma_sort_by_key_members(entries, i);
                let j = choose|j: int| 0 <= j < entries.len() && #[trigger] entries[j] == sorted[i];
                lemma_canonical_same_tree(entries[j].1);
                assert(c[i].0 == entries[j].0 && same_tree(c[i].1, entries[j].1));
            }
        },
    }
}

/// Decoding the encoding of a tree without a repeated key gives a tree
/// that says the same, and the very same tree where its dictionaries
/// were in order.
pub proof fn lemma_round_trip(v: ValueView)
    requires
        no_repeated_keys(v),
    ensures
        spec_decode(spec_encode(v)) matches Some(w) && same_tree(w, v),
        keys_in_order(v) ==> spec_decode(spec_encode(v)) == Some(v),
{
    lemma_decode_encode(v);
    lemma_canonical_same_tree(v);
    if keys_in_order(v) {
        lemma_canonical_of_ordered(v);
    }
}

/// The encoding of a dictionary writes its entries with strictly
/// increasing keys, each key with what its last entry holds.
pub proof fn lemma_dictionary_encoding_ordered(entries: Seq<(Seq<u8>, ValueView)>)
    ensures
        spec_encode(ValueView::Dict(entries)) == seq![100u8] + join_entries(
            sort_by_key(encoded_entries(entries)),
        ) + seq![101u8],
        keys_increasing(sort_by_key(encoded_entries(entries))),
        forall|q: Seq<u8>| #[trigger]
            last_value(sort_by_key(encoded_entries(entries)), q) == (match last_value(entries, q) {
                Some(v) => Some(spec_encode(v)),
                None => None,
            }),
{
    lemma_sort_by_key(encoded_entries(entries));
    lemma_encoded_entries_maps(entries);
    assert forall|q: Seq<u8>| #[trigger]
        last_value(sort_by_key(encoded_entries(entries)), q) == (match last_value(entries, q) {
            Some(v) => Some(spec_encode(v)),
            None => None,
        }) by {
        lemma_last_value_maps(entries, encoder(), q);
    }
}

/// Two dictionaries that hold the same under each key have the same
/// encoding, in whatever order each holds its entries.
pub proof fn lemma_encoding_ignores_entry_order(
    a: Seq<(Seq<u8>, ValueView)>,
    b: Seq<(Seq<u8>, ValueView)>,
)
    requires
        forall|q: Seq<u8>| last_value(a, q) == last_value(b, q),
    ensures
        spec_encode(ValueView::Dict(a)) == spec_encode(ValueView::Dict(b)),
{
    let sa = sort_by_key(encoded_entries(a));
    let sb = sort_by_key(encoded_entries(b));
    lemma_dictionary_encoding_ordered(a);
    lemma_dictionary_encoding_ordered(b);
    assert forall|q: Seq<u8>| last_value(sa, q) == last_value(sb, q) by {
        assert(last_value(a, q) == last_value(b, q));
    }
    lemma_increasing_determined(sa, sb);
}

/// What decoding gives holds no key twice in any dictionary.
pub proof fn lemma_decoded_keys_unique(s: Seq<u8>, i: int)
    ensures
        decode_value(s, i) matches Some((v, _)) ==> no_repeated_keys(v),
    decreases s.len() - i, 0nat,
{
    if 0 <= i < s.len() {
        if s[i] == 108 {
            lemma_decoded_items_unique(s, i + 1);
        } else if s[i] == 100 {
            lemma_decoded_entries_unique(s, i + 1);
            if let Some((entries, _)) = decode_entries(s, i + 1) {
                let kept = dedup(entries);
                lemma_dedup(entries);
                assert forall|k: int| 0 <= k < kept.len() implies no_repeated_keys(
                    (#[trigger] kept[k]).1,
                ) by {
                    lemma_dedup_members(entries, k);
                    let m = choose|m: int| 0 <= m < entries.len() && #[trigger] entries[m] == kept[k];
                    assert(no_repeated_keys(entries[m].1));
                }
            }
        }
    }
}

pub proof fn lemma_decoded_items_unique(s: Seq<u8>, i: int)
    ensures
        decode_items(s, i) matches Some((items, _)) ==> forall|k: int|
            0 <= k < items.len() ==> no_repeated_keys(#[trigger] items[k]),
    decreases s.len() - i, 1nat,
{
    if 0 <= i < s.len() && s[i] != 101 {
        lemma_decoded_keys_unique(s, i);
        if let Some((v, j)) = decode_value(s, i) {
            if i < j <= s.len() {
                lemma_decoded_items_unique(s, j);
                if let Some((rest, _)) = decode_items(s, j) {
                    let items = seq![v] + rest;
                    assert forall|k: int| 0 <= k < items.len() implies no_repeated_keys(
                        #[trigger] items[k],
                    ) by {
                        if k > 0 {
                            assert(items[k] == rest[k - 1]);
                        }
                    }
                }
            }
        }
    }
}

pub proof fn lemma_decoded_entries_unique(s: Seq<u8>, i: int)
    ensures
        decode_entries(s, i) matches Some((entries, _)) ==> forall|k: int|
            0 <= k < entries.len() ==> no_repeated_keys((#[trigger] entries[k]).1),
    decreases s.len() - i, 1nat,
{
    if 0 <= i < s.len() && s[i] != 101 {
        if let Some((key, j)) = parse_bytes(s, i) {
            if i < j <= s.len() {
                lemma_decoded_keys_unique(s, j);
                if let Some((v, k)) = decode_value(s, j) {
                    if j < k <= s.len() {
                        lemma_decoded_entries_unique(s, k);
                        if let Some((rest, _)) = decode_entries(s, k) {
                            let entries = seq![(key, v)] + rest;
                            assert forall|n: int| 0 <= n < entries.len() implies no_repeated_keys(
                                (#[trigger] entries[n]).1,
                            ) by {
                                if n > 0 {
                                    assert(entries[n] == rest[n - 1]);
                                }
                            }
                        }
                    }
                }
            }
        }
    }
}

/// The canonical form of a tree has the encoding of the tree.
pub proof fn lemma_encode_canonical(v: ValueView)
    ensures
        spec_encode(canonical(v)) == spec_encode(v),
    decreases v,
{
    match v {
        ValueView::Integer(_) => {},
        ValueView::Bytes(_) => {},
        ValueView::List(items) => {
            lemma_canonical_items(items);
            lemma_encode_items_canonical(items);
        },
        ValueView::Dict(entries) => {
            let sorted = sort_by_key(entries);
            let c = map_payload(sorted, canonizer());
            lemma_canonical_entries_maps(entries);
            lemma_sort_by_key_maps(entries, canonizer());
            assert(canonical(v) == ValueView::Dict(c));
            lemma_encoded_entries_maps(c);
            lemma_encoded_entries_maps(entries);
            lemma_sort_by_key_maps(entries, encoder());
            assert(map_payload(c, encoder()) =~= map_payload(sorted, encoder())) by {
                assert forall|i: int| 0 <= i < sorted.len() implies spec_encode(
                    canonical((#[trigger] sorted[i]).1),
                ) == spec_encode(sorted[i].1) by {
                    lemma_sort_by_key_members(entries, i);
                    let j = choose|j: int| 0 <= j < entries.len() && #[trigger] entries[j] == sorted[i];
                    lemma_encode_canonical(entries[j].1);
                }
            }
            lemma_sort_by_key(encoded_entries(entries));
            lemma_sort_by_key_of_increasing(map_payload(sorted, encoder()));
        },
    }
}

pub proof fn lemma_encode_items_canonical(items: Seq<ValueView>)
    ensures
        encode_items(canonical_items(items))
            == encode_items(items),
    decreases items,
{
    if items.len() > 0 {
        lemma_encode_items_canonical(items.drop_last());
        lemma_encode_canonical(items.last());
        let c = canonical_items(items);
        assert(c.drop_last() =~= canonical_items(items.drop_last()));
    }
}

/// Encoding again what was decoded from an encoding gives the same
/// bytes: the canonical form is stable.
pub proof fn lemma_reencoding_stable(v: ValueView)
    ensures
        spec_decode(spec_encode(v)) matches Some(w) && spec_encode(w) == spec_encode(v),
{
    lemma_decode_encode(v);
    lemma_encode_canonical(v);
}

/// Trees with the same encoding have the same canonical form: the
/// encoding loses nothing but the order of entries.
pub proof fn lemma_encoding_injective(a: ValueView, b: ValueView)
    requires
        spec_encode(a) == spec_encode(b),
    ensures
        canonical(a) == canonical(b),
{
    lemma_decode_encode(a);
    lemma_decode_encode(b);
}

} // verus!
