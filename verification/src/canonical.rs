use crate::decode::{
    decode_entries, decode_items, decode_value, parse_bytes, parse_integer, spec_decode,
};
use crate::digits::{
    digits_end, digits_value, is_digit, lemma_digits_end_of_run, lemma_digits_value_of_nat_digits,
    lemma_nat_digits_shape, nat_digits,
};
use crate::encode::{encode_bytes, encode_items, encoded_entries, join_entries, spec_encode};
use crate::entries::{
    keys_increasing, lemma_dedup_of_unique, lemma_increasing_is_unique, lemma_sort_by_key,
    lemma_sort_by_key_maps, lemma_sort_by_key_members, map_payload, sort_by_key,
};
use crate::bytes::bytes_lt;
use crate::value::{lemma_size_entries, lemma_size_items, size, size_entries, size_items, ValueView};
use vstd::prelude::*;

verus! {

/// The tree with every dictionary's entries ordered by key, and of
/// several entries with one key only the last.
pub open spec fn canonical(v: ValueView) -> ValueView
    decreases v,
{
    match v {
        ValueView::Integer(_) => v,
        ValueView::Bytes(_) => v,
        ValueView::List(items) => ValueView::List(canonical_items(items)),
        ValueView::Dict(entries) => ValueView::Dict(sort_by_key(canonical_entries(entries))),
    }
}

pub open spec fn canonical_items(items: Seq<ValueView>) -> Seq<ValueView>
    decreases items,
{
    if items.len() == 0 {
        Seq::empty()
    } else {
        canonical_items(items.drop_last()).push(canonical(items.last()))
    }
}

pub open spec fn canonical_entries(entries: Seq<(Seq<u8>, ValueView)>) -> Seq<(Seq<u8>, ValueView)>
    decreases entries,
{
    if entries.len() == 0 {
        Seq::empty()
    } else {
        canonical_entries(entries.drop_last()).push(
            (entries.last().0, canonical(entries.last().1)),
        )
    }
}

/// `x` stands in `s` from position `pos` on.
pub open spec fn holds_at(s: Seq<u8>, pos: int, x: Seq<u8>) -> bool {
    0 <= pos && pos + x.len() <= s.len() && s.subrange(pos, pos + x.len()) == x
}

pub proof fn lemma_holds_at_index(s: Seq<u8>, pos: int, x: Seq<u8>, k: int)
    requires
        holds_at(s, pos, x),
        0 <= k < x.len(),
    ensures
        s[pos + k] == x[k],
{
    assert(s.subrange(pos, pos + x.len())[k] == s[pos + k]);
}

pub proof fn lemma_holds_at_split(s: Seq<u8>, pos: int, a: Seq<u8>, b: Seq<u8>)
    requires
        holds_at(s, pos, a + b),
    ensures
        holds_at(s, pos, a),
        holds_at(s, pos + a.len(), b),
{
    let whole = s.subrange(pos, pos + (a + b).len());
    assert(s.subrange(pos, pos + a.len()) =~= whole.subrange(0, a.len() as int));
    assert((a + b).subrange(0, a.len() as int) =~= a);
    assert(s.subrange(pos + a.len(), pos + a.len() + b.len()) =~= whole.subrange(
        a.len() as int,
        (a + b).len() as int,
    ));
    assert((a + b).subrange(a.len() as int, (a + b).len() as int) =~= b);
}

/// Every encoding starts with the byte that tells its kind, and that byte
/// is never the letter `e`.
pub proof fn lemma_encode_first_byte(v: ValueView)
    ensures
        spec_encode(v).len() >= 2,
        spec_encode(v)[0] != 101,
        v is Integer ==> spec_encode(v)[0] == 105,
        v is List ==> spec_encode(v)[0] == 108,
        v is Dict ==> spec_encode(v)[0] == 100,
        v is Bytes ==> is_digit(spec_encode(v)[0]),
{
    match v {
        ValueView::Integer(n) => {
            if n < 0 {
                lemma_nat_digits_shape((-n) as nat);
            } else {
                lemma_nat_digits_shape(n as nat);
            }
        },
        ValueView::Bytes(b) => {
            lemma_nat_digits_shape(b.len());
            let d = nat_digits(b.len());
            assert(is_digit(d[0]));
            assert(encode_bytes(b)[0] == d[0]);
        },
        ValueView::List(items) => {},
        ValueView::Dict(entries) => {},
    }
}

/// A run of digits that stands in `s` before a byte that is no digit is
/// read back as the number it was written from.
pub proof fn lemma_read_digits(s: Seq<u8>, pos: int, n: nat, stop: u8)
    requires
        holds_at(s, pos, nat_digits(n).push(stop)),
        !is_digit(stop),
    ensures
        digits_end(s, pos) == pos + nat_digits(n).len(),
        digits_value(s.subrange(pos, pos + nat_digits(n).len())) == n,
        pos < pos + nat_digits(n).len() < s.len(),
        s[pos + nat_digits(n).len()] == stop,
{
    let d = nat_digits(n);
    lemma_nat_digits_shape(n);
    lemma_digits_value_of_nat_digits(n);
    assert(d.push(stop) =~= d + seq![stop]);
    lemma_holds_at_split(s, pos, d, seq![stop]);
    lemma_holds_at_index(s, pos, d.push(stop), d.len() as int);
    lemma_digits_end_of_run(s, pos, pos + d.len());
}

/// An encoded number is read back as that number.
pub proof fn lemma_read_integer(s: Seq<u8>, pos: int, n: i64)
    requires
        holds_at(s, pos, spec_encode(ValueView::Integer(n))),
    ensures
        parse_integer(s, pos) == Some((n, pos + spec_encode(ValueView::Integer(n)).len())),
        s[pos] == 105,
{
    let e = spec_encode(ValueView::Integer(n));
    lemma_encode_first_byte(ValueView::Integer(n));
    lemma_holds_at_index(s, pos, e, 0);
    if n < 0 {
        let m = (-n) as nat;
        let d = nat_digits(m);
        lemma_nat_digits_shape(m);
        assert(e =~= seq![105u8, 45u8] + d.push(101u8));
        lemma_holds_at_split(s, pos, seq![105u8, 45u8], d.push(101u8));
        lemma_holds_at_index(s, pos, e, 1);
        lemma_read_digits(s, pos + 2, m, 101u8);
    } else {
        let m = n as nat;
        let d = nat_digits(m);
        lemma_nat_digits_shape(m);
        assert(e =~= seq![105u8] + d.push(101u8));
        lemma_holds_at_split(s, pos, seq![105u8], d.push(101u8));
        lemma_holds_at_index(s, pos, e, 1);
        assert(is_digit(d[0]));
        assert(e[1] == d[0]);
        lemma_read_digits(s, pos + 1, m, 101u8);
    }
}

/// An encoded byte string is read back as that byte string.
pub proof fn lemma_read_bytes(s: Seq<u8>, pos: int, b: Seq<u8>)
    requires
        holds_at(s, pos, encode_bytes(b)),
    ensures
        parse_bytes(s, pos) == Some((b, pos + encode_bytes(b).len())),
        is_digit(s[pos]),
{
    let d = nat_digits(b.len());
    lemma_nat_digits_shape(b.len());
    assert(encode_bytes(b) =~= d.push(58u8) + b);
    lemma_holds_at_split(s, pos, d.push(58u8), b);
    lemma_read_digits(s, pos, b.len(), 58u8);
    lemma_holds_at_index(s, pos, encode_bytes(b), 0);
    assert(encode_bytes(b)[0] == d[0]);
    assert(is_digit(d[0]));
}

/// `spec_encode` as a function value.
pub open spec fn encoder() -> spec_fn(ValueView) -> Seq<u8> {
    |v: ValueView| spec_encode(v)
}

/// `canonical` as a function value.
pub open spec fn canonizer() -> spec_fn(ValueView) -> ValueView {
    |v: ValueView| canonical(v)
}

pub proof fn lemma_canonical_items(items: Seq<ValueView>)
    ensures
        canonical_items(items).len() == items.len(),
        forall|i: int| 0 <= i < items.len() ==> (#[trigger] canonical_items(items)[i]) == canonical(items[i]),
    decreases items.len(),
{
    if items.len() > 0 {
        lemma_canonical_items(items.drop_last());
    }
}

pub proof fn lemma_canonical_entries_maps(entries: Seq<(Seq<u8>, ValueView)>)
    ensures
        canonical_entries(entries) == map_payload(entries, canonizer()),
    decreases entries.len(),
{
    if entries.len() > 0 {
        lemma_canonical_entries_maps(entries.drop_last());
        assert(map_payload(entries.drop_last(), canonizer()).push(
            (entries.last().0, canonical(entries.last().1)),
        ) =~= map_payload(entries, canonizer()));
    } else {
        assert(canonical_entries(entries) =~= map_payload(entries, canonizer()));
    }
}

pub proof fn lemma_encoded_entries_maps(entries: Seq<(Seq<u8>, ValueView)>)
    ensures
        encoded_entries(entries) == map_payload(entries, encoder()),
    decreases entries.len(),
{
    if entries.len() > 0 {
        lemma_encoded_entries_maps(entries.drop_last());
        assert(map_payload(entries.drop_last(), encoder()).push(
            (entries.last().0, spec_encode(entries.last().1)),
        ) =~= map_payload(entries, encoder()));
    } else {
        assert(encoded_entries(entries) =~= map_payload(entries, encoder()));
    }
}

pub proof fn lemma_encode_items_front(items: Seq<ValueView>)
    requires
        items.len() > 0,
    ensures
        encode_items(items) == spec_encode(items[0]) + encode_items(items.skip(1)),
    decreases items.len(),
{
    let head = items.drop_last();
    if head.len() == 0 {
        assert(items.skip(1) =~= Seq::<ValueView>::empty());
        assert(encode_items(head) =~= Seq::<u8>::empty());
        assert(encode_items(items.skip(1)) =~= Seq::<u8>::empty());
        assert(items.last() == items[0]);
        assert(encode_items(items) =~= spec_encode(items[0]) + encode_items(items.skip(1)));
    } else {
        lemma_encode_items_front(head);
        assert(items.skip(1).drop_last() =~= head.skip(1));
        assert(items.skip(1).last() == items.last());
        assert(encode_items(items) =~= spec_encode(items[0]) + encode_items(items.skip(1)));
    }
}

pub proof fn lemma_join_entries_front(pairs: Seq<(Seq<u8>, Seq<u8>)>)
    requires
        pairs.len() > 0,
    ensures
        join_entries(pairs) == encode_bytes(pairs[0].0) + pairs[0].1 + join_entries(pairs.skip(1)),
    decreases pairs.len(),
{
    let head = pairs.drop_last();
    if head.len() == 0 {
        assert(pairs.skip(1) =~= Seq::<(Seq<u8>, Seq<u8>)>::empty());
        assert(join_entries(head) =~= Seq::<u8>::empty());
        assert(join_entries(pairs.skip(1)) =~= Seq::<u8>::empty());
        assert(pairs.last() == pairs[0]);
        assert(join_entries(pairs) =~= encode_bytes(pairs[0].0) + pairs[0].1 + join_entries(
            pairs.skip(1),
        ));
    } else {
        lemma_join_entries_front(head);
        assert(pairs.skip(1).drop_last() =~= head.skip(1));
        assert(pairs.skip(1).last() == pairs.last());
        assert(join_entries(pairs) =~= encode_bytes(pairs[0].0) + pairs[0].1 + join_entries(
            pairs.skip(1),
        ));
    }
}

/// An encoded value is read back as its canonical form, whatever stands
/// around it.
pub proof fn lemma_read_value(s: Seq<u8>, pos: int, v: ValueView)
    requires
        holds_at(s, pos, spec_encode(v)),
    ensures
        decode_value(s, pos) == Some((canonical(v), pos + spec_encode(v).len())),
    decreases size(v), 0nat, 0nat,
{
    let e = spec_encode(v);
    lemma_encode_first_byte(v);
    lemma_holds_at_index(s, pos, e, 0);
    match v {
        ValueView::Integer(n) => {
            lemma_read_integer(s, pos, n);
        },
        ValueView::Bytes(b) => {
            lemma_read_bytes(s, pos, b);
        },
        ValueView::List(items) => {
            let body = encode_items(items).push(101u8);
            assert(e =~= seq![108u8] + body);
            lemma_holds_at_split(s, pos, seq![108u8], body);
            assert forall|i: int| 0 <= i < items.len() implies size(#[trigger] items[i])
                <= size_items(items) by {
                lemma_size_items(items, i);
            }
            lemma_read_items(s, pos + 1, items, size_items(items));
        },
        ValueView::Dict(entries) => {
            let sorted = sort_by_key(entries);
            lemma_encoded_entries_maps(entries);
            lemma_sort_by_key_maps(entries, encoder());
            let body = join_entries(map_payload(sorted, encoder())).push(101u8);
            assert(e =~= seq![100u8] + body);
            lemma_holds_at_split(s, pos, seq![100u8], body);
            assert forall|i: int| 0 <= i < sorted.len() implies size((#[trigger] sorted[i]).1)
                <= size_entries(entries) by {
                lemma_sort_by_key_members(entries, i);
                let j = choose|j: int| 0 <= j < entries.len() && #[trigger] entries[j] == sorted[i];
                lemma_size_entries(entries, j);
            }
            lemma_read_entries(s, pos + 1, sorted, size_entries(entries));
            let read = map_payload(sorted, canonizer());
            lemma_sort_by_key(entries);
            assert(keys_increasing(read)) by {
                assert forall|i: int, j: int| #![trigger read[i], read[j]] 0 <= i < j < read.len()
                    implies bytes_lt(read[i].0, read[j].0) by {
                    assert(bytes_lt(sorted[i].0, sorted[j].0));
                }
            }
            lemma_increasing_is_unique(read);
            lemma_dedup_of_unique(read);
            lemma_canonical_entries_maps(entries);
            lemma_sort_by_key_maps(entries, canonizer());
        },
    }
}

/// The encoded items of a list, with the letter that closes it, are read
/// back as their canonical forms.
pub proof fn lemma_read_items(s: Seq<u8>, pos: int, items: Seq<ValueView>, m: nat)
    requires
        holds_at(s, pos, encode_items(items).push(101u8)),
        forall|i: int| 0 <= i < items.len() ==> size(#[trigger] items[i]) <= m,
    ensures
        decode_items(s, pos) == Some(
            (canonical_items(items), pos + encode_items(items).len() + 1),
        ),
    decreases m, 1nat, items.len(),
{
    let x = encode_items(items).push(101u8);
    if items.len() == 0 {
        lemma_holds_at_index(s, pos, x, 0);
    } else {
        let first = items[0];
        let tail = items.skip(1);
        let e = spec_encode(first);
        let rest = encode_items(tail).push(101u8);
        lemma_encode_items_front(items);
        assert(x =~= e + rest);
        lemma_holds_at_split(s, pos, e, rest);
        lemma_encode_first_byte(first);
        lemma_holds_at_index(s, pos, e, 0);
        lemma_read_value(s, pos, first);
        assert forall|i: int| 0 <= i < tail.len() implies size(#[trigger] tail[i]) <= m by {
            assert(tail[i] == items[i + 1]);
        }
        lemma_read_items(s, pos + e.len(), tail, m);
        lemma_canonical_items(items);
        lemma_canonical_items(tail);
        assert(seq![canonical(first)] + canonical_items(tail) =~= canonical_items(items)) by {
            assert forall|i: int| 0 <= i < items.len() implies (seq![canonical(first)]
                + canonical_items(tail))[i] == canonical_items(items)[i] by {
                if i > 0 {
                    assert(tail[i - 1] == items[i]);
                }
            }
        }
    }
}

/// The encoded entries of a dictionary, with the letter that closes it,
/// are read back with each value in its canonical form.
pub proof fn lemma_read_entries(s: Seq<u8>, pos: int, sorted: Seq<(Seq<u8>, ValueView)>, m: nat)
    requires
        holds_at(s, pos, join_entries(map_payload(sorted, encoder())).push(101u8)),
        forall|i: int| 0 <= i < sorted.len() ==> size((#[trigger] sorted[i]).1) <= m,
    ensures
        decode_entries(s, pos) == Some(
            (
                map_payload(sorted, canonizer()),
                pos + join_entries(map_payload(sorted, encoder())).len() + 1,
            ),
        ),
    decreases m, 1nat, sorted.len(),
{
    let pairs = map_payload(sorted, encoder());
    let x = join_entries(pairs).push(101u8);
    if sorted.len() == 0 {
        assert(join_entries(pairs).len() == 0);
        lemma_holds_at_index(s, pos, x, 0);
        assert(map_payload(sorted, canonizer()) =~= Seq::<(Seq<u8>, ValueView)>::empty());
    } else {
        let key = sorted[0].0;
        let first = sorted[0].1;
        let tail = sorted.skip(1);
        let ek = encode_bytes(key);
        let ev = spec_encode(first);
        let rest = join_entries(map_payload(tail, encoder())).push(101u8);
        lemma_join_entries_front(pairs);
        assert(pairs.skip(1) =~= map_payload(tail, encoder()));
        assert(pairs[0] == (key, ev));
        assert(x =~= ek + (ev + rest));
        lemma_holds_at_split(s, pos, ek, ev + rest);
        lemma_holds_at_split(s, pos + ek.len(), ev, rest);
        lemma_read_bytes(s, pos, key);
        lemma_encode_first_byte(first);
        lemma_read_value(s, pos + ek.len(), first);
        assert forall|i: int| 0 <= i < tail.len() implies size((#[trigger] tail[i]).1) <= m by {
            assert(tail[i] == sorted[i + 1]);
        }
        lemma_read_entries(s, pos + ek.len() + ev.len(), tail, m);
        let read = map_payload(sorted, canonizer());
        assert(seq![(key, canonical(first))] + map_payload(tail, canonizer()) =~= read) by {
            assert forall|i: int| 0 <= i < read.len() implies (seq![(key, canonical(first))]
                + map_payload(tail, canonizer()))[i] == read[i] by {
                if i > 0 {
                    assert(tail[i - 1] == sorted[i]);
                }
            }
        }
    }
}

/// Decoding the encoding of a tree gives its canonical form.
pub proof fn lemma_decode_encode(v: ValueView)
    ensures
        spec_decode(spec_encode(v)) == Some(canonical(v)),
{
    let e = spec_encode(v);
    assert(e.subrange(0, e.len() as int) =~= e);
    lemma_read_value(e, 0, v);
}

} // verus!
