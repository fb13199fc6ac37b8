use crate::bytes::{append_bytes, bytes_equal, bytes_less, bytes_lt};
use crate::digits::{int_digits, nat_digits, push_decimal};
use crate::entries::{
    keys_increasing, lemma_sort_by_key, lemma_sorted_upsert_at, sort_by_key, sorted_upsert,
};
use crate::value::{
    lemma_size_entries, lemma_size_items, lemma_view_entries, lemma_view_items, size, view_entries,
    view_items, Value, ValueView,
};
use vstd::prelude::*;

verus! {

// The bytes of the format, by their ASCII codes: `i` is 105, `l` is 108,
// `d` is 100 and `e` is 101; the colon is 58, the minus sign 45, and the
// digits run from 48 to 57.

/// The encoding of a byte string: its length in decimal, a colon, the bytes.
pub open spec fn encode_bytes(b: Seq<u8>) -> Seq<u8> {
    nat_digits(b.len()) + seq![58u8] + b
}

/// The canonical encoding of a value tree. A dictionary's entries come out
/// ordered by key, whatever order the tree holds them in.
pub open spec fn spec_encode(v: ValueView) -> Seq<u8>
    decreases v,
{
    match v {
        ValueView::Integer(n) => seq![105u8] + int_digits(n as int) + seq![101u8],
        ValueView::Bytes(b) => encode_bytes(b),
        ValueView::List(items) => seq![108u8] + encode_items(items) + seq![101u8],
        ValueView::Dict(entries) => seq![100u8] + join_entries(
            sort_by_key(encoded_entries(entries)),
        ) + seq![101u8],
    }
}

/// The encodings of `items`, one after the other.
pub open spec fn encode_items(items: Seq<ValueView>) -> Seq<u8>
    decreases items,
{
    if items.len() == 0 {
        Seq::empty()
    } else {
        encode_items(items.drop_last()) + spec_encode(items.last())
    }
}

/// Each entry's key with the encoding of what it holds, in the order of
/// `entries`.
pub open spec fn encoded_entries(entries: Seq<(Seq<u8>, ValueView)>) -> Seq<(Seq<u8>, Seq<u8>)>
    decreases entries,
{
    if entries.len() == 0 {
        Seq::empty()
    } else {
        encoded_entries(entries.drop_last()).push(
            (entries.last().0, spec_encode(entries.last().1)),
        )
    }
}

/// Each pair written as the encoding of its key followed by its second
/// part, one pair after the other.
pub open spec fn join_entries(pairs: Seq<(Seq<u8>, Seq<u8>)>) -> Seq<u8>
    decreases pairs.len(),
{
    if pairs.len() == 0 {
        Seq::empty()
    } else {
        join_entries(pairs.drop_last()) + encode_bytes(pairs.last().0) + pairs.last().1
    }
}

pub proof fn lemma_encoded_entries_index(entries: Seq<(Seq<u8>, ValueView)>, i: int)
    requires
        0 <= i < entries.len(),
    ensures
        encoded_entries(entries).len() == entries.len(),
        encoded_entries(entries)[i] == (entries[i].0, spec_encode(entries[i].1)),
    decreases entries.len(),
{
    lemma_encoded_entries_len(entries);
    if i < entries.len() - 1 {
        lemma_encoded_entries_index(entries.drop_last(), i);
    }
}

pub proof fn lemma_encoded_entries_len(entries: Seq<(Seq<u8>, ValueView)>)
    ensures
        encoded_entries(entries).len() == entries.len(),
    decreases entries.len(),
{
    if entries.len() > 0 {
        lemma_encoded_entries_len(entries.drop_last());
    }
}

/// The pairs of `pairs` that `order` names, in the order of `order`.
pub open spec fn picked(order: Seq<usize>, pairs: Seq<(Seq<u8>, Seq<u8>)>) -> Seq<(Seq<u8>, Seq<u8>)> {
    Seq::new(order.len(), |p: int| pairs[order[p] as int])
}

/// Appends the encoding of the byte string `b` to `out`.
pub fn encode_bytes_into(b: &[u8], out: &mut Vec<u8>)
    ensures
        final(out)@ == old(out)@ + encode_bytes(b@),
{
    push_decimal(out, b.len() as u64);
    out.push(58);
    append_bytes(out, b);
    assert(final(out)@ =~= old(out)@ + encode_bytes(b@));
}

/// Appends the encoding of the number `n` to `out`.
pub fn encode_integer_into(n: i64, out: &mut Vec<u8>)
    ensures
        final(out)@ == old(out)@ + seq![105u8] + int_digits(n as int) + seq![101u8],
{
    out.push(105);
    if n < 0 {
        out.push(45);
        let magnitude: u64 = (0 - (n as i128)) as u64;
        push_decimal(out, magnitude);
    } else {
        push_decimal(out, n as u64);
    }
    out.push(101);
    assert(final(out)@ =~= old(out)@ + seq![105u8] + int_digits(n as int) + seq![101u8]);
}

/// Puts the entry with index `n` into `order`, which names the entries
/// before it ordered by key.
fn place_entry(entries: &Vec<(Vec<u8>, Value)>, order: &mut Vec<usize>, n: usize, Ghost(pairs): Ghost<Seq<(Seq<u8>, Seq<u8>)>>)
    requires
        n < entries@.len(),
        pairs.len() == entries@.len(),
        forall|i: int| 0 <= i < entries@.len() ==> (#[trigger] pairs[i]).0 == entries@[i].0@,
        forall|p: int| 0 <= p < old(order)@.len() ==> (#[trigger] old(order)@[p]) < n,
        keys_increasing(picked(old(order)@, pairs)),
    ensures
        forall|p: int| 0 <= p < final(order)@.len() ==> (#[trigger] final(order)@[p]) <= n,
        picked(final(order)@, pairs) == sorted_upsert(
            picked(old(order)@, pairs),
            pairs[n as int].0,
            pairs[n as int].1,
        ),
{
    let ghost before = picked(order@, pairs);
    let ghost k = pairs[n as int].0;
    let key: &Vec<u8> = &entries[n].0;
    let mut p: usize = order.len();
    while p > 0 && bytes_less(key.as_slice(), entries[order[p - 1]].0.as_slice())
        invariant
            p <= order@.len(),
            order@ == old(order)@,
            before == picked(order@, pairs),
            n < entries@.len(),
            pairs.len() == entries@.len(),
            key@ == k,
            k == pairs[n as int].0,
            forall|i: int| 0 <= i < entries@.len() ==> (#[trigger] pairs[i]).0 == entries@[i].0@,
            forall|q: int| 0 <= q < order@.len() ==> (#[trigger] order@[q]) < n,
            forall|j: int| p <= j < before.len() ==> bytes_lt(k, (#[trigger] before[j]).0),
        decreases p,
    {
        p = p - 1;
    }
    proof {
        if p > 0 {
            assert(before[p - 1].0 == entries@[order@[p - 1] as int].0@);
        }
        lemma_sorted_upsert_at(before, k, pairs[n as int].1, p as int);
    }
    if p > 0 && bytes_equal(entries[order[p - 1]].0.as_slice(), key.as_slice()) {
        order.set(p - 1, n);
        assert(picked(order@, pairs) =~= before.update(p - 1, pairs[n as int]));
    } else {
        order.insert(p, n);
        assert(picked(order@, pairs) =~= before.insert(p as int, pairs[n as int]));
    }
}

pub proof fn lemma_encode_items_take(items: Seq<ValueView>, i: int)
    requires
        0 <= i < items.len(),
    ensures
        encode_items(items.take(i + 1)) == encode_items(items.take(i)) + spec_encode(items[i]),
{
    assert(items.take(i + 1).drop_last() =~= items.take(i));
}

pub proof fn lemma_join_entries_take(pairs: Seq<(Seq<u8>, Seq<u8>)>, i: int)
    requires
        0 <= i < pairs.len(),
    ensures
        join_entries(pairs.take(i + 1)) == join_entries(pairs.take(i)) + encode_bytes(pairs[i].0)
            + pairs[i].1,
{
    assert(pairs.take(i + 1).drop_last() =~= pairs.take(i));
}

/// Appends the canonical encoding of `v` to `out`.
pub fn encode_into(v: &Value, out: &mut Vec<u8>)
    ensures
        final(out)@ == old(out)@ + spec_encode(v@),
    decreases size(v@),
{
    match v {
        Value::Integer(n) => {
            encode_integer_into(*n, out);
        },
        Value::ByteString(b) => {
            encode_bytes_into(b.as_slice(), out);
        },
        Value::List(items) => {
            let ghost views = view_items(items@);
            proof {
                lemma_view_items(items@);
            }
            out.push(108);
            let mut i: usize = 0;
            assert(views.take(0) =~= Seq::<ValueView>::empty());
            while i < items.len()
                invariant
                    v@ == ValueView::List(views),
                    i <= items@.len(),
                    views.len() == items@.len(),
                    forall|j: int| 0 <= j < items@.len() ==> views[j] == (#[trigger] items@[j])@,
                    out@ == old(out)@ + seq![108u8] + encode_items(views.take(i as int)),
                decreases items@.len() - i,
            {
                proof {
                    lemma_encode_items_take(views, i as int);
                }
                proof {
                    lemma_size_items(views, i as int);
                }
                encode_into(&items[i], out);
                assert(out@ =~= old(out)@ + seq![108u8] + encode_items(views.take(i + 1)));
                i = i + 1;
            }
            assert(views.take(i as int) =~= views);
            out.push(101);
            assert(final(out)@ =~= old(out)@ + spec_encode(v@));
        },
        Value::Dict(entries) => {
            let ghost views = view_entries(entries@);
            let ghost pairs = encoded_entries(views);
            proof {
                lemma_view_entries(entries@);
                lemma_encoded_entries_len(views);
                assert forall|i: int| 0 <= i < entries@.len() implies (#[trigger] pairs[i]).0
                    == entries@[i].0@ by {
                    lemma_encoded_entries_index(views, i);
                }
            }
            let mut encodings: Vec<Vec<u8>> = Vec::new();
            let mut order: Vec<usize> = Vec::new();
            let mut n: usize = 0;
            assert(picked(order@, pairs) =~= sort_by_key(pairs.take(0)));
            while n < entries.len()
                invariant
                    v@ == ValueView::Dict(views),
                    n <= entries@.len(),
                    views.len() == entries@.len(),
                    pairs == encoded_entries(views),
                    pairs.len() == entries@.len(),
                    forall|j: int|
                        0 <= j < entries@.len() ==> views[j] == ((#[trigger] entries@[j]).0@, entries@[j].1@),
                    forall|i: int| 0 <= i < entries@.len() ==> (#[trigger] pairs[i]).0 == entries@[i].0@,
                    encodings@.len() == n,
                    forall|i: int| 0 <= i < n ==> (#[trigger] encodings@[i])@ == pairs[i].1,
                    forall|p: int| 0 <= p < order@.len() ==> (#[trigger] order@[p]) < n,
                    picked(order@, pairs) == sort_by_key(pairs.take(n as int)),
                decreases entries@.len() - n,
            {
                let mut buffer: Vec<u8> = Vec::new();
                proof {
                    lemma_size_entries(views, n as int);
                }
                encode_into(&entries[n].1, &mut buffer);
                proof {
                    lemma_encoded_entries_index(views, n as int);
                    assert(buffer@ =~= pairs[n as int].1);
                    lemma_sort_by_key(pairs.take(n as int));
                    assert(pairs.take(n + 1).drop_last() =~= pairs.take(n as int));
                }
                encodings.push(buffer);
                place_entry(entries, &mut order, n, Ghost(pairs));
                n = n + 1;
            }
            assert(pairs.take(n as int) =~= pairs);
            let ghost sorted = picked(order@, pairs);
            out.push(100);
            let mut p: usize = 0;
            assert(sorted.take(0) =~= Seq::<(Seq<u8>, Seq<u8>)>::empty());
            while p < order.len()
                invariant
                    p <= order@.len(),
                    sorted == picked(order@, pairs),
                    pairs.len() == entries@.len(),
                    encodings@.len() == entries@.len(),
                    forall|i: int| 0 <= i < entries@.len() ==> (#[trigger] pairs[i]).0 == entries@[i].0@,
                    forall|i: int| 0 <= i < entries@.len() ==> (#[trigger] encodings@[i])@ == pairs[i].1,
                    forall|q: int| 0 <= q < order@.len() ==> (#[trigger] order@[q]) < entries@.len(),
                    out@ == old(out)@ + seq![100u8] + join_entries(sorted.take(p as int)),
                decreases order@.len() - p,
            {
                let at: usize = order[p];
                proof {
                    lemma_join_entries_take(sorted, p as int);
                    assert(sorted[p as int] == pairs[at as int]);
                }
                encode_bytes_into(entries[at].0.as_slice(), out);
                append_bytes(out, encodings[at].as_slice());
                assert(out@ =~= old(out)@ + seq![100u8] + join_entries(sorted.take(p + 1)));
                p = p + 1;
            }
            assert(sorted.take(p as int) =~= sorted);
            out.push(101);
            assert(final(out)@ =~= old(out)@ + spec_encode(v@));
        },
    }
}

/// The canonical encoding of `v`: dictionaries are written with their keys
/// in strictly increasing byte order.
pub fn encode(v: &Value) -> (out: Vec<u8>)
    ensures
        out@ == spec_encode(v@),
{
    let mut out: Vec<u8> = Vec::new();
    encode_into(v, &mut out);
    assert(out@ =~= spec_encode(v@));
    out
}

} // verus!
