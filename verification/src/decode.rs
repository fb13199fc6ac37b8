use crate::digits::{digits_end, digits_value, lemma_digits_end, parse_decimal, scan_digits};
use crate::entries::{assoc_upsert, dedup, has_key, keys_unique, lemma_dedup};
use crate::error::Error;
use crate::bytes::bytes_equal;
use crate::roundtrip::{lemma_decoded_keys_unique, no_repeated_keys};
use crate::value::{lemma_view_entries, view_entries, view_items, Value, ValueView};
use vstd::prelude::*;
use vstd::slice::{slice_subrange, slice_to_vec};

verus! {

/// The number written at `i`, where `s[i]` is the letter `i`: an optional
/// minus sign, one or more decimal digits and the letter `e`. Leading
/// zeros are taken, and so is a minus sign before zero. The number has to
/// fit into 64 bits with sign. With it comes the position after it.
pub open spec fn parse_integer(s: Seq<u8>, i: int) -> Option<(i64, int)> {
    let negative = i + 1 < s.len() && s[i + 1] == 45;
    let start = if negative {
        i + 2
    } else {
        i + 1
    };
    let end = digits_end(s, start);
    let magnitude = digits_value(s.subrange(start, end));
    if start < end && end < s.len() && s[end] == 101 && magnitude <= (if negative {
        0x8000_0000_0000_0000int
    } else {
        0x7fff_ffff_ffff_ffffint
    }) {
        Some(
            (
                (if negative {
                    -magnitude
                } else {
                    magnitude as int
                }) as i64,
                end + 1,
            ),
        )
    } else {
        None
    }
}

/// Where the content of the byte string written at `i` starts and ends:
/// one or more decimal digits give its length, a colon follows, and that
/// many bytes have to be there.
pub open spec fn parse_bytes_range(s: Seq<u8>, i: int) -> Option<(int, int)> {
    let end = digits_end(s, i);
    let n = digits_value(s.subrange(i, end));
    if 0 <= i < end && end < s.len() && s[end] == 58 && end + 1 + n <= s.len() {
        Some((end + 1, end + 1 + n))
    } else {
        None
    }
}

/// The byte string written at `i`, with the position after it.
pub open spec fn parse_bytes(s: Seq<u8>, i: int) -> Option<(Seq<u8>, int)> {
    match parse_bytes_range(s, i) {
        Some((from, to)) => Some((s.subrange(from, to), to)),
        None => None,
    }
}

/// The value written at `i`, with the position after it; `None` where what
/// stands there is no value. A dictionary keeps its keys in the order of
/// their first appearance, each with what its last appearance holds.
pub open spec fn decode_value(s: Seq<u8>, i: int) -> Option<(ValueView, int)>
    decreases s.len() - i, 0int,
{
    if !(0 <= i < s.len()) {
        None
    } else if s[i] == 105 {
        match parse_integer(s, i) {
            Some((n, j)) => Some((ValueView::Integer(n), j)),
            None => None,
        }
    } else if s[i] == 108 {
        match decode_items(s, i + 1) {
            Some((items, j)) => Some((ValueView::List(items), j)),
            None => None,
        }
    } else if s[i] == 100 {
        match decode_entries(s, i + 1) {
            Some((entries, j)) => Some((ValueView::Dict(dedup(entries)), j)),
            None => None,
        }
    } else {
        match parse_bytes(s, i) {
            Some((b, j)) => Some((ValueView::Bytes(b), j)),
            None => None,
        }
    }
}

/// The values written from `i` up to the letter `e` that closes their
/// list, with the position after that letter.
pub open spec fn decode_items(s: Seq<u8>, i: int) -> Option<(Seq<ValueView>, int)>
    decreases s.len() - i, 1int,
{
    if !(0 <= i < s.len()) {
        None
    } else if s[i] == 101 {
        Some((Seq::empty(), i + 1))
    } else {
        match decode_value(s, i) {
            Some((v, j)) => if i < j <= s.len() {
                prepend_items(seq![v], decode_items(s, j))
            } else {
                None
            },
            None => None,
        }
    }
}

/// The entries written from `i` up to the letter `e` that closes their
/// dictionary, as they stand, with the position after that letter. Each
/// entry is a byte string, its key, and a value.
pub open spec fn decode_entries(s: Seq<u8>, i: int) -> Option<(Seq<(Seq<u8>, ValueView)>, int)>
    decreases s.len() - i, 1int,
{
    if !(0 <= i < s.len()) {
        None
    } else if s[i] == 101 {
        Some((Seq::empty(), i + 1))
    } else {
        match parse_bytes(s, i) {
            Some((key, j)) => if i < j <= s.len() {
                match decode_value(s, j) {
                    Some((v, k)) => if j < k <= s.len() {
                        prepend_entries(seq![(key, v)], decode_entries(s, k))
                    } else {
                        None
                    },
                    None => None,
                }
            } else {
                None
            },
            None => None,
        }
    }
}

pub open spec fn prepend_items(
    front: Seq<ValueView>,
    rest: Option<(Seq<ValueView>, int)>,
) -> Option<(Seq<ValueView>, int)> {
    match rest {
        Some((items, end)) => Some((front + items, end)),
        None => None,
    }
}

pub open spec fn prepend_entries(
    front: Seq<(Seq<u8>, ValueView)>,
    rest: Option<(Seq<(Seq<u8>, ValueView)>, int)>,
) -> Option<(Seq<(Seq<u8>, ValueView)>, int)> {
    match rest {
        Some((entries, end)) => Some((front + entries, end)),
        None => None,
    }
}

/// The value that `s` starts with. What follows it is not looked at.
pub open spec fn spec_decode(s: Seq<u8>) -> Option<ValueView> {
    match decode_value(s, 0) {
        Some((v, _)) => Some(v),
        None => None,
    }
}

/// Reads the number at `index`.
fn decode_integer(bytes: &[u8], index: usize) -> (r: Result<(i64, usize), Error>)
    requires
        index < bytes@.len(),
        bytes@[index as int] == 105,
    ensures
        match r {
            Ok((n, next)) => parse_integer(bytes@, index as int) == Some((n, next as int)) && index
                < next <= bytes@.len(),
            Err(e) => e == Error::MalformedInput && parse_integer(bytes@, index as int) is None,
        },
{
    let len: usize = bytes.len();
    let negative: bool = index + 1 < len && bytes[index + 1] == 45;
    let start: usize = if negative {
        index + 2
    } else {
        index + 1
    };
    let end: usize = scan_digits(bytes, start);
    if end == start || end >= bytes.len() || bytes[end] != 101 {
        return Err(Error::MalformedInput);
    }
    proof {
        lemma_digits_end(bytes@, start as int);
    }
    let limit: u64 = if negative {
        0x8000_0000_0000_0000
    } else {
        0x7fff_ffff_ffff_ffff
    };
    match parse_decimal(bytes, start, end, limit) {
        None => Err(Error::MalformedInput),
        Some(magnitude) => {
            let n: i64 = if negative {
                (0 - (magnitude as i128)) as i64
            } else {
                magnitude as i64
            };
            Ok((n, end + 1))
        },
    }
}

/// Finds the content of the byte string at `index` without copying it.
pub fn byte_string_range(bytes: &[u8], index: usize) -> (r: Result<(usize, usize), Error>)
    ensures
        match r {
            Ok((from, to)) => parse_bytes_range(bytes@, index as int) == Some(
                (from as int, to as int),
            ) && index < from <= to <= bytes@.len(),
            Err(e) => e == Error::MalformedInput && parse_bytes_range(bytes@, index as int) is None,
        },
{
    if index >= bytes.len() {
        return Err(Error::MalformedInput);
    }
    let end: usize = scan_digits(bytes, index);
    if end == index || end >= bytes.len() || bytes[end] != 58 {
        return Err(Error::MalformedInput);
    }
    proof {
        lemma_digits_end(bytes@, index as int);
    }
    let room: usize = bytes.len() - (end + 1);
    match parse_decimal(bytes, index, end, room as u64) {
        None => Err(Error::MalformedInput),
        Some(n) => Ok((end + 1, end + 1 + n as usize)),
    }
}

/// Reads the byte string at `index`.
pub fn decode_byte_string(bytes: &[u8], index: usize) -> (r: Result<(Vec<u8>, usize), Error>)
    ensures
        match r {
            Ok((b, next)) => parse_bytes(bytes@, index as int) == Some((b@, next as int)) && index
                < next <= bytes@.len(),
            Err(e) => e == Error::MalformedInput && parse_bytes(bytes@, index as int) is None,
        },
{
    match byte_string_range(bytes, index) {
        Err(e) => Err(e),
        Ok((from, to)) => {
            let content: Vec<u8> = slice_to_vec(slice_subrange(bytes, from, to));
            Ok((content, to))
        },
    }
}

/// Puts `value` under `key`: in place of the entry with that key if there
/// is one, else at the end.
fn upsert_entry(entries: &mut Vec<(Vec<u8>, Value)>, key: Vec<u8>, value: Value)
    requires
        keys_unique(view_entries(old(entries)@)),
    ensures
        view_entries(final(entries)@) == assoc_upsert(view_entries(old(entries)@), key@, value@),
{
    let ghost before = view_entries(entries@);
    proof {
        lemma_view_entries(entries@);
    }
    let mut at: usize = 0;
    while at < entries.len() && !bytes_equal(entries[at].0.as_slice(), key.as_slice())
        invariant
            at <= entries@.len(),
            entries@ == old(entries)@,
            forall|j: int| 0 <= j < at ==> (#[trigger] entries@[j]).0@ != key@,
        decreases entries@.len() - at,
    {
        at = at + 1;
    }
    if at < entries.len() {
        proof {
            assert(before[at as int].0 == key@);
            assert(has_key(before, key@));
            let c = choose|c: int| 0 <= c < before.len() && (#[trigger] before[c]).0 == key@;
            if c != at {
                if c < at {
                    assert(before[c].0 != before[at as int].0);
                } else {
                    assert(before[at as int].0 != before[c].0);
                }
            }
        }
        entries.set(at, (key, value));
        proof {
            lemma_view_entries(entries@);
            assert(view_entries(entries@) =~= before.update(at as int, (key@, value@)));
        }
    } else {
        proof {
            if has_key(before, key@) {
                let c = choose|c: int| 0 <= c < before.len() && (#[trigger] before[c]).0 == key@;
                assert(entries@[c].0@ == key@);
            }
        }
        entries.push((key, value));
        proof {
            lemma_view_entries(entries@);
            assert(view_entries(entries@) =~= before.push((key@, value@)));
        }
    }
}

/// Positional decoding: reads the value that stands at `index` and says
/// where the next one starts.
pub fn decode_at(bytes: &[u8], index: usize) -> (r: Result<(Value, usize), Error>)
    ensures
        match r {
            Ok((v, next)) => decode_value(bytes@, index as int) == Some((v@, next as int)) && index
                < next <= bytes@.len() && no_repeated_keys(v@),
            Err(e) => e == Error::MalformedInput && decode_value(bytes@, index as int) is None,
        },
    decreases bytes@.len() - index,
{
    if index >= bytes.len() {
        return Err(Error::MalformedInput);
    }
    proof {
        lemma_decoded_keys_unique(bytes@, index as int);
    }
    let tag: u8 = bytes[index];
    if tag == 105 {
        match decode_integer(bytes, index) {
            Ok((n, next)) => Ok((Value::Integer(n), next)),
            Err(e) => Err(e),
        }
    } else if tag == 108 {
        let mut items: Vec<Value> = Vec::new();
        let mut at: usize = index + 1;
        assert(view_items(items@) + Seq::<ValueView>::empty() =~= Seq::<ValueView>::empty());
        loop
            invariant
                index < at <= bytes@.len(),
                index < bytes@.len(),
                bytes@[index as int] == 108,
                decode_value(bytes@, index as int) matches Some((v, _)) ==> no_repeated_keys(v),
                decode_items(bytes@, index + 1) == prepend_items(
                    view_items(items@),
                    decode_items(bytes@, at as int),
                ),
            decreases bytes@.len() - at,
        {
            if at >= bytes.len() {
                return Err(Error::MalformedInput);
            }
            if bytes[at] == 101 {
                assert(view_items(items@) + Seq::<ValueView>::empty() =~= view_items(items@));
                return Ok((Value::List(items), at + 1));
            }
            match decode_at(bytes, at) {
                Err(e) => {
                    return Err(e);
                },
                Ok((v, next)) => {
                    let ghost front = view_items(items@);
                    let ghost shorter = items@;
                    items.push(v);
                    proof {
                        assert(items@.drop_last() =~= shorter);
                        assert(view_items(items@) == front.push(v@));
                        match decode_items(bytes@, next as int) {
                            Some((rest, end)) => {
                                assert(front + (seq![v@] + rest) =~= front.push(v@) + rest);
                            },
                            None => {},
                        }
                    }
                    at = next;
                },
            }
        }
    } else if tag == 100 {
        let mut entries: Vec<(Vec<u8>, Value)> = Vec::new();
        let ghost mut raw: Seq<(Seq<u8>, ValueView)> = Seq::empty();
        let mut at: usize = index + 1;
        assert(raw + Seq::<(Seq<u8>, ValueView)>::empty() =~= raw);
        loop
            invariant
                index < at <= bytes@.len(),
                index < bytes@.len(),
                bytes@[index as int] == 100,
                decode_value(bytes@, index as int) matches Some((v, _)) ==> no_repeated_keys(v),
                view_entries(entries@) == dedup(raw),
                decode_entries(bytes@, index + 1) == prepend_entries(
                    raw,
                    decode_entries(bytes@, at as int),
                ),
            decreases bytes@.len() - at,
        {
            if at >= bytes.len() {
                return Err(Error::MalformedInput);
            }
            if bytes[at] == 101 {
                assert(raw + Seq::<(Seq<u8>, ValueView)>::empty() =~= raw);
                return Ok((Value::Dict(entries), at + 1));
            }
            let (key, after_key) = match decode_byte_string(bytes, at) {
                Err(e) => {
                    return Err(e);
                },
                Ok(pair) => pair,
            };
            match decode_at(bytes, after_key) {
                Err(e) => {
                    return Err(e);
                },
                Ok((v, next)) => {
                    proof {
                        lemma_dedup(raw);
                        let longer = raw.push((key@, v@));
                        assert(longer.drop_last() =~= raw);
                        match decode_entries(bytes@, next as int) {
                            Some((rest, end)) => {
                                assert(raw + (seq![(key@, v@)] + rest) =~= longer + rest);
                            },
                            None => {},
                        }
                        raw = longer;
                    }
                    upsert_entry(&mut entries, key, v);
                    at = next;
                },
            }
        }
    } else {
        match decode_byte_string(bytes, index) {
            Ok((b, next)) => Ok((Value::ByteString(b), next)),
            Err(e) => Err(e),
        }
    }
}

/// Where the value written at `i` ends, `None` where no value stands there.
pub open spec fn value_end(s: Seq<u8>, i: int) -> Option<int> {
    match decode_value(s, i) {
        Some((_, end)) => Some(end),
        None => None,
    }
}

/// Where the list whose items start at `i` ends.
pub open spec fn items_end(s: Seq<u8>, i: int) -> Option<int> {
    match decode_items(s, i) {
        Some((_, end)) => Some(end),
        None => None,
    }
}

/// Where the dictionary whose entries start at `i` ends.
pub open spec fn entries_end(s: Seq<u8>, i: int) -> Option<int> {
    match decode_entries(s, i) {
        Some((_, end)) => Some(end),
        None => None,
    }
}

/// Cursor decoding: finds where the value at `index` ends without building
/// it. It accepts what `decode_at` accepts and stops where that stops.
pub fn skip_value(bytes: &[u8], index: usize) -> (r: Result<usize, Error>)
    ensures
        match r {
            Ok(next) => value_end(bytes@, index as int) == Some(next as int) && index < next
                <= bytes@.len(),
            Err(e) => e == Error::MalformedInput && value_end(bytes@, index as int) is None,
        },
    decreases bytes@.len() - index,
{
    if index >= bytes.len() {
        return Err(Error::MalformedInput);
    }
    let tag: u8 = bytes[index];
    if tag == 105 {
        match decode_integer(bytes, index) {
            Ok((_, next)) => Ok(next),
            Err(e) => Err(e),
        }
    } else if tag == 108 {
        let mut at: usize = index + 1;
        loop
            invariant
                index < at <= bytes@.len(),
                index < bytes@.len(),
                bytes@[index as int] == 108,
                items_end(bytes@, index + 1) == items_end(bytes@, at as int),
            decreases bytes@.len() - at,
        {
            if at >= bytes.len() {
                return Err(Error::MalformedInput);
            }
            if bytes[at] == 101 {
                return Ok(at + 1);
            }
            match skip_value(bytes, at) {
                Err(e) => {
                    return Err(e);
                },
                Ok(next) => {
                    at = next;
                },
            }
        }
    } else if tag == 100 {
        let mut at: usize = index + 1;
        loop
            invariant
                index < at <= bytes@.len(),
                index < bytes@.len(),
                bytes@[index as int] == 100,
                entries_end(bytes@, index + 1) == entries_end(bytes@, at as int),
            decreases bytes@.len() - at,
        {
            if at >= bytes.len() {
                return Err(Error::MalformedInput);
            }
            if bytes[at] == 101 {
                return Ok(at + 1);
            }
            let after_key: usize = match byte_string_range(bytes, at) {
                Err(e) => {
                    return Err(e);
                },
                Ok((_, to)) => to,
            };
            match skip_value(bytes, after_key) {
                Err(e) => {
                    return Err(e);
                },
                Ok(next) => {
                    at = next;
                },
            }
        }
    } else {
        match byte_string_range(bytes, index) {
            Ok((_, to)) => Ok(to),
            Err(e) => Err(e),
        }
    }
}

/// Full decoding: reads the value that `bytes` starts with. No dictionary
/// of what it gives holds a key twice.
pub fn decode(bytes: &[u8]) -> (r: Result<Value, Error>)
    ensures
        match r {
            Ok(v) => spec_decode(bytes@) == Some(v@) && no_repeated_keys(v@),
            Err(e) => e == Error::MalformedInput && spec_decode(bytes@) is None,
        },
{
    match decode_at(bytes, 0) {
        Ok((v, _)) => Ok(v),
        Err(e) => Err(e),
    }
}

} // verus!
