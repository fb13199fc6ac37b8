use crate::entries::last_value;
use crate::bytes::bytes_equal;
use vstd::prelude::*;

verus! {

/// Mathematical model of a value tree.
pub enum ValueView {
    Integer(i64),
    Bytes(Seq<u8>),
    List(Seq<ValueView>),
    Dict(Seq<(Seq<u8>, ValueView)>),
}

/// A value of the self-describing serialization format. A dictionary holds
/// its entries in the order in which they were put in.
#[derive(Debug, PartialEq, Eq)]
pub enum Value {
    Integer(i64),
    ByteString(Vec<u8>),
    List(Vec<Value>),
    Dict(Vec<(Vec<u8>, Value)>),
}

impl View for Value {
    type V = ValueView;

    open spec fn view(&self) -> ValueView {
        model_of(*self)
    }
}

/// The model of `v`: the same tree over mathematical sequences.
pub open spec fn model_of(v: Value) -> ValueView
    decreases v,
{
    match v {
        Value::Integer(n) => ValueView::Integer(n),
        Value::ByteString(b) => ValueView::Bytes(b@),
        Value::List(items) => ValueView::List(view_items(items@)),
        Value::Dict(entries) => ValueView::Dict(view_entries(entries@)),
    }
}

/// The models of `items`, in their order.
pub open spec fn view_items(items: Seq<Value>) -> Seq<ValueView>
    decreases items,
{
    if items.len() == 0 {
        Seq::empty()
    } else {
        view_items(items.drop_last()).push(model_of(items.last()))
    }
}

/// The models of `entries`, in their order.
pub open spec fn view_entries(entries: Seq<(Vec<u8>, Value)>) -> Seq<(Seq<u8>, ValueView)>
    decreases entries,
{
    if entries.len() == 0 {
        Seq::empty()
    } else {
        view_entries(entries.drop_last()).push((entries.last().0@, model_of(entries.last().1)))
    }
}

pub proof fn lemma_view_items(items: Seq<Value>)
    ensures
        view_items(items).len() == items.len(),
        forall|j: int| 0 <= j < items.len() ==> (#[trigger] view_items(items)[j]) == items[j]@,
    decreases items.len(),
{
    if items.len() > 0 {
        lemma_view_items(items.drop_last());
    }
}

pub proof fn lemma_view_entries(entries: Seq<(Vec<u8>, Value)>)
    ensures
        view_entries(entries).len() == entries.len(),
        forall|j: int|
            0 <= j < entries.len() ==> (#[trigger] view_entries(entries)[j]) == (
                entries[j].0@,
                entries[j].1@,
            ),
    decreases entries.len(),
{
    if entries.len() > 0 {
        lemma_view_entries(entries.drop_last());
    }
}

/// The number of nodes of a tree: what recursion over a tree counts down.
pub open spec fn size(v: ValueView) -> nat
    decreases v,
{
    match v {
        ValueView::Integer(_) => 1,
        ValueView::Bytes(_) => 1,
        ValueView::List(items) => 1 + size_items(items),
        ValueView::Dict(entries) => 1 + size_entries(entries),
    }
}

pub open spec fn size_items(items: Seq<ValueView>) -> nat
    decreases items,
{
    if items.len() == 0 {
        0
    } else {
        size_items(items.drop_last()) + size(items.last())
    }
}

pub open spec fn size_entries(entries: Seq<(Seq<u8>, ValueView)>) -> nat
    decreases entries,
{
    if entries.len() == 0 {
        0
    } else {
        size_entries(entries.drop_last()) + size(entries.last().1)
    }
}

pub proof fn lemma_size_items(items: Seq<ValueView>, i: int)
    requires
        0 <= i < items.len(),
    ensures
        size(items[i]) <= size_items(items),
    decreases items.len(),
{
    if i < items.len() - 1 {
        lemma_size_items(items.drop_last(), i);
    }
}

pub proof fn lemma_size_entries(entries: Seq<(Seq<u8>, ValueView)>, i: int)
    requires
        0 <= i < entries.len(),
    ensures
        size(entries[i].1) <= size_entries(entries),
    decreases entries.len(),
{
    if i < entries.len() - 1 {
        lemma_size_entries(entries.drop_last(), i);
    }
}

/// Finds the last entry with the key `key`.
pub fn find_entry(entries: &Vec<(Vec<u8>, Value)>, key: &[u8]) -> (r: Option<usize>)
    ensures
        match r {
            Some(i) => i < entries@.len() && entries@[i as int].0@ == key@ && last_value(
                view_entries(entries@),
                key@,
            ) == Some(model_of(entries@[i as int].1)),
            None => last_value(view_entries(entries@), key@) is None,
        },
{
    let ghost views = view_entries(entries@);
    proof {
        lemma_view_entries(entries@);
        assert(views.take(views.len() as int) =~= views);
    }
    let mut i: usize = entries.len();
    while i > 0
        invariant
            i <= entries@.len(),
            views == view_entries(entries@),
            views.len() == entries@.len(),
            forall|j: int|
                0 <= j < entries@.len() ==> (#[trigger] views[j]) == (
                    entries@[j].0@,
                    model_of(entries@[j].1),
                ),
            last_value(views, key@) == last_value(views.take(i as int), key@),
        decreases i,
    {
        i = i - 1;
        proof {
            assert(views.take(i + 1).drop_last() =~= views.take(i as int));
            assert(views.take(i + 1).last() == views[i as int]);
        }
        if bytes_equal(entries[i].0.as_slice(), key) {
            return Some(i);
        }
    }
    None
}

impl Value {
    /// What a dictionary holds under `key`; `None` where `self` is no
    /// dictionary or has no such key.
    pub fn get(&self, key: &[u8]) -> (r: Option<&Value>)
        ensures
            r matches Some(v) ==> self@ matches ValueView::Dict(entries) && last_value(entries, key@)
                == Some(v@),
            r is None ==> !(self@ matches ValueView::Dict(entries) && last_value(entries, key@)
                is Some),
    {
        match self {
            Value::Dict(entries) => {
                match find_entry(entries, key) {
                    Some(i) => Some(&entries[i].1),
                    None => None,
                }
            },
            _ => None,
        }
    }
}

} // verus!
