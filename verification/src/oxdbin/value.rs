//! The values that oxdbin stores: the JSON data model, held as plain values.
use vstd::prelude::*;

verus! {

/// A JSON value as oxdbin sees it.
///
/// A number is either an integer that fits `i64` (`Int`) or a binary64
/// floating point number, held by its IEEE-754 bit pattern (`Float`).
/// An object is the list of its entries, each key once.
#[derive(Debug, PartialEq)]
pub enum Value {
    Null,
    Bool(bool),
    Int(i64),
    Float(u64),
    Str(String),
    Array(Vec<Value>),
    Object(Vec<(String, Value)>),
}

/// The mathematical model of a [`Value`]: strings are sequences of `char`s,
/// arrays and objects are sequences.
pub enum SpecValue {
    Null,
    Bool(bool),
    Int(i64),
    Float(u64),
    Str(Seq<char>),
    Array(Seq<SpecValue>),
    Object(Seq<(Seq<char>, SpecValue)>),
}

impl View for Value {
    type V = SpecValue;

    open spec fn view(&self) -> SpecValue
        decreases self,
    {
        match self {
            Value::Null => SpecValue::Null,
            Value::Bool(b) => SpecValue::Bool(*b),
            Value::Int(i) => SpecValue::Int(*i),
            Value::Float(bits) => SpecValue::Float(*bits),
            Value::Str(s) => SpecValue::Str(s@),
            Value::Array(items) => SpecValue::Array(views_of(items@)),
            Value::Object(entries) => SpecValue::Object(entry_views_of(entries@)),
        }
    }
}

/// The views of a sequence of values.
pub open spec fn views_of(items: Seq<Value>) -> Seq<SpecValue>
    decreases items,
{
    if items.len() == 0 {
        Seq::empty()
    } else {
        views_of(items.subrange(0, items.len() - 1)).push(items[items.len() - 1].view())
    }
}

/// The views of a sequence of (key, value) entries.
pub open spec fn entry_views_of(entries: Seq<(String, Value)>) -> Seq<(Seq<char>, SpecValue)>
    decreases entries,
{
    if entries.len() == 0 {
        Seq::empty()
    } else {
        entry_views_of(entries.subrange(0, entries.len() - 1)).push(
            (entries[entries.len() - 1].0@, entries[entries.len() - 1].1.view()),
        )
    }
}

/// `views_of` views each item in place.
pub proof fn lemma_views_of(items: Seq<Value>)
    ensures
        views_of(items).len() == items.len(),
        forall|i: int| 0 <= i < items.len() ==> #[trigger] views_of(items)[i] == items[i]@,
    decreases items.len(),
{
    if items.len() > 0 {
        let front = items.subrange(0, items.len() - 1);
        lemma_views_of(front);
        assert(views_of(items) == views_of(front).push(items[items.len() - 1].view()));
        assert forall|i: int| 0 <= i < items.len() implies #[trigger] views_of(items)[i]
            == items[i]@ by {
            if i < front.len() {
                assert(front[i] == items[i]);
            }
        }
    }
}

/// `entry_views_of` views each entry in place.
pub proof fn lemma_entry_views_of(entries: Seq<(String, Value)>)
    ensures
        entry_views_of(entries).len() == entries.len(),
        forall|i: int|
            0 <= i < entries.len() ==> #[trigger] entry_views_of(entries)[i] == (
                entries[i].0@,
                entries[i].1@,
            ),
    decreases entries.len(),
{
    if entries.len() > 0 {
        let front = entries.subrange(0, entries.len() - 1);
        lemma_entry_views_of(front);
        assert(entry_views_of(entries) == entry_views_of(front).push(
            (entries[entries.len() - 1].0@, entries[entries.len() - 1].1.view()),
        ));
        assert forall|i: int| 0 <= i < entries.len() implies #[trigger] entry_views_of(entries)[i]
            == (entries[i].0@, entries[i].1@) by {
            if i < front.len() {
                assert(front[i] == entries[i]);
            }
        }
    }
}

} // verus!
