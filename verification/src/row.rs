//! Rows.

use vstd::prelude::*;

use crate::value::{Value, ValueModel};

verus! {

/// The values of one row, one per column of its table.
#[derive(Debug, Clone, PartialEq, Eq)]
pub struct Row(pub Vec<Value>);

impl View for Row {
    type V = Seq<ValueModel>;

    open spec fn view(&self) -> Seq<ValueModel> {
        self.0.deep_view()
    }
}

impl DeepView for Row {
    type V = Seq<ValueModel>;

    open spec fn deep_view(&self) -> Seq<ValueModel> {
        self@
    }
}

/// A copy of a list of values.
pub fn duplicate_values(values: &Vec<Value>) -> (r: Vec<Value>)
    ensures
        r.deep_view() == values.deep_view(),
{
    let mut r: Vec<Value> = Vec::with_capacity(values.len());
    for i in 0..values.len()
        invariant
            r@.len() == i,
            forall|j: int| 0 <= j < i ==> (#[trigger] r@[j])@ == values@[j]@,
    {
        r.push(values[i].duplicate());
    }
    assert(r.deep_view() =~= values.deep_view());
    r
}

impl Row {
    /// A copy of the row.
    pub fn duplicate(&self) -> (r: Row)
        ensures
            r@ == self@,
    {
        Row(duplicate_values(&self.0))
    }
}

} // verus!
