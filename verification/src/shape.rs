//! Shapes of tables and of indexes.

use vstd::prelude::*;

use crate::value::TypeInfo;

verus! {

/// One column of a key.
#[derive(Debug, Clone, Copy, PartialEq, Eq, Structural)]
pub struct KeyColumn {
    /// Position of the column in the table.
    pub column: u16,
    /// Whether the key orders the column downwards, `NULL` last.
    pub descending: bool,
}

/// The columns of a table and its clustered key.
///
/// # Key order
///
/// A key is compared column by column: `NULL` comes first and equals `NULL`, other values
/// follow the collation of the column, and a `descending` column is reversed, `NULL` included.
#[derive(Debug, Clone, PartialEq, Eq)]
pub struct TableShape {
    /// The columns, in order.
    pub columns: Vec<TypeInfo>,
    /// The clustered key, `None` for a heap.
    pub clustered_key: Option<Vec<KeyColumn>>,
}

/// What a [`TableShape`] stands for.
#[verifier::ext_equal]
pub struct TableShapeModel {
    /// The columns, in order.
    pub columns: Seq<TypeInfo>,
    /// The clustered key, `None` for a heap.
    pub clustered_key: Option<Seq<KeyColumn>>,
}

impl View for TableShape {
    type V = TableShapeModel;

    open spec fn view(&self) -> TableShapeModel {
        TableShapeModel {
            columns: self.columns@,
            clustered_key: match self.clustered_key {
                Some(key) => Some(key@),
                None => None,
            },
        }
    }
}

impl DeepView for TableShape {
    type V = TableShapeModel;

    open spec fn deep_view(&self) -> TableShapeModel {
        self@
    }
}

/// A copy of a list of key columns.
pub fn duplicate_key(key: &Vec<KeyColumn>) -> (r: Vec<KeyColumn>)
    ensures
        r@ == key@,
{
    let mut r: Vec<KeyColumn> = Vec::with_capacity(key.len());
    for i in 0..key.len()
        invariant
            r@ == key@.take(i as int),
    {
        r.push(key[i]);
        assert(r@ =~= key@.take(i + 1));
    }
    assert(key@.take(key@.len() as int) =~= key@);
    r
}

impl TableShape {
    /// A copy of the shape.
    pub fn duplicate(&self) -> (r: TableShape)
        ensures
            r@ == self@,
    {
        let mut columns: Vec<TypeInfo> = Vec::with_capacity(self.columns.len());
        for i in 0..self.columns.len()
            invariant
                columns@ == self.columns@.take(i as int),
        {
            columns.push(self.columns[i]);
            assert(columns@ =~= self.columns@.take(i + 1));
        }
        assert(self.columns@.take(self.columns@.len() as int) =~= self.columns@);
        let clustered_key = match &self.clustered_key {
            Some(key) => Some(duplicate_key(key)),
            None => None,
        };
        TableShape { columns, clustered_key }
    }
}

/// The key of an index, whether two live rows may share it, and the columns it carries along.
#[derive(Debug, Clone, PartialEq, Eq)]
pub struct IndexShape {
    /// The key columns, in key order.
    pub columns: Vec<KeyColumn>,
    /// Whether two live rows may not share a key, `NULL` equal to `NULL`.
    pub unique: bool,
    /// Columns carried beside the key.
    pub included: Vec<u16>,
}

/// What an [`IndexShape`] stands for.
#[verifier::ext_equal]
pub struct IndexShapeModel {
    /// The key columns, in key order.
    pub columns: Seq<KeyColumn>,
    /// Whether two live rows may not share a key.
    pub unique: bool,
    /// Columns carried beside the key.
    pub included: Seq<u16>,
}

impl View for IndexShape {
    type V = IndexShapeModel;

    open spec fn view(&self) -> IndexShapeModel {
        IndexShapeModel {
            columns: self.columns@,
            unique: self.unique,
            included: self.included@,
        }
    }
}

impl DeepView for IndexShape {
    type V = IndexShapeModel;

    open spec fn deep_view(&self) -> IndexShapeModel {
        self@
    }
}

impl IndexShape {
    /// A copy of the shape.
    pub fn duplicate(&self) -> (r: IndexShape)
        ensures
            r@ == self@,
    {
        let mut included: Vec<u16> = Vec::with_capacity(self.included.len());
        for i in 0..self.included.len()
            invariant
                included@ == self.included@.take(i as int),
        {
            included.push(self.included[i]);
            assert(included@ =~= self.included@.take(i + 1));
        }
        assert(self.included@.take(self.included@.len() as int) =~= self.included@);
        IndexShape { columns: duplicate_key(&self.columns), unique: self.unique, included }
    }
}

} // verus!
