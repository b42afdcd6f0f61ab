//! Identifier newtypes handed out by the storage layer and by the transaction manager.
//!
//! All of them are plain integers whose text is the **bare decimal integer**. The duplicate-key
//! error uses that text in place of the object names, which lets the caller identify the
//! violated index and rephrase the error with the catalogue names.

use vstd::prelude::*;

verus! {

/// Identifier of a database, unique within the instance.
#[derive(Debug, Clone, Copy, PartialEq, Eq, PartialOrd, Ord, Hash, Structural)]
pub struct DbId(pub u32);

/// Identifier of a table, unique within the **whole instance** (not per database).
#[derive(Debug, Clone, Copy, PartialEq, Eq, PartialOrd, Ord, Hash, Structural)]
pub struct TableId(pub u32);

/// Identifier of an index, unique within the **whole instance** (not per table).
#[derive(Debug, Clone, Copy, PartialEq, Eq, PartialOrd, Ord, Hash, Structural)]
pub struct IndexId(pub u32);

/// Identifier of a logical row, unique within its table, never reused after a delete or a
/// vacuum, and stable for the whole life of the row.
#[derive(Debug, Clone, Copy, PartialEq, Eq, PartialOrd, Ord, Hash, Structural)]
pub struct RowId(pub u64);

/// Identifier of a transaction, assigned by the transaction manager, strictly increasing over
/// time. The storage layer never creates one.
#[derive(Debug, Clone, Copy, PartialEq, Eq, PartialOrd, Ord, Hash, Structural)]
pub struct TxnId(pub u64);

/// Identifier of a savepoint, increasing within its transaction and meaningful only for that
/// transaction.
#[derive(Debug, Clone, Copy, PartialEq, Eq, PartialOrd, Ord, Hash, Structural)]
pub struct SavepointId(pub u64);

} // verus!
