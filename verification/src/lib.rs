//! A storage engine that keeps the versions of its rows.
//!
//! # What it stores
//!
//! Databases hold tables; a table has a [`TableShape`]: its columns and, if it is clustered, the key
//! its rows are ordered by. A row has an identifier that is never handed out twice and a chain of
//! versions. An index has an [`IndexShape`]; a `unique` one refuses a key that a live row already
//! holds, `NULL` equal to `NULL`.
//!
//! # Who sees what
//!
//! A version names the transaction that created it and the one that replaced or deleted it. A
//! [`Snapshot`] sees a version when its creator is settled for it and no settled transaction took the
//! version away: see [`Snapshot::is_visible`]. The promises that follow are stated and proved in
//! [`snapshot_laws`], [`memory::laws`] and [`disk::read_laws`]; that a rollback never fails in [`memory::undo_laws`], what
//! it gives back in [`memory::restore_laws`], [`memory::savepoint_laws`], [`disk::restore_laws`] and
//! [`disk::savepoint_laws`].
//!
//! # What order they come in
//!
//! The values of a column are ordered as what they stand for: see [`value_laws`]. A key is ordered by the
//! first column in which it differs from another: see [`memory::key_laws`].
//!
//! # The two engines
//!
//! * [`MemoryStorage`] keeps everything in memory.
//! * [`DiskStorage`] journals every write before it makes it, and is rebuilt from its journal and what
//!   a checkpoint left of it ([`Data`]): see [`disk`]. That whatever was committed survives is proved
//!   in [`disk::instance_laws`].

pub mod disk;
pub mod error;
pub mod ids;
pub mod key_range;
pub mod memory;
pub mod ordmap;
pub mod row;
pub mod seqs;
pub mod shape;
pub mod snapshot;
pub mod snapshot_laws;
pub mod text;
pub mod text_laws;
pub mod value;
pub mod value_laws;

pub use crate::disk::control::Control;
pub use crate::disk::data::Data;
pub use crate::disk::plan::{plan_open, OpenPlan};
pub use crate::disk::shapes::DiskOptions;
pub use crate::disk::storage::DiskStorage;
pub use crate::error::{InternalError, SqlError, SqlResult};
pub use crate::ids::{DbId, IndexId, RowId, SavepointId, TableId, TxnId};
pub use crate::key_range::{Bound, Direction, KeyRange};
pub use crate::memory::MemoryStorage;
pub use crate::row::Row;
pub use crate::shape::{IndexShape, KeyColumn, TableShape};
pub use crate::snapshot::{Snapshot, TxnStatus};
pub use crate::value::{Collation, Len, SqlString, SqlType, TypeInfo, Value};
