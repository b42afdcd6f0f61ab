//! The durable engine.
//!
//! # What is kept
//!
//! An instance keeps three things over a close: a control block ([`control`]), a journal ([`wal`]) and
//! what a checkpoint wrote to its data file ([`data`], [`flush`]). A write appends its record before it
//! changes anything; the end of a transaction makes every record up to its own durable. [`open`]
//! rebuilds the instance from the journal, over the data file: the definitions first ([`catalogue`]),
//! then the row records of the transactions that committed ([`recover`], [`redo`]).
//!
//! # Layers
//!
//! * [`bytes`], [`crc`], [`encode`], [`page`]: integers, checksums, rows and pages as bytes.
//! * [`wal`], [`wal_payload`], [`definitions`]: the records of the journal and what they carry.
//! * [`version`], [`heap`], [`contents`]: a version of a row as a record of a heap.
//! * [`catalogue`], [`data`]: the definitions, and what the data file holds.
//! * [`table_model`], [`heap_table`], [`heap_writes`], [`heap_reads`]: one table of versions.
//! * [`journal`]: the journal and the register of the transactions.
//! * [`shapes`], [`plan`], [`storage`], [`rows`], [`lists`], [`ends`], [`flush`], [`vacuum`]: the
//!   instance.
//!
//! # What holds over a crash
//!
//! [`ledger`] ties each version of a table to the records that created and hid it; [`told`] says
//! what the records tell by themselves; [`durability`] shows that every operation keeps a table
//! recoverable, [`reopening`] what a reopen gives back, and [`instance_laws`] puts the tables
//! together. [`redo_laws`] and [`catalogue_laws`] show that the rows and the definitions of a journal
//! may be replayed again, [`data_laws`] that what the data file holds changes nothing of what an open
//! gives back, [`begin_laws`] that a transaction begins once, [`read_laws`] who sees what,
//! [`list_laws`] that an index serves what a scan gives, [`restore_laws`] and [`savepoint_laws`] what a
//! rollback gives back. [`recover_laws`] says who wins and what is replayed, [`wal_laws`] what a journal
//! that was cut short still tells, [`crc_laws`] and [`damage_laws`] that damage is caught, [`encode_laws`]
//! that what reads as a row was written as one.
//!
//! # What the operations promise
//!
//! [`write_laws`] says what a write changes and why it is refused, [`unique_laws`] and [`apart_laws`]
//! that no two live rows share a key of a `unique` index, whoever writes and however they end,
//! [`vacuum_laws`] what a vacuum takes away, [`flush_laws`] what reaches the data file, [`order_laws`]
//! what a read gives and in which order, [`end_laws`] and [`register_laws`] what the ends and the
//! savepoints of transactions leave, [`define_laws`] what creating and dropping does, [`fault_laws`]
//! why a call fails.

pub mod apart_laws;
pub mod begin_laws;
pub mod bytes;
pub mod catalogue;
pub mod catalogue_laws;
pub mod contents;
pub mod control;
pub mod crc;
pub mod crc_laws;
pub mod damage_laws;
pub mod data;
pub mod data_laws;
pub mod define_laws;
pub mod definitions;
pub mod durability;
pub mod encode;
pub mod encode_laws;
pub mod end_laws;
pub mod ends;
pub mod fault_laws;
pub mod flush;
pub mod flush_laws;
pub mod heap;
pub mod heap_reads;
pub mod heap_table;
pub mod heap_writes;
pub mod instance_laws;
pub mod journal;
pub mod ledger;
pub mod ledger_steps;
pub mod ledger_undo;
pub mod list_laws;
pub mod lists;
pub mod open;
pub mod order_laws;
pub mod page;
pub mod plan;
pub mod read_laws;
pub mod rebuildable;
pub mod recover;
pub mod recover_laws;
pub mod redo;
pub mod redo_laws;
pub mod register_laws;
pub mod reopening;
pub mod restore_laws;
pub mod rows;
pub mod savepoint_laws;
pub mod shapes;
pub mod storage;
pub mod table_model;
pub mod told;
pub mod unique_laws;
pub mod vacuum;
pub mod vacuum_laws;
pub mod version;
pub mod wal;
pub mod wal_laws;
pub mod wal_payload;
pub mod write_laws;
