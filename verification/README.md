# vauban_storage

A storage engine that keeps the versions of its rows: databases, tables and indexes, transactions
with savepoints, snapshots, a vacuum. One engine keeps everything in memory, the other journals every
write and is rebuilt from its journal, over what a checkpoint left of it in a data file.

The library under `src/` is written in Verus: what every function does is stated in its contract and
proved. The promises that span functions are public proof functions whose names start with `law_`:

* `memory::laws`, `memory::chain_laws`: who sees what, and that the versions of a row form a chain;
* `memory::index_laws`: that a seek is the scan cut to the range;
* `memory::undo_laws`, `memory::restore_laws`: that a rollback never fails, and gives back what was
  there before the transaction or when the savepoint was taken;
* `memory::savepoint_laws`, `disk::savepoint_laws`: that a rollback to a savepoint gives back what was
  read then, whatever other transactions wrote meanwhile;
* `memory::vacuum_laws`: what a vacuum keeps;
* `disk::read_laws`, `disk::list_laws`: who sees what in a durable table, and that a seek is the scan
  cut to the range;
* `disk::restore_laws`: what a rollback gives back in a durable table;
* `disk::begin_laws`: that a transaction has one `Begin` before its first write and its end;
* `disk::durability`, `disk::reopening`, `disk::instance_laws`: what a crash keeps;
* `disk::redo_laws`, `disk::catalogue_laws`: that the rows and the definitions of a journal may be
  replayed again;
* `disk::data_laws`: that what a checkpoint writes to the data file changes nothing of what an open
  gives back;
* beside the formats (`disk::wal`, `disk::wal_payload`, `disk::version`, `disk::encode`,
  `disk::page`, `disk::definitions`, `disk::control`): that what is written reads back.

`app/` holds the engines as a server uses them: behind locks, the durable one over the files of a
directory. `tests/` holds the tests of the library.
