//! Log-structured storage: keys and values, the in-memory table, sorted tables on
//! disk, the write-ahead log, the manifest and the engine that coordinates them.

pub mod checksum;
pub mod compaction;
pub mod entry;
pub mod history;
pub mod io_backend;
pub mod key;
pub mod laws;
pub mod layers;
pub mod lsm;
pub mod manifest;
pub mod memtable;
pub mod sstable;
pub mod table_file;
pub mod wal;
