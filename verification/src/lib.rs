//! A small search engine core: log-structured storage, dynamic schemas, documents,
//! lexical postings and vector partitions, each verified against its contract.

pub mod bytes;
pub mod field_map;
pub mod index;
pub mod json;
pub mod lexical;
pub mod rank;
pub mod schema;
pub mod sort;
pub mod storage;
pub mod text;
pub mod vector;

pub use index::{DocId, Index, IndexConfig, SchemalessDoc};
pub use lexical::LexicalEngine;
pub use schema::{DynamicSchema, FieldChange, FieldId, FieldMeta, FieldType, TokenizerType, VectorSimilarity};
pub use storage::io_backend::IoBackendKind;
pub use storage::key::{LsmKey, LsmValue, NS_DOC, NS_META, NS_VEC};
pub use storage::lsm::{LsmConfig, LsmEngine};
pub use storage::manifest::{Manifest, SSTableMeta};
pub use storage::memtable::MemTable;
pub use storage::sstable::{SSTable, SStableWriter};
pub use storage::wal::{Wal, WalOp, WalSync};
pub use vector::partition::{Partition, PartitionId};
pub use vector::{F32Quantization, IvfIndex, QuantizationType, VectorConfig, VectorEngine};
