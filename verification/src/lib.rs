//! Verified storage-engine building blocks of an embedded graph database:
//! buffer-pool frames and page arithmetic, write-ahead log, MVCC version and
//! update chains, compressed bitsets, adaptive radix tree nodes, column
//! compression codecs, CSV/NPY field parsing and per-transaction buffers.

pub mod page;
pub mod roaring_bitmap;

pub mod art_node;
pub mod update_info;
pub mod version_info;
pub mod wal;
pub mod local_storage;
pub mod shadow_file;
pub mod stats;
pub mod page_manager;
pub mod compression;
pub mod hyperloglog;
pub mod text;
pub mod csv_reader;
pub mod physical_operator;
pub mod sqlite;
pub mod node_group;
pub mod ice_format;
pub mod csr;
pub mod value_codec;
pub mod npy_reader;
pub mod spiller;
pub mod buffer_manager;
pub mod checkpoint;
pub mod column;
pub mod csv_values;
pub mod index;
pub mod parquet_writer;
pub mod table;
pub mod chunk;
pub mod sorting;
pub mod recursive_extend;
