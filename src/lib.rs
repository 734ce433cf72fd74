//! An embedded document store: a paged, checksummed record log, a fragmented
//! sorted secondary index, and the tagged binary codec they share.

pub mod buf;
pub mod text;
pub mod binary;
pub mod binary_serializer;
pub mod document;
pub mod disk_writer;
pub mod disk_reader;
pub mod index_value;
pub mod sorted_index_table;
