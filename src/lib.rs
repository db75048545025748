//! Read-only decoder for the on-disk segment format of a column-oriented
//! OLAP store: metadata parsers, dictionaries, bit-packed forward indexes and
//! variable-byte chunked forward indexes, plus the small amount of planning
//! logic that a columnar query adapter needs on top of them.

pub mod error;
pub mod bytes;
pub mod catalog;
pub mod dictionary;
pub mod discovery;
pub mod fixed_bit;
pub mod index_map;
pub mod metadata;
pub mod properties;
pub mod scan;
pub mod segment_reader;
pub mod sorted_names;
pub mod text;
pub mod var_byte;

pub use catalog::{PinotCatalog, PinotCatalogBuilder, PinotCatalogSource};
pub use dictionary::DictionaryReader;
pub use discovery::FileSystemMetadataProvider;
pub use error::{Error, Result};
pub use fixed_bit::FixedBitWidthReader;
pub use index_map::{IndexLocation, IndexMap};
pub use metadata::{ColumnMetadata, DataType, SegmentMetadata};
pub use segment_reader::SegmentReader;
pub use var_byte::VarByteChunkReader;
