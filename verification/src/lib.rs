//! A constant database: an immutable associative file that maps byte-string
//! keys to byte-string values, laid out as a 2048-byte table of 256 bucket
//! descriptors, a record region, and 256 open-addressed hash tables.

pub mod boxed_maker;
pub mod error;
pub mod format;
pub mod hash;
pub mod image;
pub mod lookup;
pub mod maker;
pub mod reader;
pub mod table;
pub mod uint32;

pub use boxed_maker::{CdbMakerBoxed, CdbWrite};
pub use error::CdbError;
pub use hash::hash;
pub use maker::CdbMaker;
pub use reader::{CdbIter, CdbReader};
