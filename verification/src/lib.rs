//! Byte-oriented scanning toolkit: literal byte symbols, positioned readers
//! over in-memory byte sources, and a configurable tokenizing scanner.

pub mod data;
pub mod feed;
pub mod marker;
pub mod reader;
pub mod scanner;
pub mod symbol;

pub use data::Chunk;
pub use data::Data;
pub use data::Datum;
pub use marker::Marker;
pub use reader::Read;
pub use symbol::Symbol;
