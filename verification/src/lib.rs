//! A two-stage JSON parser. Stage 1 builds the structural index of the
//! input from per-block bitmasks; stage 2 walks the index and builds a
//! document tree, decoding strings in place. What a document means is
//! said byte by byte in `grammar`; the parsers are proved to find it.

pub mod charutils;
pub mod deserializer;
pub mod document;
pub mod error;
pub mod extents;
pub mod grammar;
pub mod magnitude;
pub mod neon;
pub mod numberparse;
pub mod serde;
pub mod stage1;
pub mod stringparse;
pub mod value;

pub use crate::deserializer::Deserializer;
pub use crate::error::{Error, ErrorType};
pub use crate::value::borrowed::to_value as to_borrowed_value;
pub use crate::value::borrowed::Value as BorrowedValue;
pub use crate::value::owned::to_value as to_owned_value;
pub use crate::value::owned::Value as OwnedValue;
