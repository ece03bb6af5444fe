//! A codec for the Concise Binary Object Representation (RFC 7049): an
//! encoder that writes data items with the shortest heads, a decoder that
//! reads them from slices and streams, and the proofs that hold the two
//! together.

pub mod de;
pub mod error;
pub mod laws;
pub mod read;
pub mod ser;
pub mod value;
pub mod wire;
pub mod write;

pub use crate::error::Error;
pub use crate::value::from_mut_slice;
pub use crate::value::from_reader;
pub use crate::value::from_slice;
pub use crate::value::from_slice_with_scratch;
pub use crate::value::to_vec;
pub use crate::value::to_vec_packed;
pub use crate::value::to_writer;
pub use crate::value::StreamDeserializer;
pub use crate::value::Value;
