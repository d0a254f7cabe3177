//! A canonical binary codec: values of a fixed type set are written as
//! deterministic byte sequences and read back, every malformed input
//! rejected with a specific error.
//!
//! Encoding is injective: no two distinct values share a byte image. Decoding
//! is proved to invert encoding, consuming exactly the bytes that encoding
//! produced. Unordered collections travel in strictly ascending key order,
//! and untrusted length prefixes never drive an allocation.

pub mod de;
pub mod error;
pub mod float;
pub mod interop;
pub mod io;
pub mod laws;
pub mod maps;
pub mod model;
pub mod ser;

pub use de::BorshDeserialize;
pub use de::EnumExt;
pub use de::from_reader;
pub use de::from_slice;
pub use error::Error;
pub use error::ErrorKind;
pub use error::unexpected_eof_to_unexpected_length_of_input;
pub use laws::RoundTrip;
pub use model::Model;
pub use ser::BorshSerialize;
pub use ser::to_vec;
pub use ser::to_writer;
