//! A small key-value store that speaks a line- and length-prefixed wire
//! protocol: the codec that reads and writes the values of the protocol, the
//! store with its expiring entries, and the commands that act on it.

pub mod command;
pub mod decimal;
pub mod deserializer;
pub mod dictionary;
pub mod error;
pub mod line;
pub mod round_trip;
pub mod serializer;
pub mod store;
pub mod text;
pub mod value;
pub mod wire;

mod clock;

pub use deserializer::deserialize;
pub use dictionary::Dictionary;
pub use error::Error;
pub use serializer::serialize;
pub use value::DataType;
