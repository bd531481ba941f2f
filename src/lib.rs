//! Geohash encoding and decoding on fixed-point coordinates, with the
//! eight neighbouring cells of a hash.
pub mod alphabet;
pub mod cell;
pub mod codec;
pub mod neighbor;

pub use alphabet::{symbol_for, value_for, GeohashError};
pub use codec::{decode, decode_bbox, encode, encode_fixed_bits, Coordinate};
pub use neighbor::{neighbor, neighbors, Direction, Neighbors};
