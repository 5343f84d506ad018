//! Packs named bit fields of 1 to 8 bits tightly into a growable byte
//! buffer and reads them back by name as unsigned integers.

pub mod bit_info;
pub mod bit_pack;
pub mod error;
pub mod field_int;
pub mod laws;
pub mod layout;
pub mod mask;
pub mod wide;

pub use bit_info::{BitInfo, Construct};
pub use bit_pack::BitPack;
pub use error::PackError;
pub use field_int::FieldInt;
pub use wide::FromSlice;
