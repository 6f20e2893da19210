//! Byte-exact binary encoding: a cursor over a byte buffer, the codec contract
//! of a value type, and controllers that fix how a value is laid out on the wire.

pub mod array;
pub mod base;
pub mod numbers;
pub mod prefix;
pub mod string;
