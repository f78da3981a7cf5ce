//! Ame Object Notation: a compact binary encoding of structured data.
//!
//! Integers are big-endian in their full width, `bool` is one byte, lengths are
//! eight-byte big-endian integers, strings are UTF-8 bytes after their length,
//! an enum variant is one byte with its index, and structs and tuples are their
//! fields one after the other.

pub mod be;
pub mod error;
pub mod value;
pub mod ser;
pub mod de;
