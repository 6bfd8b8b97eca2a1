//! Packed bitfield records over plain byte buffers.
//!
//! A schema is an ordered list of named fields, each with a bit width of
//! 1 to 64 bits. [`layout::resolve`] validates the schema and assigns each
//! field a global bit offset; [`record::PackedRecord`] stores all fields of
//! one schema packed back to back into a buffer of `total_bits / 8` bytes;
//! [`bits`] holds the engine that reads and writes an arbitrary bit range
//! of such a buffer without disturbing the surrounding bits.

pub mod bits;
pub mod layout;
pub mod record;
pub mod widths;
