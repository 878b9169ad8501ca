//! Bit-granular reading and writing over byte buffers, with LEB128-style
//! variable-length integers layered on top; and three small utilities around
//! them: a char cursor over a string, a generational arena, and a best-fit
//! range allocator.
//!
//! A buffer is seen as one little-endian integer (`model::bytes_value`): bit
//! `i` of the buffer is bit `i % 8` of byte `i / 8`. Readers and writers work
//! on buffers whose length is a whole number of 64-bit words, decoded and
//! encoded little-endian explicitly, so the layout does not depend on the
//! platform.

pub mod bitreader;
pub mod bitwriter;
pub mod charsor;
pub mod error;
pub mod genvec;
pub mod masks;
pub mod model;
pub mod rangealloc;
pub mod varint;

pub use bitreader::BitReader;
pub use bitwriter::BitWriter;
pub use charsor::Charsor;
pub use error::BitError;
pub use genvec::{GenVec, Handle, Ticket};
pub use masks::get_bit_for_bit_num;
pub use rangealloc::{BestFit, RangeAlloc, RangeAllocError};
