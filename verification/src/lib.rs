//! Reading a file's text lines in reverse order, from the last line to the
//! first, without loading the whole file into memory.
//!
//! The crate has two parts: a byte view ([`bytes_trim::BytesTrim`]), an owned
//! byte buffer paired with a window that can be narrowed without copying, and
//! a reverse scanner ([`reader::ReverseLineReader`]) that walks a byte
//! resource from its tail toward its head in fixed-size chunks, stitches
//! lines that span chunk boundaries back together, and strips line
//! terminators. The scanner itself performs no I/O: it tells its caller which
//! byte range to read next, and the caller hands the bytes back.

pub mod byte_start_with;
pub mod bytes_trim;
pub mod lines;
pub mod reader;

pub use bytes_trim::BytesTrim;
pub use reader::ReverseLineReader;
