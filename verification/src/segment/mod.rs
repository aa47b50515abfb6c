//! Segments: immutable sorted runs on disk, their byte format, the writers
//! that produce them and a reader over their in-memory images.

pub mod block;
pub mod meta;
pub mod reader;
pub mod writer;
