//! A minimal Sorted String Table (SST): an immutable, block-structured,
//! sorted key-value file image with a sparse index for point lookups.
//!
//! The writer accumulates key-value pairs into data blocks, flushing each
//! block once its estimated size reaches a threshold, and finally appends an
//! index block and a fixed footer. The reader decodes the footer and index
//! and resolves point lookups by locating the one candidate block and
//! scanning it. File I/O is left to the caller: the writer produces the
//! complete file image as bytes, and the reader is opened on such bytes.

pub mod codec;
pub mod laws;
pub mod order;
pub mod reader;
pub mod writer;
