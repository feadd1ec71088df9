//! Block-parallel, order-preserving compression pipeline.
//!
//! The input byte stream is split into fixed-size ranked blocks, each block
//! is handed independently to the brotli codec, and the ranked results are
//! reassembled into the original order even when they complete out of order.
//!
//! The compressed form this library writes is therefore its blocks' codec
//! streams laid end to end. Its own decompressor decodes every stream in
//! order; a plain single-stream brotli decoder reads only the first block.

pub mod codec;
pub mod config;
pub mod fault;
pub mod pipeline;
pub mod queue;
pub mod splitter;
