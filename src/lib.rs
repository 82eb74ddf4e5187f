//! Mark bitmap for a tracing garbage collector: one bit per heap word,
//! allocated zeroed for a collection cycle, set while marking, and scanned
//! 64 bits at a time for the marked and unmarked word indices.

pub mod bits;
pub mod bitmap;
pub mod scan;
