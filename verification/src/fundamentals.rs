//! Fundamental collections: a pushdown stack and a FIFO queue.

pub mod queue;
pub mod stack;
