//! Portable checkpoints of aggregation state, and a write-only sink that
//! publishes row batches to a message broker.
pub mod value;
pub mod sink;
pub mod codec;
pub mod accumulator;
