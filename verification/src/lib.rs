//! Streaming aggregation: collectors that absorb items one at a time and
//! hand out a derived result on demand, with a collector that keeps the
//! `k` greatest items of a stream.

pub mod cloning;
pub mod collector;
pub mod heap;
pub mod order;
pub mod selection;
pub mod top_k_collector;

pub use collector::{CollectWith, Collector};
pub use heap::MinHeap;
pub use top_k_collector::TopKCollector;
