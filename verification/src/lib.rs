//! A small sorting engine: comparison sorts over any totally ordered element
//! type, chosen at run time by an algorithm selector, with a pass that
//! collapses runs of equal elements.

pub mod order;
pub mod stack;
pub mod merge;
pub mod quick;
pub mod shuffle;
pub mod dedup;
pub mod engine;
pub mod text;
