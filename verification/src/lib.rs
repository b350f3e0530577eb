//! Timed-state animation combinators and draw-call batching for a small
//! 2D engine: a recursive animation tree advanced by time deltas, the
//! leaf interpolators that drive it, and a batcher that merges runs of
//! drawables sharing a draw key while preserving paint order.

pub mod animate;
pub mod animation;
pub mod batch;
pub mod interp;
pub mod laws;
pub mod target;
pub mod timer;
