//! A terminal stopwatch library: a verified centering layout engine for
//! multi-line text blocks, a verified decimal formatter for elapsed seconds,
//! and the per-frame computation that stylizes the seconds through a FIGlet
//! font and centers the result in a viewport.

pub mod layout;
pub mod render;
