//! A verified todo-list library: a line-oriented command parser, an
//! insertion-ordered task store, and a JSON persistence codec whose
//! encoder and decoder are proved to round-trip.

pub mod codec;
pub mod parse;
pub mod store;
pub mod task;
pub mod text;
