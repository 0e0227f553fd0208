//! What the operations of the library are for, stated over their inputs and results.
pub mod decoder;
pub mod lines;
pub mod packs;
pub mod refs;
pub mod stream;
pub mod tags;
pub mod text;
pub mod views;
