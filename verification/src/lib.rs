//! The editing core of a modal text editor.

pub mod ansi;
pub mod breeze;
pub mod buffer;
pub mod compose;
pub mod coord;
pub mod cursors;
pub mod drawing;
pub mod edits;
pub mod geometry;
pub mod idx;
pub mod keys;
pub mod laws;
pub mod lines;
pub mod mode;
pub mod order;
pub mod places;
pub mod rope;
pub mod selection;
pub mod session;
