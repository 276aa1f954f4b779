//! A piece-table text buffer for a terminal editor, with the state logic of
//! the editor's applications.

pub mod gui;
pub mod pieces;
pub mod piecetable;
pub mod piecetree;
