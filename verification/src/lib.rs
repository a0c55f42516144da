//! Core of a modal, terminal-based text editor: a piece-table buffer with an
//! incrementally maintained line index, a text view with a cursor and scroll
//! offset, and a modal keystroke interpreter that turns keys into commands.
//!
//! Terminal I/O, argument parsing and the driver loop live outside this
//! library; everything here is pure state manipulation with verified
//! contracts.

pub mod app;
pub mod config;
pub mod piece_table;
pub mod position;
pub mod views;
