//! padloper records shell history and searches it.
//!
//! This library is the part of the program that decides: what a recorded command does to the
//! history table, what an import reads out of another shell's file, which commands match a query
//! and in what order, what a key does, and what a frame of the picker shows. Reading files, the
//! database and the terminal, and writing to them, is left to the program around it.
//!
//! [`table`] says what the history table means and what holds of it, and [`db`] keeps one.
//! [`import`] reads Atuin, Bash, Zsh, and Fish history. [`search`] is the picker's state and
//! [`tui`] its key map and its drawing. [`app`] is what each subcommand does between its inputs and
//! its outputs, [`cli`] what a command line asks for, [`shell`] the snippets that hook padloper
//! into a shell, and [`timefmt`] the ages shown next to commands. [`text`], [`paths`], and
//! [`order`] are what the others share.
//!
//! Few things are believed without proof: that the fuzzy matcher scores, the two Unicode crates
//! split and measure, and the standard library decodes the same text the same way each time, along
//! with the short facts stated next to each such call in [`search`], [`unicode`], [`import`], and
//! [`text`]. Of what the clock says nothing is believed.

pub mod app;
pub mod cli;
pub mod db;
pub mod import;
pub mod order;
pub mod paths;
pub mod search;
pub mod shell;
pub mod table;
pub mod text;
pub mod timefmt;
pub mod tui;
pub mod unicode;
