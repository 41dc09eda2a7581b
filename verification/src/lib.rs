//! Finding duplicate files and removing them safely.
//!
//! The library decides; it reads and writes nothing. What stands on disk,
//! what a file hashes to and what time it is come in as plain values, and
//! what is to be read, moved or deleted goes out as plain values.
//!
//! - `scanner`, `finder`, `duplicates`, `engine`: which files a scan looks
//!   at, when they are hashed, and which groups of duplicates they form;
//!   `runs` says what holds of the groups over a whole scan.
//! - `suggestions`, `naming`, `selection`, `filters`: which copy to keep, what
//!   it was called, what to mark and what to show.
//! - `deletion`, `backup`, `edits`: what may be deleted, restored or renamed.
//! - `app`, `tui`, `panels`, `preview`: the state of a review, its keys and
//!   what stands on the screen.
//! - `yolo`, `stream`, `cli`, `sizes`, `report`, `database`, `state`, `demo`,
//!   `web`: the other ways to run.
//! - `text`, `text_set`, `paths`, `path_set`, `order`: what they are all made of.
//! - `outside`: what is called from other crates, and believed of it.

pub mod app;
pub mod backup;
pub mod cli;
pub mod database;
pub mod deletion;
pub mod demo;
pub mod duplicates;
pub mod edits;
pub mod engine;
pub mod filters;
pub mod finder;
pub mod naming;
pub mod order;
pub mod outside;
pub mod panels;
pub mod path_set;
pub mod paths;
pub mod preview;
pub mod report;
pub mod runs;
pub mod scanner;
pub mod selection;
pub mod sizes;
pub mod state;
pub mod stream;
pub mod suggestions;
pub mod text;
pub mod text_set;
pub mod tui;
pub mod web;
pub mod yolo;
