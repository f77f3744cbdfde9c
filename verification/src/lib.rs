//! Browsing a filtered directory tree, picking a set of source files from
//! it, and writing a report on the files picked.
//!
//! The tree is built once from a directory listing ([`listing`], [`tree`],
//! [`filter`]). A session ([`navigator`]) walks it: each menu ([`menu`]) is
//! derived from the current directory and the selection ([`selection`]),
//! and each choice leads to the next state. The report ([`output_formatter`])
//! is made from the selected files, their signatures ([`code_analyzer`]) and
//! their contents.

pub mod cli;
pub mod code_analyzer;
pub mod config;
pub mod file_system;
pub mod filter;
pub mod listing;
pub mod menu;
pub mod names;
pub mod navigator;
pub mod output_formatter;
pub mod paths;
pub mod selection;
pub mod text;
pub mod tree;
