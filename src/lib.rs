//! Finds files with identical content in one directory, gathers each set of
//! duplicates into a folder of its own for inspection, and drives the review
//! that dissolves those folders again.
//!
//! The library holds the decisions; moving files, listing directories and
//! reading the operator's input are left to the caller.
pub mod command;
pub mod digest;
pub mod folder_name;
pub mod grouping;
pub mod paths;
pub mod resolver;
