//! Synchronisation of `NAME=VALUE` lines with a master table.
//!
//! A master file gives the canonical value of each variable. Every selected
//! file of a project tree is brought in line with it: a line that assigns a
//! variable of the master table is rewritten as `NAME=VALUE` with the master's
//! value, and every other line is kept as it is.
//!
//! The library works on text and on plain values; reading and writing files
//! and listing directories is left to its caller:
//!
//! - [`parser`]: one line as an assignment, or as nothing of the kind;
//! - [`master`]: the master table and how a master file gives it;
//! - [`sync`]: the lines of a file brought in line with the master table;
//! - [`config`] and [`walk`]: which entries of a directory the walk enters,
//!   synchronises or leaves out;
//! - [`lines`] and [`text`]: lines and characters underneath.
pub mod config;
pub mod lines;
pub mod master;
pub mod parser;
pub mod sync;
pub mod text;
pub mod walk;

pub use config::Configuration;
pub use lines::{join_lines, split_lines};
pub use master::MasterTable;
pub use parser::split_var_name_value;
pub use sync::{get_line_expected, synchronize, FileRewrite};
pub use walk::{entry_action, get_file_name, EntryAction, TraversalNode};
