//! Run a command, let small output through byte for byte, and fold large output
//! into a short summary while every byte is kept on disk.
//!
//! [`runner`] holds the decisions of a run, [`fold`] the summaries, and [`init`] the
//! scripts that commands are started through. [`bytes`], [`split`] and [`text`] are
//! what these share. Nothing here opens a file or starts a process.

pub mod bytes;
pub mod fold;
pub mod init;
pub mod runner;
pub mod split;
pub mod text;
