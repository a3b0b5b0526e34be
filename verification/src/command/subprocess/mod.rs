//! The trial subprocess: the line protocol it speaks and the payload that
//! results from it.

pub mod ipc;
pub mod runner;
pub mod talkback;

pub use ipc::{parse_output, parse_prefix_lines, ParsedItem};
pub use runner::{CommandOutput, CommandResultPayload};
