//! Running the objective command: its template, the subprocess protocol and
//! what a finished trial's output means.

pub mod objective;
pub mod subprocess;
pub mod template;

pub use template::{CommandTemplate, TemplateError};
