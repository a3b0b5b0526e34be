//! The trial record types, under their historical module path.

pub use crate::trial::store::{PlaceholderValue, TrialRecord, TrialStatus};
