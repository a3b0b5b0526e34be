//! Argument tuning engine: command templates, the talkback line protocol,
//! trial bookkeeping and the budget schedulers that drive a campaign.

pub mod checkpoint;
pub mod command;
pub mod constants;
pub mod discover;
pub mod display;
pub mod fields;
pub mod inspect;
pub mod json;
pub mod pareto;
pub mod project;
pub mod sampler;
pub mod scheduler;
pub mod space;
pub mod store;
pub mod text;
pub mod trial;
pub mod tuner;
pub mod validate;
