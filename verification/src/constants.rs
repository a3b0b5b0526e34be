//! Names shared by the tuner and the trials it runs: file names, field keys,
//! placeholders, and the protocol's prefix, namespaces and event names.

use vstd::prelude::*;

use crate::text::str_eq;

verus! {

pub const CONFIG_FILENAME: &'static str = "argtuner.toml";
pub const MAX_DUPLICATE_RETRIES: usize = 50;
pub const INVALID_CONFIG_PREFIX: &'static str = "invalid_config:";
pub const DUPLICATE_CONFIG_REASON: &'static str = "duplicate_config";
pub const DUPLICATE_CONFIG_PREFIX: &'static str = "invalid_config: duplicate_config";

/// The marker that starts a protocol message on a line of stdout.
pub const RESULT_PREFIX: &'static str = "::ARGTUNER::";
pub const METRIC_NAMESPACE: &'static str = "metric";
pub const MODEL_NAMESPACE: &'static str = "model";
pub const TUNER_NAMESPACE: &'static str = "tuner";

/// The field of a binding-version event that carries the version.
pub const BINDING_VERSION_FIELD: &'static str = "version";

pub const FIELD_METRIC: &'static str = "metric";
pub const FIELD_SCORE: &'static str = "score";
pub const FIELD_INVALID_CONFIG: &'static str = "invalid_config";
pub const HP_PREFIX: &'static str = "hp.";
pub const TRIAL_PREFIX: &'static str = "trial.";
pub const TRIALS_CSV_FILENAME: &'static str = "trials.csv";
pub const FIELD_TRIAL_ID: &'static str = "trial_id";
pub const FIELD_TRIAL_STATUS: &'static str = "status";
pub const FIELD_TRIAL_ELAPSED_MS: &'static str = "elapsed_ms";
pub const FIELD_TRIAL_ERROR: &'static str = "error";
pub const FIELD_TRIAL_CONFIG_ID: &'static str = "trial.config_id";
pub const FIELD_TRIAL_RUNG: &'static str = "trial.rung";
pub const FIELD_TRIAL_BRACKET: &'static str = "trial.bracket";
pub const FIELD_TRIAL_BUDGET_EPOCHS: &'static str = "trial.budget_epochs";
pub const FIELD_TRIAL_PARENT_ID: &'static str = "trial.parent_trial_id";
pub const FIELD_TRIAL_TIME: &'static str = "trial.time";
pub const FIELD_TRIAL_BUDGET_TOTAL: &'static str = "trial.budget_total";
pub const FIELD_TRIAL_BUDGET_STEP: &'static str = "trial.budget_step";
pub const FIELD_TUNING_BUDGET_TOTAL: &'static str = "tuning.budget_total";
pub const FIELD_TUNING_BUDGET_REMAINING: &'static str = "tuning.budget_remaining";

pub const PLACEHOLDER_TRIAL_ID: &'static str = "trial_id";
pub const PLACEHOLDER_TRIAL_DIR: &'static str = "trial_dir";
pub const ENV_TRIAL_ID: &'static str = "ARGTUNER_TRIAL_ID";
pub const ENV_TRIAL_DIR: &'static str = "ARGTUNER_TRIAL_DIR";

/// The protocol's event kinds.
#[derive(Debug, Clone, Copy, PartialEq, Eq, Structural)]
pub enum EventKind {
    EpochEnd,
    StepEnd,
    EarlyStopped,
    InvalidConfig,
    TunerApiVersion,
}

/// The event kind an event name denotes: its canonical namespaced name, or
/// the legacy un-namespaced alias.
pub open spec fn event_kind_of(name: Seq<char>) -> Option<EventKind> {
    if name == "model.epoch_end"@ || name == "epoch_end"@ {
        Some(EventKind::EpochEnd)
    } else if name == "model.step_end"@ || name == "step_end"@ {
        Some(EventKind::StepEnd)
    } else if name == "model.early_stopped"@ || name == "early_stopped"@ {
        Some(EventKind::EarlyStopped)
    } else if name == "model.invalid_config"@ || name == "invalid_config"@ {
        Some(EventKind::InvalidConfig)
    } else if name == "tuner.binding_version"@ || name == "binding_version"@ {
        Some(EventKind::TunerApiVersion)
    } else {
        None
    }
}

/// The canonical name of an event kind.
pub open spec fn event_name(kind: EventKind) -> Seq<char> {
    match kind {
        EventKind::EpochEnd => "model.epoch_end"@,
        EventKind::StepEnd => "model.step_end"@,
        EventKind::EarlyStopped => "model.early_stopped"@,
        EventKind::InvalidConfig => "model.invalid_config"@,
        EventKind::TunerApiVersion => "tuner.binding_version"@,
    }
}

impl EventKind {
    /// The canonical (namespaced) event name.
    pub fn as_str(&self) -> (r: &'static str)
        ensures
            r@ == event_name(*self),
    {
        match self {
            EventKind::EpochEnd => "model.epoch_end",
            EventKind::StepEnd => "model.step_end",
            EventKind::EarlyStopped => "model.early_stopped",
            EventKind::InvalidConfig => "model.invalid_config",
            EventKind::TunerApiVersion => "tuner.binding_version",
        }
    }

    /// The kind an event name denotes, accepting legacy aliases.
    pub fn from_name(name: &str) -> (r: Option<EventKind>)
        ensures
            r == event_kind_of(name@),
    {
        if str_eq(name, "model.epoch_end") || str_eq(name, "epoch_end") {
            Some(EventKind::EpochEnd)
        } else if str_eq(name, "model.step_end") || str_eq(name, "step_end") {
            Some(EventKind::StepEnd)
        } else if str_eq(name, "model.early_stopped") || str_eq(name, "early_stopped") {
            Some(EventKind::EarlyStopped)
        } else if str_eq(name, "model.invalid_config") || str_eq(name, "invalid_config") {
            Some(EventKind::InvalidConfig)
        } else if str_eq(name, "tuner.binding_version") || str_eq(name, "binding_version") {
            Some(EventKind::TunerApiVersion)
        } else {
            None
        }
    }
}

} // verus!
