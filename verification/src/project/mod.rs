//! A tuning project: a directory with its configuration, trial records and
//! artifacts.

pub mod config;

use vstd::prelude::*;

use crate::text::{chars_of, concat_str, decimal, has_infix, owned, str_contains, usize_text};

pub use config::{
    FixedSchedulerConfig, Goal, ProjectConfig, ProjectSettings, Pruner, PsoSamplerConfig,
    RandomSamplerConfig, Sampler, SamplerConfig, SchedulerConfig, SuccessiveHalvingSchedulerConfig,
};

verus! {

/// The message for a configuration file that failed to parse: a misplaced
/// `budget_placeholder` gets a note on where it belongs.
pub open spec fn config_error_text(message: Seq<char>) -> Seq<char> {
    if has_infix(message, "unknown field `budget_placeholder`"@) {
        message + "; note: budget_placeholder belongs under [scheduler.successive_halving]"@
    } else {
        message
    }
}

/// The message for a configuration file that failed to parse.
pub fn config_error_message(message: &str) -> (r: String)
    ensures
        r@ == config_error_text(message@),
{
    if str_contains(message, "unknown field `budget_placeholder`") {
        concat_str(message, "; note: budget_placeholder belongs under [scheduler.successive_halving]")
    } else {
        owned(message)
    }
}

/// `base` with the path `name` appended: `name` itself when it is absolute
/// (starts with `/`) or `base` is empty, else the two joined by one `/`.
pub open spec fn path_joined(base: Seq<char>, name: Seq<char>) -> Seq<char> {
    if name.len() > 0 && name[0] == '/' {
        name
    } else if base.len() == 0 {
        name
    } else if base.last() == '/' {
        base + name
    } else {
        base + "/"@ + name
    }
}

/// Append the path `name` to `base` (see `path_joined`).
pub(crate) fn path_join(base: &str, name: &str) -> (r: String)
    ensures
        r@ == path_joined(base@, name@),
{
    let b = chars_of(base);
    let n = chars_of(name);
    if n.len() > 0 && n[0] == '/' {
        return owned(name);
    }
    if b.len() == 0 {
        return owned(name);
    }
    if b[b.len() - 1] == '/' {
        return concat_str(base, name);
    }
    proof {
        reveal_strlit("/");
    }
    let with_sep = concat_str(base, "/");
    concat_str(with_sep.as_str(), name)
}

/// The environment line handed to a trial:
/// `ARGTUNER_TRIAL_ID=<id> ARGTUNER_TRIAL_DIR=<dir>`.
pub fn format_injected_env(trial_id: usize, trial_dir: &str) -> (r: String)
    ensures
        r@ == "ARGTUNER_TRIAL_ID="@ + decimal(trial_id as nat) + " ARGTUNER_TRIAL_DIR="@
            + trial_dir@,
{
    let id = usize_text(trial_id);
    let a = concat_str("ARGTUNER_TRIAL_ID=", id.as_str());
    let b = concat_str(a.as_str(), " ARGTUNER_TRIAL_DIR=");
    concat_str(b.as_str(), trial_dir)
}

/// A project rooted at a directory.
#[derive(Debug, Clone)]
pub struct Project {
    root: String,
}

impl View for Project {
    type V = Seq<char>;

    closed spec fn view(&self) -> Seq<char> {
        self.root@
    }
}

impl Project {
    /// The project rooted at `root`.
    pub fn new(root: &str) -> (r: Self)
        ensures
            r@ == root@,
    {
        Project { root: root.to_owned() }
    }

    /// The root directory.
    pub fn root(&self) -> (r: &str)
        ensures
            r@ == self@,
    {
        self.root.as_str()
    }

    /// `<root>/argtuner.toml`.
    pub fn unified_config_path(&self) -> (r: String)
        ensures
            r@ == path_joined(self@, "argtuner.toml"@),
    {
        path_join(self.root.as_str(), crate::constants::CONFIG_FILENAME)
    }

    /// `<root>/trials.csv`.
    pub fn trials_path(&self) -> (r: String)
        ensures
            r@ == path_joined(self@, "trials.csv"@),
    {
        path_join(self.root.as_str(), crate::constants::TRIALS_CSV_FILENAME)
    }

    /// `<root>/trials.sqlite`: the trial table beside `trials.csv`.
    pub fn trials_db_path(&self) -> (r: String)
        ensures
            r@ == path_joined(self@, "trials.sqlite"@),
    {
        path_join(self.root.as_str(), "trials.sqlite")
    }

    /// `<root>/artifacts`.
    pub fn artifacts_dir(&self) -> (r: String)
        ensures
            r@ == path_joined(self@, "artifacts"@),
    {
        path_join(self.root.as_str(), "artifacts")
    }
}

} // verus!
