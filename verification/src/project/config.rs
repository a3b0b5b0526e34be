//! The sections of a project's configuration and their defaults.

use vstd::prelude::*;

use crate::scheduler::Scheduler;
use crate::text::str_eq;

verus! {

/// The `[project]` section.
#[derive(Debug, Clone)]
pub struct ProjectSettings {
    pub metric_key: String,
    pub goal: Goal,
    pub pruner: Pruner,
    pub inject_trial_placeholders: bool,
    pub checkpoint_arg: Option<String>,
}

/// The configuration a campaign runs with.
#[derive(Debug, Clone)]
pub struct ProjectConfig {
    pub metric_key: String,
    pub goal: Goal,
    pub sampler: SamplerConfig,
    pub scheduler: SchedulerConfig,
    pub pruner: Pruner,
    pub inject_trial_placeholders: bool,
    pub checkpoint_arg: Option<String>,
}

impl ProjectConfig {
    /// The configuration assembled from its sections.
    pub fn from_sections(
        project: ProjectSettings,
        sampler: SamplerConfig,
        scheduler: SchedulerConfig,
    ) -> (r: Self)
        ensures
            r.metric_key == project.metric_key,
            r.goal == project.goal,
            r.sampler == sampler,
            r.scheduler == scheduler,
            r.pruner == project.pruner,
            r.inject_trial_placeholders == project.inject_trial_placeholders,
            r.checkpoint_arg == project.checkpoint_arg,
    {
        ProjectConfig {
            metric_key: project.metric_key,
            goal: project.goal,
            sampler,
            scheduler,
            pruner: project.pruner,
            inject_trial_placeholders: project.inject_trial_placeholders,
            checkpoint_arg: project.checkpoint_arg,
        }
    }
}

/// Whether the metric is minimised or maximised.
#[derive(Debug, Clone, Copy, PartialEq, Eq, Structural)]
pub enum Goal {
    Min,
    Max,
}

impl Goal {
    /// `"min"` or `"max"`.
    pub fn as_str(&self) -> (r: &'static str)
        ensures
            r@ == (match *self {
                Goal::Min => "min"@,
                Goal::Max => "max"@,
            }),
    {
        match self {
            Goal::Min => "min",
            Goal::Max => "max",
        }
    }
}

/// The sampler that proposes configurations.
#[derive(Debug, Clone, Copy, PartialEq, Eq, Structural)]
pub enum Sampler {
    Pso,
    Random,
}

/// The pruner; only one kind exists, which prunes nothing.
#[derive(Debug, Clone, Copy, PartialEq, Eq, Structural)]
pub enum Pruner {
    Disabled,
}

impl Default for Pruner {
    fn default() -> (r: Self)
        ensures
            r == Pruner::Disabled,
    {
        Pruner::Disabled
    }
}

/// The default `[project] metric_key`.
pub fn default_metric_key() -> (r: String)
    ensures
        r@ == "metric"@,
{
    crate::text::owned(crate::constants::FIELD_METRIC)
}

/// The default `[project] goal`: minimise.
pub fn default_goal() -> (r: Goal)
    ensures
        r == Goal::Min,
{
    Goal::Min
}

/// The default `[sampler] kind`: particle swarm.
pub fn default_sampler() -> (r: Sampler)
    ensures
        r == Sampler::Pso,
{
    Sampler::Pso
}

/// The default `[scheduler] kind`: a fixed number of trials.
pub fn default_scheduler() -> (r: Scheduler)
    ensures
        r == Scheduler::Fixed,
{
    Scheduler::Fixed
}

/// The default `[scheduler] n_trials`: none beyond what the sampler plans.
pub fn default_n_trials() -> (r: usize)
    ensures
        r == 0,
{
    0
}

/// The default `[scheduler] seed`.
pub fn default_seed() -> (r: u64)
    ensures
        r == 42,
{
    42
}

/// The default `[sampler.pso] iters`.
pub fn default_pso_iters() -> (r: usize)
    ensures
        r == 10,
{
    10
}

/// The default `[sampler.pso] particles`.
pub fn default_pso_particles() -> (r: usize)
    ensures
        r == 5,
{
    5
}

/// The default `[scheduler.successive_halving] budget_placeholder`.
pub fn default_budget_placeholder() -> (r: String)
    ensures
        r@ == "epochs"@,
{
    crate::text::owned("epochs")
}

/// The default `[scheduler.successive_halving] min_epochs`.
pub fn default_halving_min_epochs() -> (r: usize)
    ensures
        r == 1,
{
    1
}

/// The default `[scheduler.successive_halving] max_epochs`.
pub fn default_halving_max_epochs() -> (r: usize)
    ensures
        r == 10,
{
    10
}

/// The default `[scheduler.successive_halving] eta`.
pub fn default_halving_eta() -> (r: usize)
    ensures
        r == 3,
{
    3
}

/// The default `[project] inject_trial_placeholders`: on.
pub fn default_inject_trial_placeholders() -> (r: bool)
    ensures
        r,
{
    true
}

/// The `[scheduler.fixed]` section, which has no settings.
#[derive(Debug, Clone)]
pub struct FixedSchedulerConfig {}

impl Default for FixedSchedulerConfig {
    fn default() -> (r: Self) {
        FixedSchedulerConfig {  }
    }
}

impl FixedSchedulerConfig {
    /// Always true: the section has no settings.
    pub fn is_empty(&self) -> (r: bool)
        ensures
            r,
    {
        true
    }
}

/// The `[scheduler.successive_halving]` section.
#[derive(Debug, Clone)]
pub struct SuccessiveHalvingSchedulerConfig {
    pub budget_placeholder: String,
    pub min_epochs: usize,
    pub max_epochs: usize,
    pub eta: usize,
}

impl Default for SuccessiveHalvingSchedulerConfig {
    fn default() -> (r: Self)
        ensures
            r.budget_placeholder@ == "epochs"@,
            r.min_epochs == 1,
            r.max_epochs == 10,
            r.eta == 3,
    {
        SuccessiveHalvingSchedulerConfig {
            budget_placeholder: default_budget_placeholder(),
            min_epochs: default_halving_min_epochs(),
            max_epochs: default_halving_max_epochs(),
            eta: default_halving_eta(),
        }
    }
}

impl SuccessiveHalvingSchedulerConfig {
    /// Whether every setting has its default value.
    pub fn is_default(&self) -> (r: bool)
        ensures
            r == (self.budget_placeholder@ == "epochs"@ && self.min_epochs == 1 && self.max_epochs
                == 10 && self.eta == 3),
    {
        str_eq(self.budget_placeholder.as_str(), "epochs") && self.min_epochs == 1
            && self.max_epochs == 10 && self.eta == 3
    }
}

/// The `[sampler]` section.
#[derive(Debug, Clone)]
pub struct SamplerConfig {
    pub kind: Sampler,
    pub random: RandomSamplerConfig,
    pub pso: PsoSamplerConfig,
}

impl Default for SamplerConfig {
    fn default() -> (r: Self)
        ensures
            r.kind == Sampler::Pso,
            r.pso.iters == 10,
            r.pso.particles == 5,
    {
        SamplerConfig {
            kind: default_sampler(),
            random: RandomSamplerConfig::default(),
            pso: PsoSamplerConfig::default(),
        }
    }
}

/// The `[sampler.random]` section, which has no settings.
#[derive(Debug, Clone)]
pub struct RandomSamplerConfig {}

impl Default for RandomSamplerConfig {
    fn default() -> (r: Self) {
        RandomSamplerConfig {  }
    }
}

impl RandomSamplerConfig {
    /// Always true: the section has no settings.
    pub fn is_empty(&self) -> (r: bool)
        ensures
            r,
    {
        true
    }
}

/// The `[sampler.pso]` section.
#[derive(Debug, Clone)]
pub struct PsoSamplerConfig {
    pub iters: usize,
    pub particles: usize,
}

impl Default for PsoSamplerConfig {
    fn default() -> (r: Self)
        ensures
            r.iters == 10,
            r.particles == 5,
    {
        PsoSamplerConfig { iters: default_pso_iters(), particles: default_pso_particles() }
    }
}

impl PsoSamplerConfig {
    /// Whether both settings have their default values.
    pub fn is_default(&self) -> (r: bool)
        ensures
            r == (self.iters == 10 && self.particles == 5),
    {
        self.iters == 10 && self.particles == 5
    }
}

/// The `[scheduler]` section.
#[derive(Debug, Clone)]
pub struct SchedulerConfig {
    pub kind: Scheduler,
    pub n_trials: usize,
    pub seed: u64,
    pub fixed: FixedSchedulerConfig,
    pub successive_halving: SuccessiveHalvingSchedulerConfig,
}

impl Default for SchedulerConfig {
    fn default() -> (r: Self)
        ensures
            r.kind == Scheduler::Fixed,
            r.n_trials == 0,
            r.seed == 42,
            r.successive_halving.budget_placeholder@ == "epochs"@,
            r.successive_halving.min_epochs == 1,
            r.successive_halving.max_epochs == 10,
            r.successive_halving.eta == 3,
    {
        SchedulerConfig {
            kind: default_scheduler(),
            n_trials: default_n_trials(),
            seed: default_seed(),
            fixed: FixedSchedulerConfig::default(),
            successive_halving: SuccessiveHalvingSchedulerConfig::default(),
        }
    }
}

} // verus!
