//! Trial schedulers: which configuration runs next, with which budget.

pub mod fixed;
pub mod plan;
pub mod successive_halving;

use vstd::prelude::*;

use crate::project::ProjectConfig;
use crate::text::{concat_str, str_eq, views};

pub use fixed::{FixedScheduler, ScheduledTrial};
pub use plan::{build_plan, ConfigPlanStep, PlanTier, SchedulerPlan};
pub use successive_halving::SuccessiveHalvingScheduler;

verus! {

/// The kind of scheduler.
#[derive(Debug, Clone, Copy, PartialEq, Eq, Structural)]
pub enum Scheduler {
    Fixed,
    SuccessiveHalving,
}

/// What identifies a scheduled trial: its configuration, rung, bracket and
/// epoch budget.
#[derive(Debug, Clone, Copy, PartialEq, Eq, Structural)]
pub struct TrialToken {
    pub config_id: usize,
    pub rung: usize,
    pub bracket: usize,
    pub budget_epochs: usize,
}

/// The scheduler settings of a project, read for template checks.
#[derive(Debug, Clone, Copy)]
pub struct SchedulerBinding<'a> {
    config: &'a ProjectConfig,
}

/// The placeholder is the budget placeholder of a successive-halving
/// configuration.
pub open spec fn budget_placeholder_allowed(config: ProjectConfig, placeholder: Seq<char>) -> bool {
    config.scheduler.kind == Scheduler::SuccessiveHalving
        && placeholder == config.scheduler.successive_halving.budget_placeholder@
}

impl<'a> SchedulerBinding<'a> {
    /// The binding of a project configuration.
    pub fn new(config: &'a ProjectConfig) -> (r: Self)
        ensures
            *r.config() == *config,
    {
        SchedulerBinding { config }
    }

    /// The configuration it reads.
    pub closed spec fn config(&self) -> &'a ProjectConfig {
        self.config
    }

    /// Whether a template may use `placeholder` beyond the search space: the
    /// budget placeholder under successive halving.
    pub fn allows_placeholder(&self, placeholder: &str) -> (r: bool)
        ensures
            r == budget_placeholder_allowed(*self.config(), placeholder@),
    {
        match self.config.scheduler.kind {
            Scheduler::SuccessiveHalving => str_eq(
                placeholder,
                self.config.scheduler.successive_halving.budget_placeholder.as_str(),
            ),
            Scheduler::Fixed => false,
        }
    }

    /// Under successive halving the template must use the budget placeholder.
    pub fn validate_template(&self, template_placeholders: &[String]) -> (r: Result<(), String>)
        ensures
            r is Ok <==> !(self.config().scheduler.kind == Scheduler::SuccessiveHalving
                && !views(template_placeholders@).contains(
                self.config().scheduler.successive_halving.budget_placeholder@,
            )),
            r matches Err(e) ==> e@ == "template missing budget placeholder {"@
                + self.config().scheduler.successive_halving.budget_placeholder@ + "}"@,
    {
        match self.config.scheduler.kind {
            Scheduler::Fixed => Ok(()),
            Scheduler::SuccessiveHalving => {
                let key = self.config.scheduler.successive_halving.budget_placeholder.as_str();
                let mut i: usize = 0;
                while i < template_placeholders.len()
                    invariant
                        i <= template_placeholders@.len(),
                        key@ == self.config().scheduler.successive_halving.budget_placeholder@,
                        forall|j: int|
                            0 <= j < i ==> #[trigger] views(template_placeholders@)[j] != key@,
                    decreases template_placeholders@.len() - i,
                {
                    if str_eq(template_placeholders[i].as_str(), key) {
                        assert(views(template_placeholders@)[i as int] == key@);
                        return Ok(());
                    }
                    i = i + 1;
                }
                let a = concat_str("template missing budget placeholder {", key);
                Err(concat_str(a.as_str(), "}"))
            },
        }
    }
}

} // verus!
