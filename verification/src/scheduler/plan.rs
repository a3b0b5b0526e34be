//! The budget plan of a campaign: the rungs, their budgets and how many
//! configurations each one runs.

use vstd::prelude::*;

use crate::project::ProjectConfig;
use crate::scheduler::Scheduler;
use crate::text::{decimal, push_decimal};

verus! {

/// `a + b`, saturating at `usize::MAX`.
pub open spec fn sat_add(a: usize, b: usize) -> usize {
    if a + b > usize::MAX {
        usize::MAX
    } else {
        (a + b) as usize
    }
}

/// `a * b`, saturating at `usize::MAX`.
pub open spec fn sat_mul(a: usize, b: usize) -> usize {
    if a * b > usize::MAX {
        usize::MAX
    } else {
        (a * b) as usize
    }
}

/// `a - b`, saturating at zero.
pub open spec fn sat_sub(a: usize, b: usize) -> usize {
    if a >= b {
        (a - b) as usize
    } else {
        0
    }
}

/// `a * b`, saturating at `usize::MAX`.
pub fn saturating_mul(a: usize, b: usize) -> (r: usize)
    ensures
        r == sat_mul(a, b),
{
    match a.checked_mul(b) {
        Some(v) => v,
        None => usize::MAX,
    }
}

/// How many configurations go on after `count` of them ran with reduction
/// factor `eta`: `ceil(count / eta)`, at least one. (With `eta == 0` the
/// quotient is infinite, or undefined for no configurations, and the count
/// saturates, or is one.)
pub open spec fn next_count(count: usize, eta: usize) -> usize {
    if eta == 0 {
        if count == 0 {
            1
        } else {
            usize::MAX
        }
    } else {
        let q = count / eta + if count % eta == 0 {
            0usize
        } else {
            1usize
        };
        if q < 1 {
            1
        } else {
            q as usize
        }
    }
}

/// `next_count` computed.
pub fn shrink_count(count: usize, eta: usize) -> (r: usize)
    ensures
        r == next_count(count, eta),
{
    if eta == 0 {
        if count == 0 {
            1
        } else {
            usize::MAX
        }
    } else {
        let d = count / eta;
        let m = count % eta;
        if m != 0 {
            assert(d < usize::MAX) by (nonlinear_arith)
                requires
                    eta >= 1,
                    m == count % eta,
                    m != 0,
                    d == count / eta,
                    count <= usize::MAX,
            {
                assert(eta != 1);
                assert(d * eta <= count);
            }
        }
        let q = d + if m == 0 {
            0
        } else {
            1
        };
        if q < 1 {
            1
        } else {
            q
        }
    }
}

/// The number of configurations at rung `k`.
pub open spec fn rung_count(n: usize, eta: usize, k: nat) -> usize
    decreases k,
{
    if k == 0 {
        n
    } else {
        next_count(rung_count(n, eta, (k - 1) as nat), eta)
    }
}

/// The epochs spent on the budgets `bs` by `count` configurations that have
/// already run up to `prev`, the count shrinking after each rung.
pub open spec fn budget_total_from(count: usize, prev: usize, bs: Seq<usize>, eta: usize) -> int
    decreases bs.len(),
{
    if bs.len() == 0 {
        0
    } else {
        count * sat_sub(bs[0], prev) + budget_total_from(
            next_count(count, eta),
            bs[0],
            bs.drop_first(),
            eta,
        )
    }
}

/// The total epochs a campaign of `n` configurations spends on `budgets`.
pub open spec fn total_budget(n: usize, budgets: Seq<usize>, eta: usize) -> int {
    budget_total_from(n, 0, budgets, eta)
}

proof fn lemma_budget_total_nonneg(count: usize, prev: usize, bs: Seq<usize>, eta: usize)
    ensures
        budget_total_from(count, prev, bs, eta) >= 0,
    decreases bs.len(),
{
    if bs.len() > 0 {
        lemma_budget_total_nonneg(next_count(count, eta), bs[0], bs.drop_first(), eta);
        assert(count * sat_sub(bs[0], prev) >= 0) by (nonlinear_arith);
    }
}

/// The budgets from `value` on: `value`, then the value plus a step that
/// starts at one and grows by `eta` each rung, while below `max`.
pub open spec fn plan_budgets_from(value: usize, step: usize, max: usize, eta: usize) -> Seq<usize>
    decreases usize::MAX - value,
{
    if value < max && step >= 1 {
        proof {
            assert(sat_add(value, step) > value);
        }
        seq![value] + plan_budgets_from(sat_add(value, step), sat_mul(step, eta), max, eta)
    } else {
        Seq::empty()
    }
}

/// The budget ladder a plan shows: from `max(min_epochs, 1)` below the top,
/// ending at `max(max_epochs, min)`, with `eta` at least two.
pub open spec fn plan_budgets(min_epochs: usize, max_epochs: usize, eta: usize) -> Seq<usize> {
    let lo: usize = if min_epochs < 1 {
        1
    } else {
        min_epochs
    };
    let hi: usize = if max_epochs < lo {
        lo
    } else {
        max_epochs
    };
    let e: usize = if eta < 2 {
        2
    } else {
        eta
    };
    plan_budgets_from(lo, 1, hi, e).push(hi)
}

/// Every budget from `value` on lies in `[value, max)`, and each is
/// smaller than the next.
proof fn lemma_plan_budgets_from_increasing(value: usize, step: usize, max: usize, eta: usize)
    ensures
        forall|i: int|
            0 <= i < plan_budgets_from(value, step, max, eta).len() ==> value
                <= #[trigger] plan_budgets_from(value, step, max, eta)[i] < max,
        forall|i: int, j: int|
            0 <= i < j < plan_budgets_from(value, step, max, eta).len() ==> #[trigger] plan_budgets_from(
                value,
                step,
                max,
                eta,
            )[i] < #[trigger] plan_budgets_from(value, step, max, eta)[j],
    decreases usize::MAX - value,
{
    if value < max && step >= 1 {
        let next = sat_add(value, step);
        lemma_plan_budgets_from_increasing(next, sat_mul(step, eta), max, eta);
        let rest = plan_budgets_from(next, sat_mul(step, eta), max, eta);
        assert(plan_budgets_from(value, step, max, eta) == seq![value] + rest);
    }
}

/// The budget ladder of a plan rises strictly from `max(min_epochs, 1)` to
/// its last rung, `max(max_epochs, max(min_epochs, 1))`.
pub proof fn lemma_plan_budgets_increasing(min_epochs: usize, max_epochs: usize, eta: usize)
    ensures
        ({
            let b = plan_budgets(min_epochs, max_epochs, eta);
            let lo = if min_epochs < 1 {
                1
            } else {
                min_epochs as int
            };
            let hi = if max_epochs < lo {
                lo
            } else {
                max_epochs as int
            };
            &&& b.len() >= 1
            &&& b[0] == lo
            &&& b.last() == hi
            &&& forall|i: int, j: int| 0 <= i < j < b.len() ==> #[trigger] b[i] < #[trigger] b[j]
        }),
{
    let lo: usize = if min_epochs < 1 {
        1
    } else {
        min_epochs
    };
    let hi: usize = if max_epochs < lo {
        lo
    } else {
        max_epochs
    };
    let e: usize = if eta < 2 {
        2
    } else {
        eta
    };
    lemma_plan_budgets_from_increasing(lo, 1, hi, e);
    let f = plan_budgets_from(lo, 1, hi, e);
    let b = plan_budgets(min_epochs, max_epochs, eta);
    assert(b == f.push(hi));
    if lo < hi {
        assert(f.len() > 0);
        assert(f[0] == lo);
    }
    assert forall|i: int, j: int| 0 <= i < j < b.len() implies #[trigger] b[i] < #[trigger] b[j] by {
        if j < f.len() {
            assert(b[i] == f[i] && b[j] == f[j]);
        } else {
            assert(b[i] == f[i]);
        }
    }
}

/// The budget ladder of a plan.
pub fn build_budgets(min_epochs: usize, max_epochs: usize, eta: usize) -> (r: Vec<usize>)
    ensures
        r@ == plan_budgets(min_epochs, max_epochs, eta),
{
    let lo: usize = if min_epochs < 1 {
        1
    } else {
        min_epochs
    };
    let hi: usize = if max_epochs < lo {
        lo
    } else {
        max_epochs
    };
    let e: usize = if eta < 2 {
        2
    } else {
        eta
    };
    let mut budgets: Vec<usize> = Vec::new();
    let mut value = lo;
    let mut step: usize = 1;
    while value < hi
        invariant
            step >= 1,
            e >= 2,
            budgets@ + plan_budgets_from(value, step, hi, e) == plan_budgets_from(lo, 1, hi, e),
        decreases usize::MAX - value,
    {
        let ghost before = budgets@;
        budgets.push(value);
        proof {
            assert(before + plan_budgets_from(value, step, hi, e) =~= budgets@ + plan_budgets_from(
                sat_add(value, step),
                sat_mul(step, e),
                hi,
                e,
            ));
        }
        value = value.saturating_add(step);
        proof {
            assert(step * e >= step) by (nonlinear_arith)
                requires
                    step >= 1,
                    e >= 2,
            ;
        }
        step = saturating_mul(step, e);
    }
    proof {
        assert(budgets@ + Seq::<usize>::empty() =~= budgets@);
    }
    budgets.push(hi);
    budgets
}

/// The configuration counts of the first `rungs` rungs.
pub fn successive_halving_counts(n_trials: usize, eta: usize, rungs: usize) -> (r: Vec<usize>)
    ensures
        r@.len() == rungs,
        forall|k: int| 0 <= k < rungs ==> #[trigger] r@[k] == rung_count(n_trials, eta, k as nat),
{
    let mut counts: Vec<usize> = Vec::new();
    let mut current = n_trials;
    let mut i: usize = 0;
    while i < rungs
        invariant
            i <= rungs,
            counts@.len() == i,
            current == rung_count(n_trials, eta, i as nat),
            forall|k: int| 0 <= k < i ==> #[trigger] counts@[k] == rung_count(n_trials, eta, k as nat),
        decreases rungs - i,
    {
        counts.push(current);
        current = shrink_count(current, eta);
        i = i + 1;
    }
    counts
}

/// The total epochs a campaign spends on the budget ladder.
pub fn calculate_total_budget(n_trials: usize, budgets: &[usize], eta: usize) -> (r: usize)
    requires
        total_budget(n_trials, budgets@, eta) <= usize::MAX,
    ensures
        r == total_budget(n_trials, budgets@, eta),
{
    let mut total: usize = 0;
    let mut current_count = n_trials;
    let mut previous: usize = 0;
    let mut i: usize = 0;
    assert(budgets@.skip(0) =~= budgets@);
    while i < budgets.len()
        invariant
            i <= budgets@.len(),
            total + budget_total_from(current_count, previous, budgets@.skip(i as int), eta)
                == total_budget(n_trials, budgets@, eta),
            total_budget(n_trials, budgets@, eta) <= usize::MAX,
        decreases budgets@.len() - i,
    {
        let b = budgets[i];
        let incr = b.saturating_sub(previous);
        proof {
            let rest = budgets@.skip(i as int);
            assert(rest[0] == b);
            assert(rest.drop_first() =~= budgets@.skip(i + 1));
            lemma_budget_total_nonneg(next_count(current_count, eta), b, rest.drop_first(), eta);
            assert(current_count * incr >= 0) by (nonlinear_arith);
        }
        let term = current_count * incr;
        total = total + term;
        current_count = shrink_count(current_count, eta);
        previous = b;
        i = i + 1;
    }
    total
}

/// The total epochs a campaign spends on the budget ladder, or `None` when
/// the total does not fit in a `usize`.
pub fn checked_total_budget(n_trials: usize, budgets: &[usize], eta: usize) -> (r: Option<usize>)
    ensures
        match r {
            Some(t) => t == total_budget(n_trials, budgets@, eta),
            None => total_budget(n_trials, budgets@, eta) > usize::MAX,
        },
{
    let mut total: usize = 0;
    let mut current_count = n_trials;
    let mut previous: usize = 0;
    let mut i: usize = 0;
    assert(budgets@.skip(0) =~= budgets@);
    while i < budgets.len()
        invariant
            i <= budgets@.len(),
            total + budget_total_from(current_count, previous, budgets@.skip(i as int), eta)
                == total_budget(n_trials, budgets@, eta),
        decreases budgets@.len() - i,
    {
        let b = budgets[i];
        let incr = b.saturating_sub(previous);
        let ghost rest = budgets@.skip(i as int);
        proof {
            assert(rest[0] == b);
            assert(rest.drop_first() =~= budgets@.skip(i + 1));
            lemma_budget_total_nonneg(next_count(current_count, eta), b, rest.drop_first(), eta);
            assert(current_count * incr >= 0) by (nonlinear_arith);
        }
        let term = match current_count.checked_mul(incr) {
            Some(t) => t,
            None => {
                return None;
            },
        };
        total = match total.checked_add(term) {
            Some(t) => t,
            None => {
                return None;
            },
        };
        current_count = shrink_count(current_count, eta);
        previous = b;
        i = i + 1;
    }
    proof {
        assert(budgets@.skip(i as int).len() == 0);
    }
    Some(total)
}

/// A rung of the plan.
#[derive(Debug, Clone, PartialEq, Eq)]
pub struct PlanTier {
    pub rung: usize,
    pub budget_epochs: Option<usize>,
    pub budget_increment: Option<usize>,
    pub configs: usize,
    pub promote: Option<usize>,
}

/// A step of one configuration's path through the rungs.
#[derive(Debug, Clone, PartialEq, Eq)]
pub struct ConfigPlanStep {
    pub rung: usize,
    pub budget_epochs: Option<usize>,
    pub budget_increment: Option<usize>,
}

/// The plan of a campaign.
#[derive(Debug, Clone)]
pub struct SchedulerPlan {
    pub kind: Scheduler,
    pub n_trials: usize,
    pub eta: Option<usize>,
    pub budget_placeholder: Option<String>,
    pub total_budget: Option<usize>,
    pub tiers: Vec<PlanTier>,
    pub config_plan: Option<Vec<ConfigPlanStep>>,
}

/// The budget a rung adds over the one before; the first rung is measured
/// against itself, so it shows no increment.
pub open spec fn increment_at(budgets: Seq<usize>, idx: int) -> usize {
    let prev = if idx >= 1 {
        budgets[idx - 1]
    } else {
        budgets[0]
    };
    sat_sub(budgets[idx], prev)
}

/// The tier of rung `idx` of a successive-halving plan.
pub open spec fn sh_tier(n: usize, eta: usize, budgets: Seq<usize>, idx: int) -> PlanTier {
    PlanTier {
        rung: idx as usize,
        budget_epochs: Some(budgets[idx]),
        budget_increment: Some(increment_at(budgets, idx)),
        configs: rung_count(n, eta, idx as nat),
        promote: if idx + 1 < budgets.len() {
            Some(rung_count(n, eta, (idx + 1) as nat))
        } else {
            None
        },
    }
}

/// The path step of rung `idx` of a successive-halving plan.
pub open spec fn sh_step(budgets: Seq<usize>, idx: int) -> ConfigPlanStep {
    ConfigPlanStep {
        rung: idx as usize,
        budget_epochs: Some(budgets[idx]),
        budget_increment: Some(increment_at(budgets, idx)),
    }
}

/// The single tier of a fixed plan.
pub open spec fn fixed_tier(n: usize) -> PlanTier {
    PlanTier { rung: 0, budget_epochs: None, budget_increment: None, configs: n, promote: None }
}

/// The single path step of a fixed plan.
pub open spec fn fixed_step() -> ConfigPlanStep {
    ConfigPlanStep { rung: 0, budget_epochs: None, budget_increment: None }
}

/// A successive-halving plan can be built: its total budget fits a `usize`.
pub open spec fn plan_buildable(config: ProjectConfig) -> bool {
    let sh = config.scheduler.successive_halving;
    config.scheduler.kind == Scheduler::SuccessiveHalving ==> total_budget(
        config.scheduler.n_trials,
        plan_budgets(sh.min_epochs, sh.max_epochs, sh.eta),
        sh.eta,
    ) <= usize::MAX
}

/// Whether the plan of `config` can be built: its total budget fits in a
/// `usize`.
pub fn plan_is_buildable(config: &ProjectConfig) -> (r: bool)
    ensures
        r == plan_buildable(*config),
{
    match config.scheduler.kind {
        Scheduler::Fixed => true,
        Scheduler::SuccessiveHalving => {
            let sh = &config.scheduler.successive_halving;
            let budgets = build_budgets(sh.min_epochs, sh.max_epochs, sh.eta);
            checked_total_budget(config.scheduler.n_trials, &budgets, sh.eta).is_some()
        },
    }
}

/// The plan of a configuration; with a `config_id`, also the path one
/// configuration takes when it is promoted at every rung.
pub fn build_plan(config: &ProjectConfig, config_id: Option<usize>) -> (r: SchedulerPlan)
    requires
        plan_buildable(*config),
    ensures
        r.kind == config.scheduler.kind,
        r.n_trials == config.scheduler.n_trials,
        r.config_plan is Some <==> config_id is Some,
        config.scheduler.kind == Scheduler::Fixed ==> {
            &&& r.eta is None
            &&& r.budget_placeholder is None
            &&& r.total_budget is None
            &&& r.tiers@ == seq![fixed_tier(config.scheduler.n_trials)]
            &&& (r.config_plan matches Some(steps) ==> steps@ == seq![fixed_step()])
        },
        config.scheduler.kind == Scheduler::SuccessiveHalving ==> {
            let sh = config.scheduler.successive_halving;
            let n = config.scheduler.n_trials;
            let budgets = plan_budgets(sh.min_epochs, sh.max_epochs, sh.eta);
            &&& r.eta == Some(sh.eta)
            &&& r.budget_placeholder matches Some(p) && p@ == sh.budget_placeholder@
            &&& r.total_budget == Some(total_budget(n, budgets, sh.eta) as usize)
            &&& r.tiers@.len() == budgets.len()
            &&& forall|i: int|
                0 <= i < budgets.len() ==> #[trigger] r.tiers@[i] == sh_tier(n, sh.eta, budgets, i)
            &&& (r.config_plan matches Some(steps) ==> steps@.len() == budgets.len() && forall|
                i: int,
            |
                0 <= i < budgets.len() ==> #[trigger] steps@[i] == sh_step(budgets, i))
        },
{
    match config.scheduler.kind {
        Scheduler::Fixed => {
            let tiers = vec![
                PlanTier {
                    rung: 0,
                    budget_epochs: None,
                    budget_increment: None,
                    configs: config.scheduler.n_trials,
                    promote: None,
                },
            ];
            let config_plan = match config_id {
                Some(_) => Some(
                    vec![ConfigPlanStep { rung: 0, budget_epochs: None, budget_increment: None }],
                ),
                None => None,
            };
            SchedulerPlan {
                kind: Scheduler::Fixed,
                n_trials: config.scheduler.n_trials,
                eta: None,
                budget_placeholder: None,
                total_budget: None,
                tiers,
                config_plan,
            }
        },
        Scheduler::SuccessiveHalving => {
            let sh = &config.scheduler.successive_halving;
            let n = config.scheduler.n_trials;
            let budgets = build_budgets(sh.min_epochs, sh.max_epochs, sh.eta);
            let counts = successive_halving_counts(n, sh.eta, budgets.len());
            let total = calculate_total_budget(n, &budgets, sh.eta);
            let mut tiers: Vec<PlanTier> = Vec::new();
            let mut steps: Vec<ConfigPlanStep> = Vec::new();
            let mut idx: usize = 0;
            while idx < budgets.len()
                invariant
                    idx <= budgets@.len(),
                    budgets@.len() >= 1,
                    budgets@ == plan_budgets(sh.min_epochs, sh.max_epochs, sh.eta),
                    counts@.len() == budgets@.len(),
                    forall|k: int|
                        0 <= k < budgets@.len() ==> #[trigger] counts@[k] == rung_count(
                            n,
                            sh.eta,
                            k as nat,
                        ),
                    tiers@.len() == idx,
                    steps@.len() == idx,
                    forall|i: int| 0 <= i < idx ==> #[trigger] tiers@[i] == sh_tier(n, sh.eta, budgets@, i),
                    forall|i: int| 0 <= i < idx ==> #[trigger] steps@[i] == sh_step(budgets@, i),
                decreases budgets@.len() - idx,
            {
                let prev_idx = if idx >= 1 {
                    idx - 1
                } else {
                    0
                };
                let previous = budgets[prev_idx];
                let b = budgets[idx];
                let increment = b.saturating_sub(previous);
                let promote = if idx + 1 < counts.len() {
                    Some(counts[idx + 1])
                } else {
                    None
                };
                tiers.push(
                    PlanTier {
                        rung: idx,
                        budget_epochs: Some(b),
                        budget_increment: Some(increment),
                        configs: counts[idx],
                        promote,
                    },
                );
                steps.push(
                    ConfigPlanStep {
                        rung: idx,
                        budget_epochs: Some(b),
                        budget_increment: Some(increment),
                    },
                );
                idx = idx + 1;
            }
            let config_plan = match config_id {
                Some(_) => Some(steps),
                None => None,
            };
            SchedulerPlan {
                kind: Scheduler::SuccessiveHalving,
                n_trials: n,
                eta: Some(sh.eta),
                budget_placeholder: Some(sh.budget_placeholder.clone()),
                total_budget: Some(total),
                tiers,
                config_plan,
            }
        },
    }
}

/// The name a plan prints for a scheduler kind.
pub open spec fn scheduler_name(kind: Scheduler) -> Seq<char> {
    match kind {
        Scheduler::Fixed => "Fixed"@,
        Scheduler::SuccessiveHalving => "SuccessiveHalving"@,
    }
}

/// The name of a scheduler kind.
pub fn scheduler_label(kind: Scheduler) -> (r: &'static str)
    ensures
        r@ == scheduler_name(kind),
{
    match kind {
        Scheduler::Fixed => "Fixed",
        Scheduler::SuccessiveHalving => "SuccessiveHalving",
    }
}

/// `s` padded with spaces on the right to `width` characters (`{:<width}`).
pub open spec fn padded(s: Seq<char>, width: nat) -> Seq<char> {
    if s.len() >= width {
        s
    } else {
        s + Seq::new((width - s.len()) as nat, |i: int| ' ')
    }
}

/// A number, or `-` for none.
pub open spec fn opt_text(v: Option<usize>) -> Seq<char> {
    match v {
        Some(x) => decimal(x as nat),
        None => "-"@,
    }
}

/// The table line of a tier.
pub open spec fn tier_line(t: PlanTier) -> Seq<char> {
    padded(decimal(t.rung as nat), 6) + " "@ + padded(opt_text(t.budget_epochs), 8) + " "@
        + padded(opt_text(t.budget_increment), 9) + " "@ + padded(decimal(t.configs as nat), 8)
        + " "@ + padded(opt_text(t.promote), 8) + "\n"@
}

/// The line of a configuration path step.
pub open spec fn step_line(s: ConfigPlanStep) -> Seq<char> {
    "  rung "@ + padded(decimal(s.rung as nat), 3) + " budget "@ + padded(
        opt_text(s.budget_epochs),
        8,
    ) + " increment "@ + opt_text(s.budget_increment) + "\n"@
}

/// The tier lines of the first `n` tiers.
pub open spec fn tier_lines(ts: Seq<PlanTier>, n: int) -> Seq<char>
    decreases n,
{
    if n <= 0 {
        Seq::empty()
    } else {
        tier_lines(ts, n - 1) + tier_line(ts[n - 1])
    }
}

/// The step lines of the first `n` steps.
pub open spec fn step_lines(ss: Seq<ConfigPlanStep>, n: int) -> Seq<char>
    decreases n,
{
    if n <= 0 {
        Seq::empty()
    } else {
        step_lines(ss, n - 1) + step_line(ss[n - 1])
    }
}

/// The scheduler and trials lines.
pub open spec fn kind_lines(p: SchedulerPlan) -> Seq<char> {
    "Scheduler: "@ + scheduler_name(p.kind) + "\n"@ + "Trials: "@ + decimal(p.n_trials as nat)
        + "\n"@
}

/// The eta line, if the plan has one.
pub open spec fn eta_line(eta: Option<usize>) -> Seq<char> {
    match eta {
        Some(e) => "Eta: "@ + decimal(e as nat) + "\n"@,
        None => Seq::empty(),
    }
}

/// The budget placeholder line, if the plan has one.
pub open spec fn placeholder_line(ph: Option<String>) -> Seq<char> {
    match ph {
        Some(x) => "Budget placeholder: {"@ + x@ + "}\n"@,
        None => Seq::empty(),
    }
}

/// The total budget line, if the plan has one.
pub open spec fn total_line(t: Option<usize>) -> Seq<char> {
    match t {
        Some(x) => "Total budget: "@ + decimal(x as nat) + "\n"@,
        None => Seq::empty(),
    }
}

/// A blank line and the table's column heads.
pub open spec fn table_head() -> Seq<char> {
    "\n"@ + padded("Rung"@, 6) + " "@ + padded("Budget"@, 8) + " "@ + padded("Increment"@, 9)
        + " "@ + padded("Configs"@, 8) + " "@ + padded("Promote"@, 8) + "\n"@
}

/// The header and table head of a plan.
pub open spec fn plan_head(p: SchedulerPlan) -> Seq<char> {
    kind_lines(p) + eta_line(p.eta) + placeholder_line(p.budget_placeholder) + total_line(
        p.total_budget,
    ) + table_head()
}

/// The text of a plan.
pub open spec fn plan_text(p: SchedulerPlan, config_id: Option<usize>) -> Seq<char> {
    plan_head(p) + tier_lines(p.tiers@, p.tiers@.len() as int) + (match (p.config_plan, config_id) {
        (Some(steps), Some(id)) => "\n"@ + "Config "@ + decimal(id as nat)
            + " path (assumes promotion each rung):\n"@ + step_lines(steps@, steps@.len() as int),
        _ => Seq::empty(),
    })
}

/// Append the characters of `s`.
fn push_str(out: &mut Vec<char>, s: &str)
    ensures
        final(out)@ == old(out)@ + s@,
{
    let c = crate::text::chars_of(s);
    let ghost o = out@;
    let mut i: usize = 0;
    while i < c.len()
        invariant
            i <= c@.len(),
            out@ == o + c@.take(i as int),
        decreases c@.len() - i,
    {
        out.push(c[i]);
        proof {
            assert(c@.take(i + 1) =~= c@.take(i as int).push(c@[i as int]));
        }
        i = i + 1;
    }
    proof {
        assert(c@.take(c@.len() as int) =~= c@);
    }
}

/// Append `v` padded to `width`.
fn push_padded(out: &mut Vec<char>, v: &Vec<char>, width: usize)
    ensures
        final(out)@ == old(out)@ + padded(v@, width as nat),
{
    let ghost o = out@;
    let mut i: usize = 0;
    while i < v.len()
        invariant
            i <= v@.len(),
            out@ == o + v@.take(i as int),
        decreases v@.len() - i,
    {
        out.push(v[i]);
        proof {
            assert(v@.take(i + 1) =~= v@.take(i as int).push(v@[i as int]));
        }
        i = i + 1;
    }
    proof {
        assert(v@.take(v@.len() as int) =~= v@);
    }
    let mut k: usize = v.len();
    while k < width
        invariant
            v@.len() <= k <= width || (k == v@.len() && v@.len() >= width),
            out@ == o + v@ + Seq::new((k - v@.len()) as nat, |j: int| ' '),
        decreases width - k,
    {
        out.push(' ');
        proof {
            assert(Seq::new((k + 1 - v@.len()) as nat, |j: int| ' ') =~= Seq::new(
                (k - v@.len()) as nat,
                |j: int| ' ',
            ).push(' '));
        }
        k = k + 1;
    }
    proof {
        if v@.len() >= width {
            assert(Seq::new(0nat, |j: int| ' ') =~= Seq::<char>::empty());
            assert(o + v@ + Seq::new(0nat, |j: int| ' ') =~= o + v@);
        }
    }
}

/// The characters of a number, or `-`.
fn opt_chars(v: Option<usize>) -> (r: Vec<char>)
    ensures
        r@ == opt_text(v),
{
    let mut r: Vec<char> = Vec::new();
    match v {
        Some(x) => push_decimal(x, &mut r),
        None => push_str(&mut r, "-"),
    }
    proof {
        assert(r@ =~= opt_text(v));
    }
    r
}

/// The characters of a number.
fn num_chars(v: usize) -> (r: Vec<char>)
    ensures
        r@ == decimal(v as nat),
{
    let mut r: Vec<char> = Vec::new();
    push_decimal(v, &mut r);
    assert(r@ =~= decimal(v as nat));
    r
}

/// Append the line of a tier.
fn push_tier_line(out: &mut Vec<char>, t: &PlanTier)
    ensures
        final(out)@ == old(out)@ + tier_line(*t),
{
    let ghost before = out@;
    push_padded(out, &num_chars(t.rung), 6);
    push_str(out, " ");
    push_padded(out, &opt_chars(t.budget_epochs), 8);
    push_str(out, " ");
    push_padded(out, &opt_chars(t.budget_increment), 9);
    push_str(out, " ");
    push_padded(out, &num_chars(t.configs), 8);
    push_str(out, " ");
    push_padded(out, &opt_chars(t.promote), 8);
    push_str(out, "\n");
    assert(out@ =~= before + tier_line(*t));
}

/// Append the line of a path step.
fn push_step_line(out: &mut Vec<char>, s: &ConfigPlanStep)
    ensures
        final(out)@ == old(out)@ + step_line(*s),
{
    let ghost before = out@;
    push_str(out, "  rung ");
    push_padded(out, &num_chars(s.rung), 3);
    push_str(out, " budget ");
    push_padded(out, &opt_chars(s.budget_epochs), 8);
    push_str(out, " increment ");
    let inc = opt_chars(s.budget_increment);
    push_padded(out, &inc, 0);
    push_str(out, "\n");
    assert(padded(inc@, 0) == inc@);
    assert(out@ =~= before + step_line(*s));
}

/// Append the scheduler and trials lines.
fn push_kind_lines(out: &mut Vec<char>, p: &SchedulerPlan)
    ensures
        final(out)@ == old(out)@ + kind_lines(*p),
{
    let ghost o = out@;
    push_str(out, "Scheduler: ");
    push_str(out, scheduler_label(p.kind));
    push_str(out, "\n");
    push_str(out, "Trials: ");
    push_decimal(p.n_trials, out);
    push_str(out, "\n");
    assert(out@ =~= o + kind_lines(*p));
}

/// Append the optional lines.
fn push_optional_lines(out: &mut Vec<char>, p: &SchedulerPlan)
    ensures
        final(out)@ == old(out)@ + eta_line(p.eta) + placeholder_line(p.budget_placeholder)
            + total_line(p.total_budget),
{
    let ghost a = out@;
    match p.eta {
        Some(e) => {
            push_str(out, "Eta: ");
            push_decimal(e, out);
            push_str(out, "\n");
        },
        None => {},
    }
    let ghost b = out@;
    assert(b =~= a + eta_line(p.eta));
    match &p.budget_placeholder {
        Some(ph) => {
            push_str(out, "Budget placeholder: {");
            push_str(out, ph.as_str());
            push_str(out, "}\n");
        },
        None => {},
    }
    let ghost c = out@;
    assert(c =~= b + placeholder_line(p.budget_placeholder));
    match p.total_budget {
        Some(t) => {
            push_str(out, "Total budget: ");
            push_decimal(t, out);
            push_str(out, "\n");
        },
        None => {},
    }
    assert(out@ =~= c + total_line(p.total_budget));
}

/// Append a blank line and the column heads.
fn push_table_head(out: &mut Vec<char>)
    ensures
        final(out)@ == old(out)@ + table_head(),
{
    let ghost d = out@;
    push_str(out, "\n");
    push_padded(out, &crate::text::chars_of("Rung"), 6);
    push_str(out, " ");
    push_padded(out, &crate::text::chars_of("Budget"), 8);
    push_str(out, " ");
    push_padded(out, &crate::text::chars_of("Increment"), 9);
    push_str(out, " ");
    push_padded(out, &crate::text::chars_of("Configs"), 8);
    push_str(out, " ");
    push_padded(out, &crate::text::chars_of("Promote"), 8);
    push_str(out, "\n");
    assert(out@ =~= d + table_head());
}

/// Append the header and table head of a plan.
fn push_plan_head(out: &mut Vec<char>, p: &SchedulerPlan)
    ensures
        final(out)@ == old(out)@ + plan_head(*p),
{
    let ghost o = out@;
    push_kind_lines(out, p);
    push_optional_lines(out, p);
    push_table_head(out);
    assert(out@ =~= o + plan_head(*p));
}

impl SchedulerPlan {
    /// The plan as a text table; with a `config_id`, also the path of that
    /// configuration.
    pub fn render(&self, config_id: Option<usize>) -> (r: String)
        ensures
            r@ == plan_text(*self, config_id),
    {
        let mut out: Vec<char> = Vec::new();
        push_plan_head(&mut out, self);
        let ghost head = out@;
        assert(head =~= plan_head(*self));
        let mut i: usize = 0;
        while i < self.tiers.len()
            invariant
                i <= self.tiers@.len(),
                out@ == head + tier_lines(self.tiers@, i as int),
            decreases self.tiers@.len() - i,
        {
            push_tier_line(&mut out, &self.tiers[i]);
            proof {
                assert(head + tier_lines(self.tiers@, i + 1) =~= head + tier_lines(self.tiers@, i as int)
                    + tier_line(self.tiers@[i as int]));
            }
            i = i + 1;
        }
        match (&self.config_plan, config_id) {
            (Some(steps), Some(id)) => {
                let ghost table = out@;
                push_str(&mut out, "\n");
                push_str(&mut out, "Config ");
                push_decimal(id, &mut out);
                push_str(&mut out, " path (assumes promotion each rung):\n");
                let ghost intro = out@;
                let mut j: usize = 0;
                while j < steps.len()
                    invariant
                        j <= steps@.len(),
                        out@ == intro + step_lines(steps@, j as int),
                    decreases steps@.len() - j,
                {
                    push_step_line(&mut out, &steps[j]);
                    proof {
                        assert(intro + step_lines(steps@, j + 1) =~= intro + step_lines(steps@, j as int)
                            + step_line(steps@[j as int]));
                    }
                    j = j + 1;
                }
                proof {
                    assert(out@ =~= plan_text(*self, config_id));
                }
            },
            _ => {
                proof {
                    assert(out@ =~= plan_text(*self, config_id));
                }
            },
        }
        crate::text::string_of(&out)
    }
}

} // verus!
