//! The fixed scheduler: a set number of trials, each with the same budget.
//!
//! The scheduler decides ids, budgets and the budget accounting; the point
//! in the search space that each trial samples is drawn by the caller.

use vstd::prelude::*;

use super::plan::sat_sub;
use super::TrialToken;
use crate::fields::FieldMap;
use crate::text::{concat_str, decimal, usize_text};
use crate::trial::TrialOverrides;

verus! {

/// A trial handed out by a scheduler: what identifies it and the values it
/// adds to the trial.
#[derive(Debug)]
pub struct ScheduledTrial {
    pub token: TrialToken,
    pub overrides: TrialOverrides,
}

/// The state of a fixed scheduler.
pub struct FixedView {
    pub remaining: usize,
    pub next_config_id: usize,
    pub budget_epochs: Option<usize>,
    pub budget_key: Option<Seq<char>>,
    pub total_budget: usize,
    pub issued_budget: usize,
}

/// A scheduler that runs `n_trials` configurations once each.
#[derive(Debug)]
pub struct FixedScheduler {
    remaining: usize,
    next_config_id: usize,
    budget_epochs: Option<usize>,
    budget_key: Option<String>,
    total_budget: usize,
    issued_budget: usize,
}

impl View for FixedScheduler {
    type V = FixedView;

    closed spec fn view(&self) -> FixedView {
        FixedView {
            remaining: self.remaining,
            next_config_id: self.next_config_id,
            budget_epochs: self.budget_epochs,
            budget_key: match self.budget_key {
                Some(k) => Some(k@),
                None => None,
            },
            total_budget: self.total_budget,
            issued_budget: self.issued_budget,
        }
    }
}

/// The budget of each trial (none means zero).
pub open spec fn fixed_budget(v: FixedView) -> usize {
    match v.budget_epochs {
        Some(b) => b,
        None => 0,
    }
}

/// The next trial can be issued without overflowing the counters.
pub open spec fn fixed_can_issue(v: FixedView) -> bool {
    v.next_config_id < usize::MAX && v.issued_budget + fixed_budget(v) <= usize::MAX
}

/// The state after handing out the next trial, and that trial's token.
pub open spec fn fixed_next(v: FixedView) -> (FixedView, Option<TrialToken>) {
    if v.remaining == 0 {
        (v, None)
    } else {
        (
            FixedView {
                remaining: (v.remaining - 1) as usize,
                next_config_id: (v.next_config_id + 1) as usize,
                issued_budget: (v.issued_budget + fixed_budget(v)) as usize,
                ..v
            },
            Some(
                TrialToken {
                    config_id: v.next_config_id,
                    rung: 0,
                    bracket: 0,
                    budget_epochs: fixed_budget(v),
                },
            ),
        )
    }
}

/// The state after a failed trial is handed back: its slot and budget are
/// refunded.
pub open spec fn fixed_retry(v: FixedView, t: TrialToken) -> FixedView {
    FixedView {
        remaining: if v.remaining == usize::MAX {
            usize::MAX
        } else {
            (v.remaining + 1) as usize
        },
        issued_budget: sat_sub(v.issued_budget, t.budget_epochs),
        ..v
    }
}

/// The fields of a fixed-scheduler trial issued from state `v` (before the
/// issue) with token `t`.
pub open spec fn fixed_fields(v: FixedView, t: TrialToken) -> Map<Seq<char>, Seq<char>> {
    let after = fixed_next(v).0;
    let budget_part = match (v.budget_epochs, v.budget_key) {
        (Some(b), Some(k)) => Map::<Seq<char>, Seq<char>>::empty().insert(
            "trial.budget_epochs"@,
            decimal(b as nat),
        ).insert("trial."@ + k, decimal(b as nat)).insert(
            "trial.budget_total"@,
            decimal(b as nat),
        ).insert("trial.budget_step"@, decimal(b as nat)).insert(
            "tuning.budget_total"@,
            decimal(v.total_budget as nat),
        ).insert(
            "tuning.budget_remaining"@,
            decimal(sat_sub(v.total_budget, after.issued_budget) as nat),
        ),
        _ => Map::empty(),
    };
    budget_part.insert("trial.config_id"@, decimal(t.config_id as nat)).insert(
        "trial.rung"@,
        "0"@,
    ).insert("trial.bracket"@, "0"@)
}

/// The placeholder values of a fixed-scheduler trial.
pub open spec fn fixed_values(v: FixedView) -> Map<Seq<char>, Seq<char>> {
    match (v.budget_epochs, v.budget_key) {
        (Some(b), Some(k)) => Map::<Seq<char>, Seq<char>>::empty().insert(k, decimal(b as nat)),
        _ => Map::empty(),
    }
}

impl FixedScheduler {
    /// A scheduler for `n_trials` trials, each with `budget_epochs` (put
    /// under the placeholder `budget_key`, when both are given).
    pub fn new(n_trials: usize, budget_epochs: Option<usize>, budget_key: Option<String>) -> (r:
        Self)
        requires
            n_trials * (match budget_epochs {
                Some(b) => b,
                None => 0,
            }) <= usize::MAX,
        ensures
            r@.remaining == n_trials,
            r@.next_config_id == 0,
            r@.budget_epochs == budget_epochs,
            r@.budget_key == (match budget_key {
                Some(k) => Some(k@),
                None => None::<Seq<char>>,
            }),
            r@.total_budget == n_trials * (match budget_epochs {
                Some(b) => b,
                None => 0,
            }),
            r@.issued_budget == 0,
    {
        let b = match budget_epochs {
            Some(b) => b,
            None => 0,
        };
        FixedScheduler {
            remaining: n_trials,
            next_config_id: 0,
            budget_epochs,
            budget_key,
            total_budget: n_trials * b,
            issued_budget: 0,
        }
    }

    /// Whether the next trial can be issued without overflowing a counter.
    pub fn can_issue(&self) -> (r: bool)
        ensures
            r == fixed_can_issue(self@),
    {
        let b = match self.budget_epochs {
            Some(b) => b,
            None => 0,
        };
        self.next_config_id < usize::MAX && b <= usize::MAX - self.issued_budget
    }

    /// Hand out the next trial, or `None` when all have been handed out.
    pub fn next_trial(&mut self) -> (r: Option<ScheduledTrial>)
        requires
            fixed_can_issue(old(self)@),
        ensures
            final(self)@ == fixed_next(old(self)@).0,
            match fixed_next(old(self)@).1 {
                None => r is None,
                Some(t) => r matches Some(st) && st.token == t && st.overrides.values@
                    == fixed_values(old(self)@) && st.overrides.fields@ == fixed_fields(
                    old(self)@,
                    t,
                ) && st.overrides.env@ == Map::<Seq<char>, Seq<char>>::empty(),
            },
    {
        if self.remaining == 0 {
            return None;
        }
        let ghost before = self@;
        self.remaining = self.remaining - 1;
        let config_id = self.next_config_id;
        self.next_config_id = self.next_config_id + 1;
        let budget_epochs = match self.budget_epochs {
            Some(b) => b,
            None => 0,
        };
        self.issued_budget = self.issued_budget + budget_epochs;
        let remaining_budget = self.total_budget.saturating_sub(self.issued_budget);
        let mut overrides = TrialOverrides::default();
        match (self.budget_epochs, &self.budget_key) {
            (Some(budget), Some(key)) => {
                overrides.values.insert(key.clone(), usize_text(budget));
                overrides.fields.insert("trial.budget_epochs".to_owned(), usize_text(budget));
                overrides.fields.insert(concat_str("trial.", key.as_str()), usize_text(budget));
                overrides.fields.insert("trial.budget_total".to_owned(), usize_text(budget));
                overrides.fields.insert("trial.budget_step".to_owned(), usize_text(budget));
                overrides.fields.insert(
                    "tuning.budget_total".to_owned(),
                    usize_text(self.total_budget),
                );
                overrides.fields.insert(
                    "tuning.budget_remaining".to_owned(),
                    usize_text(remaining_budget),
                );
            },
            _ => {},
        }
        overrides.fields.insert("trial.config_id".to_owned(), usize_text(config_id));
        overrides.fields.insert("trial.rung".to_owned(), "0".to_owned());
        overrides.fields.insert("trial.bracket".to_owned(), "0".to_owned());
        assert(self@ == fixed_next(before).0);
        Some(
            ScheduledTrial {
                token: TrialToken { config_id, rung: 0, bracket: 0, budget_epochs },
                overrides,
            },
        )
    }

    /// A fixed scheduler learns nothing from results.
    pub fn record_result(&mut self, _token: TrialToken)
        ensures
            final(self)@ == old(self)@,
    {
    }

    /// Whether every trial has been handed out.
    pub fn is_done(&self) -> (r: bool)
        ensures
            r == (self@.remaining == 0),
    {
        self.remaining == 0
    }

    /// Hand a failed trial back: its slot and budget are refunded. Always
    /// accepted.
    pub fn retry_trial(&mut self, token: TrialToken) -> (r: bool)
        ensures
            r,
            final(self)@ == fixed_retry(old(self)@, token),
    {
        self.remaining = self.remaining.saturating_add(1);
        self.issued_budget = self.issued_budget.saturating_sub(token.budget_epochs);
        true
    }
}

/// Handing a trial out and back leaves the budget accounting as it was: the
/// trial issued next has the same budget, and the state after it (so the
/// remaining tuning budget it reports) is the state after the first issue.
pub proof fn lemma_fixed_retry_refunds(v: FixedView)
    requires
        fixed_can_issue(v),
        v.remaining > 0,
    ensures
        ({
            let (v1, t1) = fixed_next(v);
            let v2 = fixed_retry(v1, t1->Some_0);
            let (v3, t3) = fixed_next(v2);
            &&& v2.remaining == v.remaining
            &&& v2.issued_budget == v.issued_budget
            &&& t3 matches Some(t) && t.budget_epochs == t1->Some_0.budget_epochs
            &&& v3.issued_budget == v1.issued_budget
            &&& v3.remaining == v1.remaining
            &&& v3.total_budget == v1.total_budget
        }),
{
}

/// The state after `k` trials have been handed out from `v`.
pub open spec fn fixed_issued(v: FixedView, k: nat) -> FixedView
    decreases k,
{
    if k == 0 {
        v
    } else {
        fixed_next(fixed_issued(v, (k - 1) as nat)).0
    }
}

/// A fixed scheduler hands out exactly its remaining trials, one
/// configuration id after another, each with the same budget, and then
/// nothing more: from a state whose counters cannot overflow, the trial
/// issued after `j` others has configuration id `next_config_id + j`, and
/// once `remaining` trials are out the next issue is `None`.
pub proof fn lemma_fixed_issues_each_id_once(v: FixedView, k: nat)
    requires
        k <= v.remaining,
        v.next_config_id + v.remaining <= usize::MAX,
        v.issued_budget + v.remaining * fixed_budget(v) <= usize::MAX,
    ensures
        fixed_issued(v, k).remaining == v.remaining - k,
        fixed_issued(v, k).next_config_id == v.next_config_id + k,
        fixed_issued(v, k).issued_budget == v.issued_budget + k * fixed_budget(v),
        fixed_issued(v, k).budget_epochs == v.budget_epochs,
        k < v.remaining ==> fixed_next(fixed_issued(v, k)).1 == Some(
            TrialToken {
                config_id: (v.next_config_id + k) as usize,
                rung: 0,
                bracket: 0,
                budget_epochs: fixed_budget(v),
            },
        ),
        k == v.remaining ==> fixed_next(fixed_issued(v, k)).1 is None,
    decreases k,
{
    let b = fixed_budget(v);
    if k > 0 {
        lemma_fixed_issues_each_id_once(v, (k - 1) as nat);
        assert(v.issued_budget + (k - 1) * b + b <= usize::MAX) by (nonlinear_arith)
            requires
                v.issued_budget + v.remaining * b <= usize::MAX,
                k <= v.remaining,
                k >= 1,
                b >= 0,
        ;
        assert((k - 1) * b + b == k * b) by (nonlinear_arith);
    }
}

} // verus!
