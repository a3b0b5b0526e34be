//! The successive-halving scheduler: every configuration runs on the first
//! rung's budget; after each rung the best `ceil(n / eta)` of those with a
//! score go on to the next, larger budget.
//!
//! The scheduler decides ids, rungs, budgets, promotion and the budget
//! accounting. Scores enter as order keys: `u64`s that sort as the scores
//! do (a missing or infinite score has no key); the points in the search
//! space are drawn by the caller.

use vstd::prelude::*;

use super::fixed::ScheduledTrial;
use super::plan::{calculate_total_budget, next_count, sat_mul, sat_sub, shrink_count, total_budget};
use super::TrialToken;
use crate::text::{concat_str, decimal, usize_text};
use crate::trial::TrialOverrides;

verus! {

/// The budgets from `value` on, multiplied by `eta` each rung, while below
/// `max`.
pub open spec fn sh_budgets_from(value: usize, max: usize, eta: usize) -> Seq<usize>
    decreases usize::MAX - value,
{
    if 1 <= value && value < max && eta >= 2 {
        proof {
            assert(value * eta >= value * 2) by (nonlinear_arith)
                requires
                    eta >= 2,
                    value >= 1,
            ;
        }
        seq![value] + sh_budgets_from(sat_mul(value, eta), max, eta)
    } else {
        Seq::empty()
    }
}

/// The budget ladder: `max(min_epochs, 1)` times powers of `eta` (at least
/// two) below the top, then `max(max_epochs, min)`.
pub open spec fn sh_budgets(min_epochs: usize, max_epochs: usize, eta: usize) -> Seq<usize> {
    let lo: usize = if min_epochs < 1 {
        1
    } else {
        min_epochs
    };
    let hi: usize = if max_epochs < lo {
        lo
    } else {
        max_epochs
    };
    let e: usize = if eta < 2 {
        2
    } else {
        eta
    };
    sh_budgets_from(lo, hi, e).push(hi)
}

/// Every budget from `value` on lies in `[value, max)`, and each is
/// smaller than the next.
proof fn lemma_sh_budgets_from_increasing(value: usize, max: usize, eta: usize)
    ensures
        forall|i: int|
            0 <= i < sh_budgets_from(value, max, eta).len() ==> value <= #[trigger] sh_budgets_from(
                value,
                max,
                eta,
            )[i] < max,
        forall|i: int, j: int|
            0 <= i < j < sh_budgets_from(value, max, eta).len() ==> #[trigger] sh_budgets_from(
                value,
                max,
                eta,
            )[i] < #[trigger] sh_budgets_from(value, max, eta)[j],
    decreases usize::MAX - value,
{
    if 1 <= value && value < max && eta >= 2 {
        assert(value * eta >= value * 2) by (nonlinear_arith)
            requires
                eta >= 2,
                value >= 1,
        ;
        let next = sat_mul(value, eta);
        lemma_sh_budgets_from_increasing(next, max, eta);
        let rest = sh_budgets_from(next, max, eta);
        assert(sh_budgets_from(value, max, eta) == seq![value] + rest);
    }
}

/// The budget ladder rises strictly, rung by rung, from `max(min_epochs, 1)`
/// to its last rung, which is `max(max_epochs, max(min_epochs, 1))`.
pub proof fn lemma_sh_budgets_increasing(min_epochs: usize, max_epochs: usize, eta: usize)
    ensures
        ({
            let b = sh_budgets(min_epochs, max_epochs, eta);
            let lo = if min_epochs < 1 {
                1
            } else {
                min_epochs as int
            };
            let hi = if max_epochs < lo {
                lo
            } else {
                max_epochs as int
            };
            &&& b.len() >= 1
            &&& b[0] == lo
            &&& b.last() == hi
            &&& forall|i: int, j: int| 0 <= i < j < b.len() ==> #[trigger] b[i] < #[trigger] b[j]
        }),
{
    let lo: usize = if min_epochs < 1 {
        1
    } else {
        min_epochs
    };
    let hi: usize = if max_epochs < lo {
        lo
    } else {
        max_epochs
    };
    let e: usize = if eta < 2 {
        2
    } else {
        eta
    };
    lemma_sh_budgets_from_increasing(lo, hi, e);
    let f = sh_budgets_from(lo, hi, e);
    let b = sh_budgets(min_epochs, max_epochs, eta);
    assert(b == f.push(hi));
    if lo < hi {
        assert(f.len() > 0);
        assert(f[0] == lo);
    }
    assert forall|i: int, j: int| 0 <= i < j < b.len() implies #[trigger] b[i] < #[trigger] b[j] by {
        if j < f.len() {
            assert(b[i] == f[i] && b[j] == f[j]);
        } else {
            assert(b[i] == f[i]);
        }
    }
}

/// The budget ladder of the scheduler.
pub fn build_budgets(min_epochs: usize, max_epochs: usize, eta: usize) -> (r: Vec<usize>)
    ensures
        r@ == sh_budgets(min_epochs, max_epochs, eta),
{
    let lo: usize = if min_epochs < 1 {
        1
    } else {
        min_epochs
    };
    let hi: usize = if max_epochs < lo {
        lo
    } else {
        max_epochs
    };
    let e: usize = if eta < 2 {
        2
    } else {
        eta
    };
    let mut budgets: Vec<usize> = Vec::new();
    let mut value = lo;
    while value < hi
        invariant
            value >= 1,
            e >= 2,
            budgets@ + sh_budgets_from(value, hi, e) == sh_budgets_from(lo, hi, e),
        decreases usize::MAX - value,
    {
        let ghost before = budgets@;
        budgets.push(value);
        proof {
            assert(before + sh_budgets_from(value, hi, e) =~= budgets@ + sh_budgets_from(
                sat_mul(value, e),
                hi,
                e,
            ));
            assert(value * e >= value * 2) by (nonlinear_arith)
                requires
                    e >= 2,
                    value >= 1,
            ;
        }
        value = super::plan::saturating_mul(value, e);
    }
    proof {
        assert(budgets@ + Seq::<usize>::empty() =~= budgets@);
    }
    budgets.push(hi);
    budgets
}

/// The state of a successive-halving scheduler.
pub struct ShView {
    pub budgets: Seq<usize>,
    pub eta: usize,
    pub budget_key: Seq<char>,
    pub rung: usize,
    /// The configurations of the rung, with the order key of their score.
    pub current: Seq<(usize, Option<u64>)>,
    /// The configurations still to run on this rung; the last runs first.
    pub pending: Seq<usize>,
    pub total_budget: usize,
    pub issued_budget: usize,
}

/// A successive-halving scheduler.
#[derive(Debug)]
pub struct SuccessiveHalvingScheduler {
    budgets: Vec<usize>,
    eta: usize,
    budget_key: String,
    rung: usize,
    current: Vec<(usize, Option<u64>)>,
    pending: Vec<usize>,
    total_budget: usize,
    issued_budget: usize,
}

impl View for SuccessiveHalvingScheduler {
    type V = ShView;

    closed spec fn view(&self) -> ShView {
        ShView {
            budgets: self.budgets@,
            eta: self.eta,
            budget_key: self.budget_key@,
            rung: self.rung,
            current: self.current@,
            pending: self.pending@,
            total_budget: self.total_budget,
            issued_budget: self.issued_budget,
        }
    }
}

/// Configuration `i` of the rung comes before `j` in promotion order: a
/// better (smaller) score, or the same score and an earlier place.
pub open spec fn ranks_before(cur: Seq<(usize, Option<u64>)>, i: int, j: int) -> bool {
    let a = cur[i].1->Some_0;
    let b = cur[j].1->Some_0;
    a < b || (a == b && i < j)
}

/// `r` lists places of scored configurations in promotion order.
pub open spec fn ranked(cur: Seq<(usize, Option<u64>)>, r: Seq<int>) -> bool {
    &&& forall|k: int| 0 <= k < r.len() ==> 0 <= #[trigger] r[k] < cur.len() && cur[r[k]].1 is Some
    &&& forall|a: int, b: int|
        0 <= a < b < r.len() ==> ranks_before(cur, #[trigger] r[a], #[trigger] r[b])
}

/// `r` lists every scored configuration of the rung, in promotion order.
pub open spec fn is_score_order(cur: Seq<(usize, Option<u64>)>, r: Seq<int>) -> bool {
    &&& ranked(cur, r)
    &&& forall|i: int| 0 <= i < cur.len() && (#[trigger] cur[i].1) is Some ==> r.contains(i)
}

/// The scored configurations of the rung in promotion order (a stable sort
/// by score).
pub open spec fn score_order(cur: Seq<(usize, Option<u64>)>) -> Seq<int> {
    choose|r: Seq<int>| is_score_order(cur, r)
}

/// Two rankings with the same places are the same.
pub proof fn lemma_ranked_unique(cur: Seq<(usize, Option<u64>)>, a: Seq<int>, b: Seq<int>)
    requires
        ranked(cur, a),
        ranked(cur, b),
        forall|x: int| a.contains(x) <==> b.contains(x),
    ensures
        a == b,
    decreases a.len() + b.len(),
{
    if a.len() == 0 {
        if b.len() > 0 {
            assert(b.contains(b[0]));
        }
        assert(a =~= b);
    } else if b.len() == 0 {
        assert(a.contains(a[0]));
    } else {
        assert(a.contains(a[0]));
        assert(b.contains(b[0]));
        let j = choose|j: int| 0 <= j < b.len() && b[j] == a[0];
        let i = choose|i: int| 0 <= i < a.len() && a[i] == b[0];
        if a[0] != b[0] {
            assert(j > 0 && i > 0);
            assert(ranks_before(cur, b[0], b[j]));
            assert(ranks_before(cur, a[0], a[i]));
        }
        let ra = a.drop_first();
        let rb = b.drop_first();
        assert(ranked(cur, ra)) by {
            assert forall|x: int, y: int| 0 <= x < y < ra.len() implies ranks_before(cur, #[trigger] ra[x], #[trigger] ra[y]) by {
                assert(ranks_before(cur, a[x + 1], a[y + 1]));
            }
        }
        assert(ranked(cur, rb)) by {
            assert forall|x: int, y: int| 0 <= x < y < rb.len() implies ranks_before(cur, #[trigger] rb[x], #[trigger] rb[y]) by {
                assert(ranks_before(cur, b[x + 1], b[y + 1]));
            }
        }
        assert forall|x: int| ra.contains(x) <==> rb.contains(x) by {
            if ra.contains(x) {
                let q = choose|q: int| 0 <= q < ra.len() && ra[q] == x;
                assert(ranks_before(cur, a[0], a[q + 1]));
                assert(a.contains(x));
                let w = choose|w: int| 0 <= w < b.len() && b[w] == x;
                assert(w != 0);
                assert(rb[w - 1] == x);
            }
            if rb.contains(x) {
                let q = choose|q: int| 0 <= q < rb.len() && rb[q] == x;
                assert(ranks_before(cur, b[0], b[q + 1]));
                assert(b.contains(x));
                let w = choose|w: int| 0 <= w < a.len() && a[w] == x;
                assert(w != 0);
                assert(ra[w - 1] == x);
            }
        }
        lemma_ranked_unique(cur, ra, rb);
        assert(a =~= seq![a[0]] + ra);
        assert(b =~= seq![b[0]] + rb);
    }
}

/// A score order is `score_order`.
pub proof fn lemma_score_order_is(cur: Seq<(usize, Option<u64>)>, r: Seq<int>)
    requires
        is_score_order(cur, r),
    ensures
        score_order(cur) == r,
{
    let t = score_order(cur);
    assert(is_score_order(cur, t));
    assert forall|x: int| t.contains(x) <==> r.contains(x) by {
        if t.contains(x) {
            let k = choose|k: int| 0 <= k < t.len() && t[k] == x;
            assert(cur[t[k]].1 is Some);
        }
        if r.contains(x) {
            let k = choose|k: int| 0 <= k < r.len() && r[k] == x;
            assert(cur[r[k]].1 is Some);
        }
    }
    lemma_ranked_unique(cur, t, r);
}

/// The ids of configurations, last first (the order they run in).
pub open spec fn run_order(c: Seq<(usize, Option<u64>)>) -> Seq<usize> {
    Seq::new(c.len(), |i: int| c[c.len() - 1 - i].0)
}

/// The state after a finished rung moves on: the best `ceil(n / eta)` (at
/// least one) of the `n` scored configurations go on, without scores, to
/// the next rung. Nothing changes while configurations are pending or on
/// the last rung.
pub open spec fn sh_promoted(v: ShView) -> ShView {
    if v.pending.len() == 0 && v.rung + 1 < v.budgets.len() {
        let order = score_order(v.current);
        let n = promoted_count(v);
        let kept = order.take(n).map_values(|i: int| (v.current[i].0, None::<u64>));
        ShView { current: kept, pending: run_order(kept), rung: (v.rung + 1) as usize, ..v }
    } else {
        v
    }
}

/// How many of a finished rung's scored configurations go on:
/// `ceil(n / eta)`, at least one, at most `n`.
pub open spec fn promoted_count(v: ShView) -> int {
    let order = score_order(v.current);
    let keep = next_count(order.len() as usize, v.eta);
    if keep < order.len() {
        keep as int
    } else {
        order.len() as int
    }
}

/// The budget of a rung.
pub open spec fn sh_budget_at(v: ShView, rung: usize) -> usize {
    if rung < v.budgets.len() {
        v.budgets[rung as int]
    } else {
        0
    }
}

/// The budget of the rung before.
pub open spec fn sh_prev_budget(v: ShView, rung: usize) -> usize {
    if rung > 0 {
        sh_budget_at(v, (rung - 1) as usize)
    } else {
        0
    }
}

/// The epochs a trial of the rung adds to what its configuration ran.
pub open spec fn sh_increment(v: ShView, rung: usize) -> usize {
    sat_sub(sh_budget_at(v, rung), sh_prev_budget(v, rung))
}

/// The state a trial is issued from: promoted when nothing is pending.
pub open spec fn sh_ready(v: ShView) -> ShView {
    if v.pending.len() == 0 {
        sh_promoted(v)
    } else {
        v
    }
}

/// The next trial can be issued without overflowing the budget counter.
pub open spec fn sh_can_issue(v: ShView) -> bool {
    let w = sh_ready(v);
    w.pending.len() > 0 ==> w.issued_budget + sh_increment(w, w.rung) <= usize::MAX
}

/// The state after handing out the next trial, and that trial's token.
pub open spec fn sh_next(v: ShView) -> (ShView, Option<TrialToken>) {
    let w = sh_ready(v);
    if w.pending.len() == 0 {
        (w, None)
    } else {
        let b = sh_budget_at(w, w.rung);
        (
            ShView {
                pending: w.pending.drop_last(),
                issued_budget: (w.issued_budget + sh_increment(w, w.rung)) as usize,
                ..w
            },
            Some(TrialToken { config_id: w.pending.last(), rung: w.rung, bracket: 0, budget_epochs: b }),
        )
    }
}

/// The state after a result: the configuration's score becomes `score`.
pub open spec fn sh_recorded(v: ShView, id: usize, score: Option<u64>) -> ShView {
    ShView {
        current: v.current.map_values(
            |e: (usize, Option<u64>)|
                if e.0 == id {
                    (e.0, score)
                } else {
                    e
                },
        ),
        ..v
    }
}

/// The configuration is on the rung.
pub open spec fn on_rung(c: Seq<(usize, Option<u64>)>, id: usize) -> bool {
    exists|i: int| 0 <= i < c.len() && c[i].0 == id
}

/// The state after a failed trial is handed back: its budget increment is
/// refunded, its configuration loses its score (joining the rung if it was
/// not on it) and runs again next.
pub open spec fn sh_retry(v: ShView, t: TrialToken) -> ShView {
    let cur = if on_rung(v.current, t.config_id) {
        sh_recorded(v, t.config_id, None).current
    } else {
        v.current.push((t.config_id, None))
    };
    ShView {
        current: cur,
        pending: v.pending.push(t.config_id),
        issued_budget: sat_sub(v.issued_budget, sh_increment(v, t.rung)),
        ..v
    }
}

/// The fields of a trial issued from state `v` with token `t`.
pub open spec fn sh_fields(v: ShView, t: TrialToken) -> Map<Seq<char>, Seq<char>> {
    let w = sh_ready(v);
    let after = sh_next(v).0;
    let b = t.budget_epochs;
    let top = if w.budgets.len() > 0 {
        w.budgets.last()
    } else {
        0
    };
    Map::<Seq<char>, Seq<char>>::empty().insert("trial.budget_epochs"@, decimal(b as nat)).insert(
        "trial."@ + w.budget_key,
        decimal(b as nat),
    ).insert("trial.budget_total"@, decimal(top as nat)).insert(
        "trial.budget_step"@,
        decimal(sh_increment(w, w.rung) as nat),
    ).insert("tuning.budget_total"@, decimal(w.total_budget as nat)).insert(
        "tuning.budget_remaining"@,
        decimal(sat_sub(w.total_budget, after.issued_budget) as nat),
    ).insert("trial.config_id"@, decimal(t.config_id as nat)).insert(
        "trial.rung"@,
        decimal(t.rung as nat),
    ).insert("trial.bracket"@, "0"@)
}

/// The configurations `0..n`, unscored.
pub open spec fn first_configs(n: usize) -> Seq<(usize, Option<u64>)> {
    Seq::new(n as nat, |i: int| (i as usize, None::<u64>))
}

/// A scheduler can be built: its total budget fits a `usize`.
pub open spec fn sh_buildable(n_trials: usize, min_epochs: usize, max_epochs: usize, eta: usize) -> bool {
    total_budget(n_trials, sh_budgets(min_epochs, max_epochs, eta), eta) <= usize::MAX
}

impl SuccessiveHalvingScheduler {
    /// A scheduler for `n_trials` configurations on the budget ladder from
    /// `min_epochs` to `max_epochs`, reducing by `eta`, with the budget under
    /// the placeholder `budget_key`. Configuration 0 runs first.
    pub fn new(n_trials: usize, min_epochs: usize, max_epochs: usize, eta: usize, budget_key: String) -> (r:
        Self)
        requires
            sh_buildable(n_trials, min_epochs, max_epochs, eta),
        ensures
            r@.budgets == sh_budgets(min_epochs, max_epochs, eta),
            r@.eta == eta,
            r@.budget_key == budget_key@,
            r@.rung == 0,
            r@.current == first_configs(n_trials),
            r@.pending == run_order(first_configs(n_trials)),
            r@.total_budget == total_budget(n_trials, sh_budgets(min_epochs, max_epochs, eta), eta),
            r@.issued_budget == 0,
    {
        let budgets = build_budgets(min_epochs, max_epochs, eta);
        let total = calculate_total_budget(n_trials, &budgets, eta);
        let mut current: Vec<(usize, Option<u64>)> = Vec::new();
        let mut id: usize = 0;
        while id < n_trials
            invariant
                id <= n_trials,
                current@ == first_configs(id),
            decreases n_trials - id,
        {
            current.push((id, None));
            proof {
                assert(current@ =~= first_configs((id + 1) as usize));
            }
            id = id + 1;
        }
        let pending = run_order_of(&current);
        SuccessiveHalvingScheduler {
            budgets,
            eta,
            budget_key,
            rung: 0,
            current,
            pending,
            total_budget: total,
            issued_budget: 0,
        }
    }

    /// Whether the next trial can be issued without overflowing the budget
    /// counter.
    pub fn can_issue(&self) -> (r: bool)
        ensures
            r == sh_can_issue(self@),
    {
        let ghost v = self@;
        let (pending_len, rung, issued) = if self.pending.len() == 0 {
            if self.budgets.len() > 0 && self.rung < self.budgets.len() - 1 {
                let order = self.score_order();
                let keep = shrink_count(order.len(), self.eta);
                let n = if keep < order.len() {
                    keep
                } else {
                    order.len()
                };
                (n, self.rung + 1, self.issued_budget)
            } else {
                (0, self.rung, self.issued_budget)
            }
        } else {
            (self.pending.len(), self.rung, self.issued_budget)
        };
        if pending_len == 0 {
            return true;
        }
        let incr = self.increment(rung);
        incr <= usize::MAX - issued
    }

    /// The epochs a trial of `rung` adds.
    fn increment(&self, rung: usize) -> (r: usize)
        ensures
            r == sh_increment(self@, rung),
    {
        let b = if rung < self.budgets.len() {
            self.budgets[rung]
        } else {
            0
        };
        let p = if rung > 0 {
            if rung - 1 < self.budgets.len() {
                self.budgets[rung - 1]
            } else {
                0
            }
        } else {
            0
        };
        b.saturating_sub(p)
    }

    /// The places of the scored configurations in promotion order.
    fn score_order(&self) -> (r: Vec<usize>)
        ensures
            r@.map_values(|i: usize| i as int) == score_order(self@.current),
            is_score_order(self@.current, r@.map_values(|i: usize| i as int)),
    {
        let ghost cur = self.current@;
        let mut order: Vec<usize> = Vec::new();
        let mut i: usize = 0;
        while i < self.current.len()
            invariant
                i <= cur.len(),
                cur == self.current@,
                ranked(cur, order@.map_values(|p: usize| p as int)),
                forall|k: int| 0 <= k < order@.len() ==> #[trigger] order@[k] < i,
                forall|p: int| 0 <= p < i && (#[trigger] cur[p].1) is Some ==> order@.map_values(
                    |q: usize| q as int,
                ).contains(p),
            decreases cur.len() - i,
        {
            match self.current[i].1 {
                None => {},
                Some(key) => {
                    assert forall|k: int| 0 <= k < order@.len() implies (#[trigger] cur[order@[k] as int].1) is Some by {
                        assert(order@.map_values(|p: usize| p as int)[k] == order@[k] as int);
                    }
                    assert forall|k: int| 0 <= k < order@.len() implies #[trigger] order@[k] < cur.len() by {
                        assert(order@.map_values(|p: usize| p as int)[k] == order@[k] as int);
                    }
                    let mut j: usize = 0;
                    while j < order.len()
                        invariant
                            j <= order@.len(),
                            cur == self.current@,
                            i < cur.len(),
                            cur[i as int].1 == Some(key),
                            forall|k: int| 0 <= k < order@.len() ==> #[trigger] order@[k] < cur.len(),
                            forall|k: int| 0 <= k < order@.len() ==> (#[trigger] cur[order@[k] as int].1) is Some,
                            forall|q: int| 0 <= q < j ==> #[trigger] cur[order@[q] as int].1->Some_0 <= key,
                        ensures
                            j < order@.len() ==> cur[order@[j as int] as int].1->Some_0 > key,
                        decreases order@.len() - j,
                    {
                        let p = order[j];
                        let kp = match self.current[p].1 {
                            Some(k) => k,
                            None => 0,
                        };
                        if kp > key {
                            break;
                        }
                        j = j + 1;
                    }
                    let ghost old_order = order@.map_values(|p: usize| p as int);
                    order.insert(j, i);
                    proof {
                        let new_order = order@.map_values(|p: usize| p as int);
                        assert(new_order =~= old_order.insert(j as int, i as int));
                        assert forall|a: int, b: int| 0 <= a < b < new_order.len() implies ranks_before(
                            cur,
                            #[trigger] new_order[a],
                            #[trigger] new_order[b],
                        ) by {
                            if b < j {
                                assert(ranks_before(cur, old_order[a], old_order[b]));
                            } else if b == j {
                                assert(cur[old_order[a]].1->Some_0 <= key);
                            } else if a < j {
                                assert(ranks_before(cur, old_order[a], old_order[b - 1]));
                                assert(cur[old_order[a]].1->Some_0 <= key);
                                if b - 1 > j {
                                    assert(ranks_before(cur, old_order[j as int], old_order[b - 1]));
                                }
                            } else if a == j {
                                if b - 1 > j {
                                    assert(ranks_before(cur, old_order[j as int], old_order[b - 1]));
                                }
                            } else {
                                assert(ranks_before(cur, old_order[a - 1], old_order[b - 1]));
                            }
                        }
                        assert forall|p: int| 0 <= p < i + 1 && (#[trigger] cur[p].1) is Some implies new_order.contains(p) by {
                            if p == i {
                                assert(new_order[j as int] == p);
                            } else {
                                assert(old_order.contains(p));
                                let k = choose|k: int| 0 <= k < old_order.len() && old_order[k] == p;
                                if k < j {
                                    assert(new_order[k] == p);
                                } else {
                                    assert(new_order[k + 1] == p);
                                }
                            }
                        }
                    }
                },
            }
            i = i + 1;
        }
        proof {
            lemma_score_order_is(cur, order@.map_values(|p: usize| p as int));
        }
        order
    }

    /// Move on to the next rung once the current one has run.
    fn promote(&mut self)
        ensures
            final(self)@ == sh_promoted(old(self)@),
    {
        if self.pending.len() == 0 && self.budgets.len() > 0 && self.rung < self.budgets.len() - 1 {
            let ghost v = self@;
            let order = self.score_order();
            let keep = shrink_count(order.len(), self.eta);
            let n = if keep < order.len() {
                keep
            } else {
                order.len()
            };
            let ghost ord = order@.map_values(|p: usize| p as int);
            let mut kept: Vec<(usize, Option<u64>)> = Vec::new();
            let mut k: usize = 0;
            while k < n
                invariant
                    k <= n <= order@.len(),
                    v == self@,
                    ord == order@.map_values(|p: usize| p as int),
                    ord == score_order(v.current),
                    is_score_order(v.current, ord),
                    kept@ == ord.take(k as int).map_values(|i: int| (v.current[i].0, None::<u64>)),
                decreases n - k,
            {
                let p = order[k];
                assert(ord[k as int] == p as int);
                assert(0 <= ord[k as int] < v.current.len());
                let id = self.current[p].0;
                kept.push((id, None));
                proof {
                    assert(kept@ =~= ord.take(k + 1).map_values(|i: int| (v.current[i].0, None::<u64>)));
                }
                k = k + 1;
            }
            self.pending = run_order_of(&kept);
            self.current = kept;
            self.rung = self.rung + 1;
        }
    }

    /// Hand out the next trial, or `None` when the last rung has run.
    pub fn next_trial(&mut self) -> (r: Option<ScheduledTrial>)
        requires
            sh_can_issue(old(self)@),
        ensures
            final(self)@ == sh_next(old(self)@).0,
            match sh_next(old(self)@).1 {
                None => r is None,
                Some(t) => r matches Some(st) && st.token == t && st.overrides.values@
                    == Map::<Seq<char>, Seq<char>>::empty().insert(
                    old(self)@.budget_key,
                    decimal(t.budget_epochs as nat),
                ) && st.overrides.fields@ == sh_fields(old(self)@, t) && st.overrides.env@
                    == Map::<Seq<char>, Seq<char>>::empty(),
            },
    {
        let ghost v = self@;
        if self.pending.len() == 0 {
            self.promote();
        }
        let ghost w = self@;
        assert(w == sh_ready(v));
        let id = match self.pending.pop() {
            Some(c) => c,
            None => {
                return None;
            },
        };
        let rung = self.rung;
        let budget_epochs = if rung < self.budgets.len() {
            self.budgets[rung]
        } else {
            0
        };
        let remaining_budget = self.increment(rung);
        let max_budget = if self.budgets.len() > 0 {
            self.budgets[self.budgets.len() - 1]
        } else {
            0
        };
        self.issued_budget = self.issued_budget + remaining_budget;
        let tuning_remaining = self.total_budget.saturating_sub(self.issued_budget);
        let mut overrides = TrialOverrides::default();
        overrides.values.insert(self.budget_key.clone(), usize_text(budget_epochs));
        overrides.fields.insert("trial.budget_epochs".to_owned(), usize_text(budget_epochs));
        overrides.fields.insert(concat_str("trial.", self.budget_key.as_str()), usize_text(budget_epochs));
        overrides.fields.insert("trial.budget_total".to_owned(), usize_text(max_budget));
        overrides.fields.insert("trial.budget_step".to_owned(), usize_text(remaining_budget));
        overrides.fields.insert("tuning.budget_total".to_owned(), usize_text(self.total_budget));
        overrides.fields.insert("tuning.budget_remaining".to_owned(), usize_text(tuning_remaining));
        overrides.fields.insert("trial.config_id".to_owned(), usize_text(id));
        overrides.fields.insert("trial.rung".to_owned(), usize_text(rung));
        overrides.fields.insert("trial.bracket".to_owned(), "0".to_owned());
        assert(self@ == sh_next(v).0);
        Some(
            ScheduledTrial {
                token: TrialToken { config_id: id, rung, bracket: 0, budget_epochs },
                overrides,
            },
        )
    }

    /// Record the result of a trial: `score` is the order key of its score
    /// (`None` for a missing or infinite score).
    pub fn record_result(&mut self, token: TrialToken, score: Option<u64>)
        ensures
            final(self)@ == sh_recorded(old(self)@, token.config_id, score),
    {
        let ghost v = self@;
        let mut cur: Vec<(usize, Option<u64>)> = Vec::new();
        core::mem::swap(&mut cur, &mut self.current);
        let mut i: usize = 0;
        while i < cur.len()
            invariant
                i <= cur@.len(),
                cur@.len() == v.current.len(),
                forall|k: int| 0 <= k < i ==> #[trigger] cur@[k] == (if v.current[k].0 == token.config_id {
                    (v.current[k].0, score)
                } else {
                    v.current[k]
                }),
                forall|k: int| i <= k < cur@.len() ==> #[trigger] cur@[k] == v.current[k],
            decreases cur@.len() - i,
        {
            if cur[i].0 == token.config_id {
                let id = cur[i].0;
                cur.set(i, (id, score));
            }
            i = i + 1;
        }
        self.current = cur;
        assert(self.current@ =~= sh_recorded(v, token.config_id, score).current);
    }

    /// Whether the campaign is over: nothing pending, and the last rung
    /// reached or at most one configuration left.
    pub fn is_done(&self) -> (r: bool)
        ensures
            r == (self@.pending.len() == 0 && (self@.rung + 1 >= self@.budgets.len()
                || self@.current.len() <= 1)),
    {
        self.pending.len() == 0 && (self.rung >= self.budgets.len() || self.rung + 1
            >= self.budgets.len() || self.current.len() <= 1)
    }

    /// Whether a trial can be handed back: the rung's lists have room.
    pub fn can_retry(&self) -> (r: bool)
        ensures
            r == (self@.current.len() < usize::MAX && self@.pending.len() < usize::MAX),
    {
        self.current.len() < usize::MAX && self.pending.len() < usize::MAX
    }

    /// Hand a failed trial back: its budget increment is refunded and its
    /// configuration runs again next (the caller draws a fresh point for
    /// it). Always accepted.
    pub fn retry_trial(&mut self, token: TrialToken) -> (r: bool)
        requires
            old(self)@.current.len() < usize::MAX,
            old(self)@.pending.len() < usize::MAX,
        ensures
            r,
            final(self)@ == sh_retry(old(self)@, token),
    {
        let ghost v = self@;
        let incr = self.increment(token.rung);
        self.issued_budget = self.issued_budget.saturating_sub(incr);
        let mut found = false;
        let mut i: usize = 0;
        while i < self.current.len()
            invariant
                i <= self.current@.len(),
                self.current@ == v.current,
                found == (exists|k: int| 0 <= k < i && v.current[k].0 == token.config_id),
            decreases self.current@.len() - i,
        {
            if self.current[i].0 == token.config_id {
                found = true;
            }
            i = i + 1;
        }
        if found {
            self.record_result(token, None);
        } else {
            self.current.push((token.config_id, None));
        }
        self.pending.push(token.config_id);
        assert(self@ == sh_retry(v, token));
        true
    }
}

/// The ids of configurations, last first.
fn run_order_of(c: &Vec<(usize, Option<u64>)>) -> (r: Vec<usize>)
    ensures
        r@ == run_order(c@),
{
    let mut r: Vec<usize> = Vec::new();
    let mut k: usize = c.len();
    while k > 0
        invariant
            k <= c@.len(),
            r@.len() == c@.len() - k,
            forall|q: int| 0 <= q < r@.len() ==> #[trigger] r@[q] == c@[c@.len() - 1 - q].0,
        decreases k,
    {
        k = k - 1;
        r.push(c[k].0);
    }
    assert(r@ =~= run_order(c@));
    r
}

/// Handing a trial out and back, then asking for the next trial, issues the
/// same trial again, with the budget accounting where the first issue left
/// it.
pub proof fn lemma_sh_retry_reissues(v: ShView)
    requires
        sh_can_issue(v),
        sh_next(v).1 is Some,
    ensures
        ({
            let (v1, t1) = sh_next(v);
            let v2 = sh_retry(v1, t1->Some_0);
            let (v3, t3) = sh_next(v2);
            &&& sh_can_issue(v2)
            &&& t3 == t1
            &&& v3.issued_budget == v1.issued_budget
            &&& v3.pending == v1.pending
            &&& v3.rung == v1.rung
        }),
{
    let (v1, t1) = sh_next(v);
    let t = t1->Some_0;
    let w = sh_ready(v);
    assert(v1.rung == w.rung);
    assert(t.rung == w.rung);
    assert(sh_increment(v1, t.rung) == sh_increment(w, w.rung));
    let v2 = sh_retry(v1, t);
    assert(v2.pending.len() > 0);
    assert(sh_ready(v2) == v2);
    assert(v2.pending.last() == t.config_id);
    assert(v2.pending.drop_last() =~= v1.pending);
}

/// Place `i` put into the ranking `r` where it belongs.
pub open spec fn insert_ranked(cur: Seq<(usize, Option<u64>)>, r: Seq<int>, i: int) -> Seq<int>
    decreases r.len(),
{
    if r.len() == 0 {
        seq![i]
    } else if ranks_before(cur, i, r[0]) {
        seq![i] + r
    } else {
        seq![r[0]] + insert_ranked(cur, r.drop_first(), i)
    }
}

/// Inserting a scored place that a ranking lacks keeps it a ranking and
/// adds exactly that place.
proof fn lemma_insert_ranked(cur: Seq<(usize, Option<u64>)>, r: Seq<int>, i: int)
    requires
        ranked(cur, r),
        0 <= i < cur.len(),
        cur[i].1 is Some,
        !r.contains(i),
    ensures
        ranked(cur, insert_ranked(cur, r, i)),
        forall|x: int| #[trigger] insert_ranked(cur, r, i).contains(x) <==> (r.contains(x) || x == i),
    decreases r.len(),
{
    let q = insert_ranked(cur, r, i);
    if r.len() == 0 {
        assert(q =~= seq![i]);
        assert forall|x: int| #[trigger] q.contains(x) <==> (r.contains(x) || x == i) by {
            if x == i {
                assert(q[0] == i);
            }
        }
    } else if ranks_before(cur, i, r[0]) {
        assert forall|a: int, b: int| 0 <= a < b < q.len() implies ranks_before(
            cur,
            #[trigger] q[a],
            #[trigger] q[b],
        ) by {
            if a == 0 {
                assert(q[b] == r[b - 1]);
                if b > 1 {
                    assert(ranks_before(cur, r[0], r[b - 1]));
                }
            } else {
                assert(q[a] == r[a - 1] && q[b] == r[b - 1]);
            }
        }
        assert forall|k: int| 0 <= k < q.len() implies 0 <= #[trigger] q[k] < cur.len()
            && cur[q[k]].1 is Some by {
            if k > 0 {
                assert(q[k] == r[k - 1]);
            }
        }
        assert forall|x: int| #[trigger] q.contains(x) <==> (r.contains(x) || x == i) by {
            if q.contains(x) {
                let k = choose|k: int| 0 <= k < q.len() && q[k] == x;
                if k > 0 {
                    assert(r[k - 1] == x);
                }
            }
            if r.contains(x) {
                let k = choose|k: int| 0 <= k < r.len() && r[k] == x;
                assert(q[k + 1] == x);
            }
            if x == i {
                assert(q[0] == x);
            }
        }
    } else {
        let t = r.drop_first();
        assert(ranked(cur, t)) by {
            assert forall|a: int, b: int| 0 <= a < b < t.len() implies ranks_before(
                cur,
                #[trigger] t[a],
                #[trigger] t[b],
            ) by {
                assert(t[a] == r[a + 1] && t[b] == r[b + 1]);
            }
            assert forall|k: int| 0 <= k < t.len() implies 0 <= #[trigger] t[k] < cur.len()
                && cur[t[k]].1 is Some by {
                assert(t[k] == r[k + 1]);
            }
        }
        assert(!t.contains(i)) by {
            if t.contains(i) {
                let k = choose|k: int| 0 <= k < t.len() && t[k] == i;
                assert(r[k + 1] == i);
            }
        }
        lemma_insert_ranked(cur, t, i);
        let rest = insert_ranked(cur, t, i);
        assert(q == seq![r[0]] + rest);
        assert(r[0] != i) by {
            assert(r.contains(r[0]));
        }
        assert forall|k: int| 0 <= k < rest.len() implies ranks_before(cur, r[0], #[trigger] rest[k]) by {
            assert(rest.contains(rest[k]));
            if rest[k] == i {
            } else {
                assert(t.contains(rest[k]));
                let m = choose|m: int| 0 <= m < t.len() && t[m] == rest[k];
                assert(r[m + 1] == rest[k]);
            }
        }
        assert forall|a: int, b: int| 0 <= a < b < q.len() implies ranks_before(
            cur,
            #[trigger] q[a],
            #[trigger] q[b],
        ) by {
            if a == 0 {
                assert(q[b] == rest[b - 1]);
            } else {
                assert(q[a] == rest[a - 1] && q[b] == rest[b - 1]);
            }
        }
        assert forall|k: int| 0 <= k < q.len() implies 0 <= #[trigger] q[k] < cur.len()
            && cur[q[k]].1 is Some by {
            if k > 0 {
                assert(q[k] == rest[k - 1]);
                assert(rest.contains(rest[k - 1]));
                if rest[k - 1] != i {
                    let m = choose|m: int| 0 <= m < t.len() && t[m] == rest[k - 1];
                }
            }
        }
        assert forall|x: int| #[trigger] q.contains(x) <==> (r.contains(x) || x == i) by {
            if q.contains(x) {
                let k = choose|k: int| 0 <= k < q.len() && q[k] == x;
                if k > 0 {
                    assert(rest[k - 1] == x);
                    assert(rest.contains(x));
                    if x != i {
                        let m = choose|m: int| 0 <= m < t.len() && t[m] == x;
                        assert(r[m + 1] == x);
                    }
                }
            }
            if r.contains(x) {
                let k = choose|k: int| 0 <= k < r.len() && r[k] == x;
                if k == 0 {
                    assert(q[0] == x);
                } else {
                    assert(t[k - 1] == x);
                    assert(t.contains(x));
                    assert(rest.contains(x));
                    let m = choose|m: int| 0 <= m < rest.len() && rest[m] == x;
                    assert(q[m + 1] == x);
                }
            }
            if x == i {
                assert(rest.contains(i));
                let m = choose|m: int| 0 <= m < rest.len() && rest[m] == i;
                assert(q[m + 1] == x);
            }
        }
    }
}

/// The scored places among the first `n`, ranked.
pub open spec fn ranking_upto(cur: Seq<(usize, Option<u64>)>, n: int) -> Seq<int>
    decreases n,
{
    if n <= 0 {
        Seq::empty()
    } else if cur[n - 1].1 is Some {
        insert_ranked(cur, ranking_upto(cur, n - 1), n - 1)
    } else {
        ranking_upto(cur, n - 1)
    }
}

proof fn lemma_ranking_upto(cur: Seq<(usize, Option<u64>)>, n: int)
    requires
        0 <= n <= cur.len(),
    ensures
        ranked(cur, ranking_upto(cur, n)),
        forall|x: int| #[trigger]
            ranking_upto(cur, n).contains(x) <==> (0 <= x < n && cur[x].1 is Some),
    decreases n,
{
    if n > 0 {
        lemma_ranking_upto(cur, n - 1);
        let r = ranking_upto(cur, n - 1);
        if cur[n - 1].1 is Some {
            lemma_insert_ranked(cur, r, n - 1);
        }
    }
}

/// Every rung has a promotion order: `score_order` lists each scored place
/// once, best first.
pub proof fn lemma_score_order_exists(cur: Seq<(usize, Option<u64>)>)
    ensures
        is_score_order(cur, score_order(cur)),
{
    lemma_ranking_upto(cur, cur.len() as int);
    let r = ranking_upto(cur, cur.len() as int);
    assert(is_score_order(cur, r));
}

/// Promotion keeps the best: when a rung is over, the configurations that
/// go on are, in promotion order, the first `promoted_count` of the scored
/// ones; each has a score no worse than that of any scored configuration
/// left behind, and no unscored configuration goes on.
pub proof fn lemma_sh_promotes_best(v: ShView)
    requires
        v.pending.len() == 0,
        v.rung + 1 < v.budgets.len(),
    ensures
        sh_promoted(v).rung == (v.rung + 1) as usize,
        sh_promoted(v).current.len() == promoted_count(v),
        forall|a: int|
            0 <= a < promoted_count(v) ==> 0 <= #[trigger] score_order(v.current)[a] < v.current.len()
                && v.current[score_order(v.current)[a]].1 is Some && sh_promoted(v).current[a] == (
                v.current[score_order(v.current)[a]].0,
                None::<u64>,
            ),
        forall|a: int, j: int|
            #![trigger score_order(v.current)[a], v.current[j]]
            0 <= a < promoted_count(v) && 0 <= j < v.current.len() && v.current[j].1 is Some
                && !score_order(v.current).take(promoted_count(v)).contains(j)
                ==> v.current[score_order(v.current)[a]].1->Some_0 <= v.current[j].1->Some_0,
{
    let cur = v.current;
    lemma_score_order_exists(cur);
    let order = score_order(cur);
    let n = promoted_count(v);
    let w = sh_promoted(v);
    let kept = order.take(n).map_values(|i: int| (cur[i].0, None::<u64>));
    assert(w.current == kept);
    assert(kept.len() == n);
    assert forall|a: int| 0 <= a < n implies 0 <= #[trigger] order[a] < cur.len()
        && cur[order[a]].1 is Some && w.current[a] == (cur[order[a]].0, None::<u64>) by {
        assert(order.take(n)[a] == order[a]);
    }
    assert forall|a: int, j: int|
        #![trigger order[a], cur[j]]
        0 <= a < n && 0 <= j < cur.len() && cur[j].1 is Some && !order.take(n).contains(j)
            implies cur[order[a]].1->Some_0 <= cur[j].1->Some_0 by {
        assert(order.contains(j));
        let b = choose|b: int| 0 <= b < order.len() && order[b] == j;
        if b < n {
            assert(order.take(n)[b] == j);
        }
        assert(ranks_before(cur, order[a], order[b]));
    }
}

} // verus!
