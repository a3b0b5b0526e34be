//! Trial records and the tabular view of them: one row per record, under
//! headers in a fixed order.

use vstd::prelude::*;

use crate::command::template::{names_from, render_from, CommandTemplate, TemplateError};
use crate::fields::{entries_map, keys_distinct, lemma_entries_map, FieldMap};
use crate::text::{
    concat_str, decimal, has_prefix, insert_sorted, lemma_sorted_set_contents, lemma_sorted_set_is,
    parse_usize, parsed_usize,
    parse_usize_spec, sorted_set, str_eq, str_starts_with, strictly_sorted, u128_text, usize_text,
    views,
};
use crate::trial::insert_absent;

verus! {

/// The state of a trial.
#[derive(Debug, Clone, Copy, PartialEq, Eq, Structural)]
pub enum TrialStatus {
    Running,
    Completed,
    Error,
}

/// The text of a status.
pub open spec fn status_text(s: TrialStatus) -> Seq<char> {
    match s {
        TrialStatus::Running => "running"@,
        TrialStatus::Completed => "ok"@,
        TrialStatus::Error => "error"@,
    }
}

/// The status a text names.
pub open spec fn status_of(t: Seq<char>) -> Option<TrialStatus> {
    if t == "running"@ {
        Some(TrialStatus::Running)
    } else if t == "ok"@ {
        Some(TrialStatus::Completed)
    } else if t == "error"@ {
        Some(TrialStatus::Error)
    } else {
        None
    }
}

impl TrialStatus {
    /// `running`, `ok` or `error`.
    pub fn as_str(&self) -> (r: &'static str)
        ensures
            r@ == status_text(*self),
    {
        match self {
            TrialStatus::Running => "running",
            TrialStatus::Completed => "ok",
            TrialStatus::Error => "error",
        }
    }

    /// The status a text names, if any.
    pub fn parse(value: &str) -> (r: Option<Self>)
        ensures
            r == status_of(value@),
    {
        if str_eq(value, "running") {
            Some(TrialStatus::Running)
        } else if str_eq(value, "ok") {
            Some(TrialStatus::Completed)
        } else if str_eq(value, "error") {
            Some(TrialStatus::Error)
        } else {
            None
        }
    }
}

impl core::str::FromStr for TrialStatus {
    type Err = ();

    fn from_str(value: &str) -> (r: Result<Self, Self::Err>)
        ensures
            r == (match status_of(value@) {
                Some(s) => Ok::<TrialStatus, ()>(s),
                None => Err(()),
            }),
    {
        match TrialStatus::parse(value) {
            Some(s) => Ok(s),
            None => Err(()),
        }
    }
}

/// A recorded trial.
#[derive(Debug)]
pub struct TrialRecord {
    pub trial_id: usize,
    pub status: TrialStatus,
    pub elapsed_ms: u128,
    pub error: Option<String>,
    pub fields: FieldMap,
}

/// A placeholder value recovered from a recorded row, with the column it
/// came from.
#[derive(Debug, Clone)]
pub struct PlaceholderValue {
    pub name: String,
    pub value: String,
    pub source: String,
}

/// The text of an optional string.
pub open spec fn opt_view(o: Option<String>) -> Option<Seq<char>> {
    match o {
        Some(s) => Some(s@),
        None => None,
    }
}

/// The fields of a record stamped with `now` as `trial.time` unless it has
/// a time already.
pub open spec fn timed_fields(fields: Map<Seq<char>, Seq<char>>, now: Seq<char>) -> Map<
    Seq<char>,
    Seq<char>,
> {
    insert_absent(fields, "trial.time"@, now)
}

/// The record stamped with `now` as its time unless it has one.
pub fn record_with_time(record: &TrialRecord, now: &str) -> (r: TrialRecord)
    ensures
        r.trial_id == record.trial_id,
        r.status == record.status,
        r.elapsed_ms == record.elapsed_ms,
        opt_view(r.error) == opt_view(record.error),
        r.fields@ == timed_fields(record.fields@, now@),
{
    let mut fields = record.fields.clone();
    fields.insert_if_absent("trial.time".to_owned(), now.to_owned());
    let error = match &record.error {
        Some(e) => Some(e.clone()),
        None => None,
    };
    TrialRecord {
        trial_id: record.trial_id,
        status: record.status,
        elapsed_ms: record.elapsed_ms,
        error,
        fields,
    }
}

/// The row of a record: its id, status, elapsed time and error, with its
/// (time-stamped) fields over them.
pub open spec fn record_row(
    trial_id: usize,
    status: TrialStatus,
    elapsed_ms: u128,
    error: Option<Seq<char>>,
    fields: Map<Seq<char>, Seq<char>>,
    now: Seq<char>,
) -> Map<Seq<char>, Seq<char>> {
    let base = Map::<Seq<char>, Seq<char>>::empty().insert("trial_id"@, decimal(trial_id as nat)).insert(
        "status"@,
        status_text(status),
    ).insert("elapsed_ms"@, decimal(elapsed_ms as nat));
    let with_error = match error {
        Some(e) => base.insert("error"@, e),
        None => base,
    };
    with_error.union_prefer_right(timed_fields(fields, now))
}

/// The row of a record.
pub fn record_to_map(record: &TrialRecord, now: &str) -> (r: FieldMap)
    ensures
        r@ == record_row(
            record.trial_id,
            record.status,
            record.elapsed_ms,
            opt_view(record.error),
            record.fields@,
            now@,
        ),
{
    let timed = record_with_time(record, now);
    let mut map = FieldMap::new();
    map.insert("trial_id".to_owned(), usize_text(record.trial_id));
    map.insert("status".to_owned(), record.status.as_str().to_owned());
    map.insert("elapsed_ms".to_owned(), u128_text(record.elapsed_ms));
    match &record.error {
        Some(e) => {
            map.insert("error".to_owned(), e.clone());
        },
        None => {},
    }
    map.extend_from(&timed.fields);
    map
}

/// A key is a hyperparameter field.
pub open spec fn is_hp_key(k: Seq<char>) -> bool {
    has_prefix(k, "hp."@)
}

/// The hyperparameter fields of `m`.
pub open spec fn hp_only(m: Map<Seq<char>, Seq<char>>) -> Map<Seq<char>, Seq<char>> {
    Map::new(|k: Seq<char>| m.contains_key(k) && is_hp_key(k), |k: Seq<char>| m[k])
}

/// The hyperparameter (`hp.`) fields.
pub fn hp_fields(fields: &FieldMap) -> (r: FieldMap)
    ensures
        r@ == hp_only(fields@),
{
    let ps = fields.entries();
    let mut out = FieldMap::new();
    let mut i: usize = 0;
    while i < ps.len()
        invariant
            i <= ps@.len(),
            entries_map(ps@) == fields@,
            keys_distinct(ps@),
            out@ == hp_only(entries_map(ps@.take(i as int))),
        decreases ps@.len() - i,
    {
        let ghost prev = entries_map(ps@.take(i as int));
        proof {
            assert(ps@.take(i + 1).drop_last() =~= ps@.take(i as int));
            assert(keys_distinct(ps@.take(i as int)));
            lemma_entries_map(ps@.take(i as int));
            assert(!prev.contains_key(ps@[i as int].0@)) by {
                if prev.contains_key(ps@[i as int].0@) {
                    let j = choose|j: int|
                        0 <= j < ps@.take(i as int).len() && ps@.take(i as int)[j].0@ == ps@[i
                            as int].0@;
                    assert(ps@[j].0@ == ps@[i as int].0@);
                }
            }
        }
        if str_starts_with(ps[i].0.as_str(), "hp.") {
            out.insert(ps[i].0.clone(), ps[i].1.clone());
        }
        proof {
            assert(out@ =~= hp_only(entries_map(ps@.take(i + 1))));
        }
        i = i + 1;
    }
    proof {
        assert(ps@.take(ps@.len() as int) =~= ps@);
    }
    out
}

/// `row` with an empty value under each header it lacks.
pub open spec fn filled(row: Map<Seq<char>, Seq<char>>, headers: Seq<Seq<char>>) -> Map<
    Seq<char>,
    Seq<char>,
>
    decreases headers.len(),
{
    if headers.len() == 0 {
        row
    } else {
        insert_absent(filled(row, headers.drop_last()), headers.last(), Seq::empty())
    }
}

/// Give the row an empty value under each header it lacks.
pub fn fill_row(row: FieldMap, headers: &[String]) -> (r: FieldMap)
    ensures
        r@ == filled(row@, views(headers@)),
{
    let mut row = row;
    let ghost r0 = row@;
    let mut i: usize = 0;
    while i < headers.len()
        invariant
            i <= headers@.len(),
            row@ == filled(r0, views(headers@).take(i as int)),
        decreases headers@.len() - i,
    {
        row.insert_if_absent(headers[i].clone(), String::new());
        proof {
            assert(views(headers@).take(i + 1).drop_last() =~= views(headers@).take(i as int));
        }
        i = i + 1;
    }
    proof {
        assert(views(headers@).take(headers@.len() as int) =~= views(headers@));
    }
    row
}

/// The values of a row in header order, empty where the row has none.
pub fn row_values(row: &FieldMap, headers: &[String]) -> (r: Vec<String>)
    ensures
        r@.len() == headers@.len(),
        forall|i: int|
            0 <= i < headers@.len() ==> #[trigger] r@[i]@ == (if row@.contains_key(headers@[i]@) {
                row@[headers@[i]@]
            } else {
                Seq::<char>::empty()
            }),
{
    let mut r: Vec<String> = Vec::new();
    let mut i: usize = 0;
    while i < headers.len()
        invariant
            i <= headers@.len(),
            r@.len() == i,
            forall|j: int|
                0 <= j < i ==> #[trigger] r@[j]@ == (if row@.contains_key(headers@[j]@) {
                    row@[headers@[j]@]
                } else {
                    Seq::<char>::empty()
                }),
        decreases headers@.len() - i,
    {
        match row.get(headers[i].as_str()) {
            Some(v) => r.push(v.clone()),
            None => r.push(String::new()),
        }
        i = i + 1;
    }
    r
}

/// The id the next new trial gets: one past the largest recorded id, or
/// zero when none is recorded.
pub fn next_trial_id_after(max_id: Option<usize>) -> (r: usize)
    requires
        max_id != Some(usize::MAX),
    ensures
        r == (match max_id {
            Some(m) => m + 1,
            None => 0,
        }),
{
    match max_id {
        Some(m) => m + 1,
        None => 0,
    }
}

/// What to do with the configuration text recorded for a project.
#[derive(Debug, Clone, Copy, PartialEq, Eq)]
pub enum ConfigAction {
    /// The recorded text is current; nothing to write.
    Keep,
    /// Record the current text.
    Save,
    /// The configuration changed under recorded trials; refuse to resume.
    Refuse,
}

/// How the recorded configuration text meets the current one: nothing
/// recorded yet, or a change allowed by the caller or made before any trial
/// was recorded, is saved; the same text is kept; any other change is
/// refused.
pub fn project_config_action(
    stored: Option<&str>,
    current: &str,
    allow_override: bool,
    has_trials: bool,
) -> (r: ConfigAction)
    ensures
        r == (match stored {
            None => ConfigAction::Save,
            Some(s) => if s@ == current@ {
                ConfigAction::Keep
            } else if allow_override || !has_trials {
                ConfigAction::Save
            } else {
                ConfigAction::Refuse
            },
        }),
{
    match stored {
        None => ConfigAction::Save,
        Some(s) => {
            if str_eq(s, current) {
                ConfigAction::Keep
            } else if allow_override || !has_trials {
                ConfigAction::Save
            } else {
                ConfigAction::Refuse
            }
        },
    }
}

/// The columns every table has.
pub open spec fn fixed_columns() -> Set<Seq<char>> {
    set!["trial_id"@, "status"@, "elapsed_ms"@, "error"@, "metric"@, "score"@]
}

/// The trial columns placed right after `trial_id` and `status`.
pub open spec fn placed_trial_column(k: Seq<char>) -> bool {
    k == "trial.time"@ || k == "trial.budget_total"@ || k == "trial.budget_step"@
}

/// The group of a column: metrics (`metric.`/`model.`) 0, trial fields
/// (`trial.`, except the placed ones) 1, others 2, hyperparameters (`hp.`) 3,
/// and the fixed and placed columns 4.
pub open spec fn column_group(k: Seq<char>) -> int {
    if has_prefix(k, "metric."@) || has_prefix(k, "model."@) {
        0
    } else if has_prefix(k, "trial."@) {
        if placed_trial_column(k) {
            4
        } else {
            1
        }
    } else if has_prefix(k, "hp."@) {
        3
    } else if fixed_columns().contains(k) {
        4
    } else {
        2
    }
}

/// The columns of group `g` among the first `n` of `s`, in order.
pub open spec fn group_columns(s: Seq<Seq<char>>, g: int, n: int) -> Seq<Seq<char>>
    decreases n,
{
    if n <= 0 {
        Seq::empty()
    } else if column_group(s[n - 1]) == g {
        group_columns(s, g, n - 1).push(s[n - 1])
    } else {
        group_columns(s, g, n - 1)
    }
}

/// The optional column `k`, when the key set has it.
pub open spec fn column_if(keys: Set<Seq<char>>, k: Seq<char>) -> Seq<Seq<char>> {
    if keys.contains(k) {
        seq![k]
    } else {
        Seq::empty()
    }
}

/// The header order of a table with the given keys: `trial_id`, the time,
/// `status`, the budget columns, `elapsed_ms`, `error`, `metric`, `score`,
/// then the metric, trial, other and hyperparameter columns, each group in
/// increasing order.
pub open spec fn headers_for(keys: Set<Seq<char>>) -> Seq<Seq<char>> {
    let all = keys.union(fixed_columns());
    let sorted = sorted_set(all);
    let n = sorted.len() as int;
    seq!["trial_id"@] + column_if(all, "trial.time"@) + seq!["status"@] + column_if(
        all,
        "trial.budget_total"@,
    ) + column_if(all, "trial.budget_step"@) + seq!["elapsed_ms"@, "error"@, "metric"@, "score"@]
        + group_columns(sorted, 0, n) + group_columns(sorted, 1, n) + group_columns(sorted, 2, n)
        + group_columns(sorted, 3, n)
}

/// The group of a column.
fn column_group_of(k: &str) -> (r: u8)
    ensures
        r as int == column_group(k@),
{
    if str_starts_with(k, "metric.") || str_starts_with(k, "model.") {
        0
    } else if str_starts_with(k, "trial.") {
        if str_eq(k, "trial.time") || str_eq(k, "trial.budget_total") || str_eq(
            k,
            "trial.budget_step",
        ) {
            4
        } else {
            1
        }
    } else if str_starts_with(k, "hp.") {
        3
    } else if str_eq(k, "trial_id") || str_eq(k, "status") || str_eq(k, "elapsed_ms") || str_eq(
        k,
        "error",
    ) || str_eq(k, "metric") || str_eq(k, "score") {
        4
    } else {
        2
    }
}

/// Append the column `k` when `set` has it.
fn push_if_present(out: &mut Vec<String>, set: &Vec<String>, k: &str)
    ensures
        views(final(out)@) == views(old(out)@) + (if views(set@).contains(k@) {
            seq![k@]
        } else {
            Seq::empty()
        }),
{
    let ghost before = views(out@);
    let mut i: usize = 0;
    while i < set.len()
        invariant
            i <= set@.len(),
            forall|j: int| 0 <= j < i ==> #[trigger] views(set@)[j] != k@,
            views(out@) == before,
            before == views(old(out)@),
        decreases set@.len() - i,
    {
        if str_eq(set[i].as_str(), k) {
            let ghost prev = out@;
            let kk = k.to_owned();
            out.push(kk);
            proof {
                assert(views(set@)[i as int] == k@);
                assert(views(set@).contains(k@));
                assert(out@ == prev.push(kk));
                assert(views(out@) =~= before + seq![k@]);
            }
            return;
        }
        i = i + 1;
    }
    proof {
        assert(!views(set@).contains(k@));
        assert(views(out@) =~= before + Seq::<Seq<char>>::empty());
    }
}

/// Append one column.
fn push_one(out: &mut Vec<String>, k: &str)
    ensures
        views(final(out)@) == views(old(out)@).push(k@),
{
    let ghost prev = out@;
    let kk = k.to_owned();
    out.push(kk);
    assert(views(out@) =~= views(prev).push(k@));
}

/// Append the elements of `v`.
fn push_all(out: &mut Vec<String>, v: Vec<String>)
    ensures
        views(final(out)@) == views(old(out)@) + views(v@),
{
    let ghost before = views(out@);
    let mut v = v;
    let ghost vv = views(v@);
    let mut i: usize = 0;
    while i < v.len()
        invariant
            i <= v@.len(),
            vv == views(v@),
            views(out@) == before + vv.take(i as int),
        decreases v@.len() - i,
    {
        let ghost prev = out@;
        let x = v[i].clone();
        out.push(x);
        proof {
            assert(out@ == prev.push(x));
            assert(views(out@) =~= views(prev).push(vv[i as int]));
            assert(vv.take(i + 1) =~= vv.take(i as int).push(vv[i as int]));
            assert(views(out@) =~= before + vv.take(i + 1));
        }
        i = i + 1;
    }
    proof {
        assert(vv.take(v@.len() as int) =~= vv);
    }
}

/// A concatenation holds what either part holds.
proof fn lemma_concat_contains(a: Seq<Seq<char>>, b: Seq<Seq<char>>, x: Seq<char>)
    ensures
        (a + b).contains(x) <==> (a.contains(x) || b.contains(x)),
{
    if (a + b).contains(x) {
        let i = choose|i: int| 0 <= i < (a + b).len() && (a + b)[i] == x;
        if i < a.len() {
            assert(a[i] == x);
        } else {
            assert(b[i - a.len()] == x);
        }
    }
    if a.contains(x) {
        let i = choose|i: int| 0 <= i < a.len() && a[i] == x;
        assert((a + b)[i] == x);
    }
    if b.contains(x) {
        let i = choose|i: int| 0 <= i < b.len() && b[i] == x;
        assert((a + b)[a.len() + i] == x);
    }
}

/// Group `g` among the first `n` columns of `s` holds exactly those of
/// them in group `g`.
proof fn lemma_group_columns_contains(s: Seq<Seq<char>>, g: int, n: int, x: Seq<char>)
    requires
        0 <= n <= s.len(),
    ensures
        group_columns(s, g, n).contains(x) <==> (column_group(x) == g && s.take(n).contains(x)),
    decreases n,
{
    if n > 0 {
        lemma_group_columns_contains(s, g, n - 1, x);
        assert(s.take(n) =~= s.take(n - 1).push(s[n - 1]));
        let prev = group_columns(s, g, n - 1);
        if column_group(s[n - 1]) == g {
            assert(group_columns(s, g, n) == prev.push(s[n - 1]));
            let pp = prev.push(s[n - 1]);
            if pp.contains(x) && x != s[n - 1] {
                let i = choose|i: int| 0 <= i < pp.len() && pp[i] == x;
                assert(prev[i] == x);
            }
            if prev.contains(x) {
                let i = choose|i: int| 0 <= i < prev.len() && prev[i] == x;
                assert(prev.push(s[n - 1])[i] == x);
            }
            assert(prev.push(s[n - 1])[prev.len() as int] == s[n - 1]);
        }
        let tn = s.take(n);
        let tp = s.take(n - 1);
        if tn.contains(x) && x != s[n - 1] {
            let i = choose|i: int| 0 <= i < tn.len() && tn[i] == x;
            assert(tp[i] == x);
        }
        if tp.contains(x) {
            let i = choose|i: int| 0 <= i < tp.len() && tp[i] == x;
            assert(tn[i] == x);
        }
        assert(tn[n - 1] == s[n - 1]);
    }
}

/// The table header holds exactly the keys of its rows and the fixed
/// columns, so a header rebuilt after rows bring new keys is a superset of
/// the old one.
pub proof fn lemma_headers_cover_keys(keys: Set<Seq<char>>)
    requires
        keys.finite(),
    ensures
        forall|x: Seq<char>| #[trigger]
            headers_for(keys).contains(x) <==> keys.union(fixed_columns()).contains(x),
{
    let all = keys.union(fixed_columns());
    assert(fixed_columns().finite());
    lemma_sorted_set_contents(all);
    let sorted = sorted_set(all);
    let n = sorted.len() as int;
    assert(sorted.take(n) =~= sorted);
    let fixed_part = seq!["trial_id"@] + column_if(all, "trial.time"@) + seq!["status"@]
        + column_if(all, "trial.budget_total"@) + column_if(all, "trial.budget_step"@) + seq![
        "elapsed_ms"@,
        "error"@,
        "metric"@,
        "score"@,
    ];
    let g1 = group_columns(sorted, 1, n);
    let g0 = group_columns(sorted, 0, n);
    let g2 = group_columns(sorted, 2, n);
    let g3 = group_columns(sorted, 3, n);
    assert(headers_for(keys) == fixed_part + g0 + g1 + g2 + g3);
    assert forall|x: Seq<char>| #[trigger]
        headers_for(keys).contains(x) <==> all.contains(x) by {
        lemma_concat_contains(fixed_part + g0 + g1 + g2, g3, x);
        lemma_concat_contains(fixed_part + g0 + g1, g2, x);
        lemma_concat_contains(fixed_part + g0, g1, x);
        lemma_concat_contains(fixed_part, g0, x);
        let a1 = seq!["trial_id"@] + column_if(all, "trial.time"@);
        let a2 = a1 + seq!["status"@];
        let a3 = a2 + column_if(all, "trial.budget_total"@);
        let a4 = a3 + column_if(all, "trial.budget_step"@);
        let tail = seq!["elapsed_ms"@, "error"@, "metric"@, "score"@];
        lemma_concat_contains(a4, tail, x);
        lemma_concat_contains(a3, column_if(all, "trial.budget_step"@), x);
        lemma_concat_contains(a2, column_if(all, "trial.budget_total"@), x);
        lemma_concat_contains(a1, seq!["status"@], x);
        lemma_concat_contains(seq!["trial_id"@], column_if(all, "trial.time"@), x);
        lemma_group_columns_contains(sorted, 0, n, x);
        lemma_group_columns_contains(sorted, 1, n, x);
        lemma_group_columns_contains(sorted, 2, n, x);
        lemma_group_columns_contains(sorted, 3, n, x);
        if tail.contains(x) {
            let i = choose|i: int| 0 <= i < tail.len() && tail[i] == x;
        }
        if all.contains(x) && column_group(x) == 4 {
            if placed_trial_column(x) {
                if x == "trial.time"@ {
                    assert(column_if(all, "trial.time"@)[0] == x);
                } else if x == "trial.budget_total"@ {
                    assert(column_if(all, "trial.budget_total"@)[0] == x);
                } else {
                    assert(column_if(all, "trial.budget_step"@)[0] == x);
                }
            } else {
                assert(fixed_columns().contains(x));
                if x == "trial_id"@ {
                    assert(seq!["trial_id"@][0] == x);
                } else if x == "status"@ {
                    assert(seq!["status"@][0] == x);
                } else if x == "elapsed_ms"@ {
                    assert(tail[0] == x);
                } else if x == "error"@ {
                    assert(tail[1] == x);
                } else if x == "metric"@ {
                    assert(tail[2] == x);
                } else {
                    assert(tail[3] == x);
                }
            }
        }
    }
}

/// The table headers for rows with the given keys (see `headers_for`).
pub fn ordered_headers(keys: &[String]) -> (r: Vec<String>)
    ensures
        views(r@) == headers_for(views(keys@).to_set()),
{
    let ghost all = views(keys@).to_set().union(fixed_columns());
    let mut set: Vec<String> = Vec::new();
    let mut i: usize = 0;
    while i < keys.len()
        invariant
            i <= keys@.len(),
            strictly_sorted(views(set@)),
            forall|x: Seq<char>| #[trigger]
                views(set@).contains(x) <==> views(keys@).take(i as int).contains(x),
        decreases keys@.len() - i,
    {
        insert_sorted(&mut set, keys[i].clone());
        proof {
            assert forall|x: Seq<char>| #[trigger]
                views(set@).contains(x) <==> views(keys@).take(i + 1).contains(x) by {
                let t1 = views(keys@).take(i + 1);
                let t0 = views(keys@).take(i as int);
                assert(t1 =~= t0.push(keys@[i as int]@));
                if t1.contains(x) {
                    let k = choose|k: int| 0 <= k < t1.len() && #[trigger] t1[k] == x;
                    if k < i {
                        assert(t0[k] == x);
                    }
                }
                if t0.contains(x) {
                    let k = choose|k: int| 0 <= k < t0.len() && #[trigger] t0[k] == x;
                    assert(t1[k] == x);
                }
                if x == keys@[i as int]@ {
                    assert(t1[i as int] == x);
                }
            }
        }
        i = i + 1;
    }
    proof {
        assert(views(keys@).take(keys@.len() as int) =~= views(keys@));
    }
    insert_sorted(&mut set, "trial_id".to_owned());
    insert_sorted(&mut set, "status".to_owned());
    insert_sorted(&mut set, "elapsed_ms".to_owned());
    insert_sorted(&mut set, "error".to_owned());
    insert_sorted(&mut set, "metric".to_owned());
    insert_sorted(&mut set, "score".to_owned());
    proof {
        assert forall|x: Seq<char>| #[trigger] views(set@).contains(x) <==> all.contains(x) by {}
        lemma_sorted_set_is(views(set@), all);
    }
    let ghost sorted = views(set@);
    let ghost n = sorted.len() as int;
    let mut metric: Vec<String> = Vec::new();
    let mut trial: Vec<String> = Vec::new();
    let mut other: Vec<String> = Vec::new();
    let mut hp: Vec<String> = Vec::new();
    let mut j: usize = 0;
    while j < set.len()
        invariant
            j <= set@.len(),
            sorted == views(set@),
            views(metric@) == group_columns(sorted, 0, j as int),
            views(trial@) == group_columns(sorted, 1, j as int),
            views(other@) == group_columns(sorted, 2, j as int),
            views(hp@) == group_columns(sorted, 3, j as int),
        decreases set@.len() - j,
    {
        let g = column_group_of(set[j].as_str());
        let k = set[j].clone();
        let ghost kv = sorted[j as int];
        if g == 0 {
            let ghost b = views(metric@);
            metric.push(k);
            assert(views(metric@) =~= b.push(kv));
        } else if g == 1 {
            let ghost b = views(trial@);
            trial.push(k);
            assert(views(trial@) =~= b.push(kv));
        } else if g == 2 {
            let ghost b = views(other@);
            other.push(k);
            assert(views(other@) =~= b.push(kv));
        } else if g == 3 {
            let ghost b = views(hp@);
            hp.push(k);
            assert(views(hp@) =~= b.push(kv));
        }
        j = j + 1;
    }
    let mut headers: Vec<String> = Vec::new();
    push_one(&mut headers, "trial_id");
    push_if_present(&mut headers, &set, "trial.time");
    push_one(&mut headers, "status");
    push_if_present(&mut headers, &set, "trial.budget_total");
    push_if_present(&mut headers, &set, "trial.budget_step");
    push_one(&mut headers, "elapsed_ms");
    push_one(&mut headers, "error");
    push_one(&mut headers, "metric");
    push_one(&mut headers, "score");
    let ghost head = views(headers@);
    push_all(&mut headers, metric);
    push_all(&mut headers, trial);
    push_all(&mut headers, other);
    push_all(&mut headers, hp);
    proof {
        assert(head =~= seq!["trial_id"@] + column_if(all, "trial.time"@) + seq!["status"@]
            + column_if(all, "trial.budget_total"@) + column_if(all, "trial.budget_step"@) + seq![
            "elapsed_ms"@,
            "error"@,
            "metric"@,
            "score"@,
        ]);
        assert(views(headers@) =~= headers_for(views(keys@).to_set()));
    }
    headers
}

/// The value of a placeholder in a recorded row, with its column: the
/// placeholder itself, else `trial.<name>`, else `hp.<name>`.
pub open spec fn placeholder_lookup(row: Map<Seq<char>, Seq<char>>, name: Seq<char>) -> Option<
    (Seq<char>, Seq<char>),
> {
    if row.contains_key(name) {
        Some((row[name], name))
    } else if row.contains_key("trial."@ + name) {
        Some((row["trial."@ + name], "trial."@ + name))
    } else if row.contains_key("hp."@ + name) {
        Some((row["hp."@ + name], "hp."@ + name))
    } else {
        None
    }
}

/// The value of a placeholder in a recorded row, with its column.
pub fn value_for_placeholder(row: &FieldMap, placeholder: &str) -> (r: Option<(String, String)>)
    ensures
        match placeholder_lookup(row@, placeholder@) {
            Some((v, src)) => r matches Some((a, b)) && a@ == v && b@ == src,
            None => r is None,
        },
{
    match row.get(placeholder) {
        Some(v) => {
            return Some((v.clone(), placeholder.to_owned()));
        },
        None => {},
    }
    let trial_key = concat_str("trial.", placeholder);
    match row.get(trial_key.as_str()) {
        Some(v) => {
            return Some((v.clone(), trial_key));
        },
        None => {},
    }
    let hp_key = concat_str("hp.", placeholder);
    match row.get(hp_key.as_str()) {
        Some(v) => Some((v.clone(), hp_key)),
        None => None,
    }
}


/// The row of a record, as a map.
pub open spec fn row_of(rec: TrialRecord, now: Seq<char>) -> Map<Seq<char>, Seq<char>> {
    record_row(rec.trial_id, rec.status, rec.elapsed_ms, opt_view(rec.error), rec.fields@, now)
}

/// The keys of the first `n` rows.
pub open spec fn rows_keys(rows: Seq<Map<Seq<char>, Seq<char>>>, n: int) -> Set<Seq<char>>
    decreases n,
{
    if n <= 0 {
        Set::empty()
    } else {
        rows_keys(rows, n - 1).union(rows[n - 1].dom())
    }
}

/// The rows of records before filling.
pub open spec fn raw_rows(records: Seq<TrialRecord>, now: Seq<char>) -> Seq<Map<Seq<char>, Seq<char>>> {
    records.map_values(|rec: TrialRecord| row_of(rec, now))
}

/// The maps of a list of field maps.
pub open spec fn maps_of(v: Seq<FieldMap>) -> Seq<Map<Seq<char>, Seq<char>>> {
    v.map_values(|m: FieldMap| m@)
}

/// The table of records: its headers, and each record's row filled out to
/// the headers.
pub fn rows_with_headers(records: &[TrialRecord], now: &str) -> (r: (Vec<String>, Vec<FieldMap>))
    ensures
        ({
            let raw = raw_rows(records@, now@);
            let hs = headers_for(rows_keys(raw, raw.len() as int));
            &&& views(r.0@) == hs
            &&& r.1@.len() == records@.len()
            &&& forall|i: int| 0 <= i < records@.len() ==> #[trigger] r.1@[i]@ == filled(raw[i], hs)
        }),
{
    let ghost raw = raw_rows(records@, now@);
    let mut maps: Vec<FieldMap> = Vec::new();
    let mut keys: Vec<String> = Vec::new();
    let mut i: usize = 0;
    while i < records.len()
        invariant
            i <= records@.len(),
            raw == raw_rows(records@, now@),
            maps@.len() == i,
            forall|j: int| 0 <= j < i ==> #[trigger] maps@[j]@ == raw[j],
            forall|x: Seq<char>| #[trigger] views(keys@).contains(x) <==> rows_keys(raw, i as int).contains(x),
        decreases records@.len() - i,
    {
        let m = record_to_map(&records[i], now);
        let ks = m.keys();
        let ghost before = views(keys@);
        let mut q: usize = 0;
        while q < ks.len()
            invariant
                q <= ks@.len(),
                views(keys@) == before + views(ks@).take(q as int),
            decreases ks@.len() - q,
        {
            let ghost prev = keys@;
            let x = ks[q].clone();
            keys.push(x);
            proof {
                assert(views(keys@) =~= views(prev).push(views(ks@)[q as int]));
                assert(views(ks@).take(q + 1) =~= views(ks@).take(q as int).push(views(ks@)[q as int]));
            }
            q = q + 1;
        }
        proof {
            assert(views(ks@).take(ks@.len() as int) =~= views(ks@));
            assert(m@ == raw[i as int]);
            let all = views(keys@);
            assert(all =~= before + views(ks@));
            assert(rows_keys(raw, i + 1) == rows_keys(raw, i as int).union(raw[i as int].dom()));
            assert forall|x: Seq<char>| all.contains(x) implies rows_keys(raw, i + 1).contains(x) by {
                let w = choose|w: int| 0 <= w < all.len() && all[w] == x;
                if w >= before.len() {
                    assert(views(ks@)[w - before.len()] == x);
                    assert(ks@[w - before.len()]@ == x);
                    assert(m@.contains_key(x));
                } else {
                    assert(before[w] == x);
                    assert(before.contains(x));
                }
            }
            assert forall|x: Seq<char>| rows_keys(raw, i + 1).contains(x) implies all.contains(x) by {
                if rows_keys(raw, i as int).contains(x) {
                    assert(before.contains(x));
                    let w = choose|w: int| 0 <= w < before.len() && before[w] == x;
                    assert(all[w] == x);
                } else {
                    assert(m@.contains_key(x));
                    let w = choose|w: int| 0 <= w < ks@.len() && ks@[w]@ == x;
                    assert(all[before.len() + w] == x);
                }
            }
        }
        maps.push(m);
        i = i + 1;
    }
    let headers = ordered_headers(&keys);
    proof {
        assert(views(keys@).to_set() =~= rows_keys(raw, raw.len() as int)) by {
            assert forall|x: Seq<char>| views(keys@).to_set().contains(x) <==> rows_keys(raw, raw.len() as int).contains(x) by {
                assert(views(keys@).contains(x) <==> rows_keys(raw, raw.len() as int).contains(x));
            }
        }
    }
    let mut rows: Vec<FieldMap> = Vec::new();
    let mut maps = maps;
    let ghost hs = views(headers@);
    let mut j: usize = 0;
    while j < maps.len()
        invariant
            j <= maps@.len(),
            maps@.len() == records@.len(),
            hs == views(headers@),
            forall|k: int| 0 <= k < maps@.len() ==> #[trigger] maps@[k]@ == raw[k],
            rows@.len() == j,
            forall|k: int| 0 <= k < j ==> #[trigger] rows@[k]@ == filled(raw[k], hs),
        decreases maps@.len() - j,
    {
        let m = maps[j].clone();
        rows.push(fill_row(m, &headers));
        j = j + 1;
    }
    (headers, rows)
}

/// The value of a field parsed as a `usize`.
pub open spec fn field_usize(row: Map<Seq<char>, Seq<char>>, key: Seq<char>) -> Option<usize> {
    if row.contains_key(key) {
        crate::text::parsed_usize(row[key])
    } else {
        None
    }
}

/// A field parsed as a `usize`.
fn get_usize(row: &FieldMap, key: &str) -> (r: Option<usize>)
    ensures
        r == field_usize(row@, key@),
{
    match row.get(key) {
        Some(v) => parse_usize(v.as_str()),
        None => None,
    }
}

/// The index of the first row at or after `i` whose `trial_id` is `id`.
pub open spec fn row_index_for(rows: Seq<Map<Seq<char>, Seq<char>>>, id: usize, i: int) -> Option<int>
    decreases rows.len() - i,
{
    if i < 0 || i >= rows.len() {
        None
    } else if field_usize(rows[i], "trial_id"@) == Some(id) {
        Some(i)
    } else {
        row_index_for(rows, id, i + 1)
    }
}

proof fn lemma_row_index_bounds(rows: Seq<Map<Seq<char>, Seq<char>>>, id: usize, i: int)
    requires
        0 <= i,
    ensures
        row_index_for(rows, id, i) matches Some(j) ==> i <= j < rows.len(),
    decreases rows.len() - i,
{
    if i < rows.len() && field_usize(rows[i], "trial_id"@) != Some(id) {
        lemma_row_index_bounds(rows, id, i + 1);
    }
}

/// The first row whose `trial_id` is `trial_id`.
pub fn row_for_trial(rows: &Vec<FieldMap>, trial_id: usize) -> (r: Option<FieldMap>)
    ensures
        match row_index_for(maps_of(rows@), trial_id, 0) {
            Some(i) => r matches Some(m) && m@ == rows@[i]@,
            None => r is None,
        },
{
    let ghost ms = maps_of(rows@);
    let mut i: usize = 0;
    while i < rows.len()
        invariant
            i <= rows@.len(),
            ms == maps_of(rows@),
            row_index_for(ms, trial_id, 0) == row_index_for(ms, trial_id, i as int),
        decreases rows@.len() - i,
    {
        assert(ms[i as int] == rows@[i as int]@);
        if get_usize(&rows[i], "trial_id") == Some(trial_id) {
            return Some(rows[i].clone());
        }
        i = i + 1;
    }
    None
}

/// The recorded fields of a trial: its filled row, when there are records.
pub fn fields_for_trial(records: &[TrialRecord], trial_id: usize, now: &str) -> (r: Option<FieldMap>)
    ensures
        records@.len() == 0 ==> r is None,
        records@.len() > 0 ==> ({
            let raw = raw_rows(records@, now@);
            let hs = headers_for(rows_keys(raw, raw.len() as int));
            let rows = raw.map_values(|m: Map<Seq<char>, Seq<char>>| filled(m, hs));
            match row_index_for(rows, trial_id, 0) {
                Some(i) => r matches Some(m) && m@ == rows[i],
                None => r is None,
            }
        }),
{
    if records.len() == 0 {
        return None;
    }
    let (headers, rows) = rows_with_headers(records, now);
    proof {
        let raw = raw_rows(records@, now@);
        let hs = headers_for(rows_keys(raw, raw.len() as int));
        assert(maps_of(rows@) =~= raw.map_values(|m: Map<Seq<char>, Seq<char>>| filled(m, hs)));
    }
    let r = row_for_trial(&rows, trial_id);
    proof {
        match row_index_for(maps_of(rows@), trial_id, 0) {
            Some(i) => {
                lemma_row_index_bounds(maps_of(rows@), trial_id, 0);
                assert(maps_of(rows@)[i] == rows@[i]@);
            },
            None => {},
        }
    }
    r
}

/// A row blocks re-running a configuration: it completed, it is not the
/// same configuration id, and it has the same hyperparameters.
pub open spec fn duplicate_row(
    row: Map<Seq<char>, Seq<char>>,
    config_id: Option<usize>,
    hp: Map<Seq<char>, Seq<char>>,
) -> bool {
    &&& row.contains_key("status"@)
    &&& status_of(row["status"@]) == Some(TrialStatus::Completed)
    &&& !(config_id is Some && config_id == field_usize(row, "trial.config_id"@))
    &&& hp_only(row) == hp
}

/// The search for a duplicate from row `i` on: the first duplicate row's
/// `trial_id` (`None` when that does not parse), or `None`.
pub open spec fn duplicate_from(
    rows: Seq<Map<Seq<char>, Seq<char>>>,
    config_id: Option<usize>,
    hp: Map<Seq<char>, Seq<char>>,
    i: int,
) -> Option<usize>
    decreases rows.len() - i,
{
    if i < 0 || i >= rows.len() {
        None
    } else if duplicate_row(rows[i], config_id, hp) {
        field_usize(rows[i], "trial_id"@)
    } else {
        duplicate_from(rows, config_id, hp, i + 1)
    }
}

/// Only a completed trial blocks a configuration: a duplicate found from row
/// `i` on is the id of some such row whose status is `ok`, whose
/// hyperparameters are exactly `hp`, and which is not configuration
/// `config_id` itself.
pub proof fn lemma_duplicate_is_completed_match(
    rows: Seq<Map<Seq<char>, Seq<char>>>,
    config_id: Option<usize>,
    hp: Map<Seq<char>, Seq<char>>,
    i: int,
)
    requires
        0 <= i,
    ensures
        duplicate_from(rows, config_id, hp, i) matches Some(id) ==> exists|j: int|
            i <= j < rows.len() && #[trigger] rows[j].contains_key("status"@) && rows[j]["status"@]
                == "ok"@ && rows[j].contains_key("trial_id"@) && Some(
                parsed_usize(rows[j]["trial_id"@])->0,
            ) == duplicate_from(rows, config_id, hp, i) && parsed_usize(rows[j]["trial_id"@]) is Some
                && hp_only(rows[j]) == hp && !(config_id is Some && rows[j].contains_key(
                "trial.config_id"@,
            ) && parsed_usize(rows[j]["trial.config_id"@]) == config_id),
    decreases rows.len() - i,
{
    if i < rows.len() {
        lemma_duplicate_is_completed_match(rows, config_id, hp, i + 1);
        if duplicate_row(rows[i], config_id, hp) {
            if let Some(id) = duplicate_from(rows, config_id, hp, i) {
                assert(rows[i].contains_key("status"@));
            }
        } else {
            if duplicate_from(rows, config_id, hp, i) is Some {
                let j = choose|j: int|
                    i + 1 <= j < rows.len() && #[trigger] rows[j].contains_key("status"@)
                        && rows[j]["status"@] == "ok"@ && rows[j].contains_key("trial_id"@) && Some(
                        parsed_usize(rows[j]["trial_id"@])->0,
                    ) == duplicate_from(rows, config_id, hp, i + 1) && parsed_usize(
                        rows[j]["trial_id"@],
                    ) is Some && hp_only(rows[j]) == hp && !(config_id is Some
                        && rows[j].contains_key("trial.config_id"@) && parsed_usize(
                        rows[j]["trial.config_id"@],
                    ) == config_id);
                assert(rows[j].contains_key("status"@));
            }
        }
    }
}

/// The conditions under which a row blocks a configuration, spelled out:
/// status `ok`, the same hyperparameters, and not the configuration itself.
pub open spec fn blocks(row: Map<Seq<char>, Seq<char>>, config_id: Option<usize>, hp: Map<Seq<char>, Seq<char>>) -> bool {
    &&& row.contains_key("status"@)
    &&& row["status"@] == "ok"@
    &&& hp_only(row) == hp
    &&& !(config_id is Some && row.contains_key("trial.config_id"@) && parsed_usize(
        row["trial.config_id"@],
    ) == config_id)
}

/// The first blocking row decides: when row `j` is the first from `i` on
/// that completed with the same hyperparameters (and is another
/// configuration), the search answers that row's trial id.
pub proof fn lemma_first_blocking_row_found(
    rows: Seq<Map<Seq<char>, Seq<char>>>,
    config_id: Option<usize>,
    hp: Map<Seq<char>, Seq<char>>,
    i: int,
    j: int,
)
    requires
        0 <= i <= j < rows.len(),
        blocks(rows[j], config_id, hp),
        forall|k: int| i <= k < j ==> !blocks(#[trigger] rows[k], config_id, hp),
    ensures
        duplicate_from(rows, config_id, hp, i) == (if rows[j].contains_key("trial_id"@) {
            parsed_usize(rows[j]["trial_id"@])
        } else {
            None
        }),
    decreases j - i,
{
    reveal_strlit("ok");
    reveal_strlit("running");
    assert("ok"@.len() != "running"@.len());
    if i < j {
        assert(!blocks(rows[i], config_id, hp));
        lemma_first_blocking_row_found(rows, config_id, hp, i + 1, j);
    }
}

/// A row that did not complete (running, failed, or without a status)
/// never changes which duplicate is found: inserting one anywhere leaves the
/// search's answer as it was.
pub proof fn lemma_unfinished_rows_ignored(
    rows: Seq<Map<Seq<char>, Seq<char>>>,
    row: Map<Seq<char>, Seq<char>>,
    config_id: Option<usize>,
    hp: Map<Seq<char>, Seq<char>>,
    p: int,
)
    requires
        0 <= p <= rows.len(),
        !(row.contains_key("status"@) && row["status"@] == "ok"@),
    ensures
        duplicate_from(rows.insert(p, row), config_id, hp, 0) == duplicate_from(rows, config_id, hp, 0),
{
    lemma_insert_shift(rows, row, config_id, hp, p, rows.len() as int);
    lemma_insert_before(rows, row, config_id, hp, p, 0);
}

proof fn lemma_insert_shift(
    rows: Seq<Map<Seq<char>, Seq<char>>>,
    row: Map<Seq<char>, Seq<char>>,
    config_id: Option<usize>,
    hp: Map<Seq<char>, Seq<char>>,
    p: int,
    i: int,
)
    requires
        0 <= p <= i <= rows.len(),
    ensures
        forall|j: int|
            i <= j <= rows.len() ==> #[trigger] duplicate_from(rows.insert(p, row), config_id, hp, j + 1)
                == duplicate_from(rows, config_id, hp, j),
        duplicate_from(rows.insert(p, row), config_id, hp, p + 1) == duplicate_from(
            rows,
            config_id,
            hp,
            p,
        ),
    decreases i - p,
{
    let ins = rows.insert(p, row);
    assert forall|j: int|
        i <= j <= rows.len() implies #[trigger] duplicate_from(ins, config_id, hp, j + 1)
        == duplicate_from(rows, config_id, hp, j) by {
        lemma_shift_at(rows, row, config_id, hp, p, j);
    }
    lemma_shift_at(rows, row, config_id, hp, p, p);
}

proof fn lemma_shift_at(
    rows: Seq<Map<Seq<char>, Seq<char>>>,
    row: Map<Seq<char>, Seq<char>>,
    config_id: Option<usize>,
    hp: Map<Seq<char>, Seq<char>>,
    p: int,
    j: int,
)
    requires
        0 <= p <= j <= rows.len(),
    ensures
        duplicate_from(rows.insert(p, row), config_id, hp, j + 1) == duplicate_from(rows, config_id, hp, j),
    decreases rows.len() - j,
{
    let ins = rows.insert(p, row);
    if j < rows.len() {
        lemma_shift_at(rows, row, config_id, hp, p, j + 1);
        assert(ins[j + 1] == rows[j]);
    }
}

proof fn lemma_insert_before(
    rows: Seq<Map<Seq<char>, Seq<char>>>,
    row: Map<Seq<char>, Seq<char>>,
    config_id: Option<usize>,
    hp: Map<Seq<char>, Seq<char>>,
    p: int,
    i: int,
)
    requires
        0 <= i <= p <= rows.len(),
        !(row.contains_key("status"@) && row["status"@] == "ok"@),
    ensures
        duplicate_from(rows.insert(p, row), config_id, hp, i) == duplicate_from(rows, config_id, hp, i),
    decreases p - i,
{
    let ins = rows.insert(p, row);
    if i < p {
        lemma_insert_before(rows, row, config_id, hp, p, i + 1);
        assert(ins[i] == rows[i]);
    } else {
        lemma_shift_at(rows, row, config_id, hp, p, p);
        assert(ins[p] == row);
        assert(!duplicate_row(row, config_id, hp));
    }
}

/// The trial that already completed the hyperparameters of `fields`, other
/// than configuration `config_id` itself.
pub fn find_duplicate_in_rows(config_id: Option<usize>, fields: &FieldMap, rows: &Vec<FieldMap>) -> (r:
    Option<usize>)
    ensures
        r == duplicate_from(maps_of(rows@), config_id, hp_only(fields@), 0),
        r matches Some(id) ==> exists|j: int|
            0 <= j < rows@.len() && #[trigger] rows@[j]@.contains_key("status"@)
                && rows@[j]@["status"@] == "ok"@ && rows@[j]@.contains_key("trial_id"@)
                && parsed_usize(rows@[j]@["trial_id"@]) == Some(id) && hp_only(rows@[j]@)
                == hp_only(fields@),
{
    proof {
        lemma_duplicate_is_completed_match(maps_of(rows@), config_id, hp_only(fields@), 0);
        if duplicate_from(maps_of(rows@), config_id, hp_only(fields@), 0) is Some {
            let j = choose|j: int|
                0 <= j < maps_of(rows@).len() && #[trigger] maps_of(rows@)[j].contains_key("status"@)
                    && maps_of(rows@)[j]["status"@] == "ok"@ && maps_of(rows@)[j].contains_key(
                    "trial_id"@,
                ) && Some(parsed_usize(maps_of(rows@)[j]["trial_id"@])->0) == duplicate_from(
                    maps_of(rows@),
                    config_id,
                    hp_only(fields@),
                    0,
                ) && parsed_usize(maps_of(rows@)[j]["trial_id"@]) is Some && hp_only(
                    maps_of(rows@)[j],
                ) == hp_only(fields@);
            assert(maps_of(rows@)[j] == rows@[j]@);
        }
    }
    let candidate = hp_fields(fields);
    let ghost ms = maps_of(rows@);
    let mut i: usize = 0;
    while i < rows.len()
        invariant
            i <= rows@.len(),
            ms == maps_of(rows@),
            candidate@ == hp_only(fields@),
            duplicate_from(ms, config_id, candidate@, 0) == duplicate_from(
                ms,
                config_id,
                candidate@,
                i as int,
            ),
        decreases rows@.len() - i,
    {
        let row = &rows[i];
        assert(ms[i as int] == row@);
        let completed = match row.get("status") {
            Some(s) => match TrialStatus::parse(s.as_str()) {
                Some(TrialStatus::Completed) => true,
                _ => false,
            },
            None => false,
        };
        if completed {
            let row_config = get_usize(row, "trial.config_id");
            let same_config = match config_id {
                Some(c) => row_config == Some(c),
                None => false,
            };
            if !same_config {
                let hp = hp_fields(row);
                if hp.same_as(&candidate) {
                    return get_usize(row, "trial_id");
                }
            }
        }
        i = i + 1;
    }
    None
}

/// The id of the last record of configuration `config_id`, among the first
/// `n` records.
pub open spec fn last_trial_of(records: Seq<TrialRecord>, config_id: usize, n: int) -> Option<usize>
    decreases n,
{
    if n <= 0 {
        None
    } else if field_usize(records[n - 1].fields@, "trial.config_id"@) == Some(config_id) {
        Some(records[n - 1].trial_id)
    } else {
        last_trial_of(records, config_id, n - 1)
    }
}

/// The last record of a configuration.
pub fn find_last_trial_in_records(records: &[TrialRecord], config_id: usize) -> (r: Option<usize>)
    ensures
        r == last_trial_of(records@, config_id, records@.len() as int),
{
    let mut last: Option<usize> = None;
    let mut i: usize = 0;
    while i < records.len()
        invariant
            i <= records@.len(),
            last == last_trial_of(records@, config_id, i as int),
        decreases records@.len() - i,
    {
        if get_usize(&records[i].fields, "trial.config_id") == Some(config_id) {
            last = Some(records[i].trial_id);
        }
        i = i + 1;
    }
    last
}


/// The placeholder names a template renders, sorted; none when the template
/// does not parse.
pub open spec fn template_names(t: Seq<char>) -> Seq<Seq<char>> {
    match names_from(t, 0) {
        Some(ns) => sorted_set(ns.to_set()),
        None => Seq::empty(),
    }
}

/// The values and columns of `names` in a row, or `None` when one is missing.
pub open spec fn lookups(row: Map<Seq<char>, Seq<char>>, names: Seq<Seq<char>>) -> Option<
    Seq<(Seq<char>, Seq<char>)>,
>
    decreases names.len(),
{
    if names.len() == 0 {
        Some(Seq::empty())
    } else {
        match lookups(row, names.drop_last()) {
            None => None,
            Some(prev) => match placeholder_lookup(row, names.last()) {
                None => None,
                Some(p) => Some(prev.push(p)),
            },
        }
    }
}

/// The placeholder values: each name to its value.
pub open spec fn lookup_map(names: Seq<Seq<char>>, vals: Seq<(Seq<char>, Seq<char>)>) -> Map<
    Seq<char>,
    Seq<char>,
>
    decreases names.len(),
{
    if names.len() == 0 || vals.len() == 0 {
        Map::empty()
    } else {
        lookup_map(names.drop_last(), vals.drop_last()).insert(names.last(), vals.last().0)
    }
}

/// Once a lookup fails, it stays failed.
proof fn lemma_lookups_none(row: Map<Seq<char>, Seq<char>>, names: Seq<Seq<char>>, k: int)
    requires
        0 <= k <= names.len(),
        lookups(row, names.take(k)) is None,
    ensures
        lookups(row, names) is None,
    decreases names.len() - k,
{
    if k < names.len() {
        assert(names.take(k + 1).drop_last() =~= names.take(k));
        lemma_lookups_none(row, names, k + 1);
    } else {
        assert(names.take(k) =~= names);
    }
}

/// Re-render the command of a recorded row: each placeholder of the
/// template takes its value from the row (see `placeholder_lookup`). `None`
/// when a placeholder has no value in the row.
pub fn render_command_with_values(template: &CommandTemplate, row: &FieldMap) -> (r: Result<
    Option<(String, Vec<PlaceholderValue>)>,
    TemplateError,
>)
    ensures
        ({
            let names = template_names(template@);
            match lookups(row@, names) {
                None => r matches Ok(None),
                Some(vals) => match render_from(template@, lookup_map(names, vals), 0) {
                    Ok(cmd) => r matches Ok(Some((c, pvs))) && c@ == cmd && pvs@.len()
                        == names.len() && forall|i: int|
                        0 <= i < names.len() ==> (#[trigger] pvs@[i]).name@ == names[i]
                            && pvs@[i].value@ == vals[i].0 && pvs@[i].source@ == vals[i].1,
                    Err(e) => r matches Err(x) && x@ == e,
                },
            }
        }),
{
    let placeholders = match template.placeholders() {
        Ok(p) => p,
        Err(_) => Vec::new(),
    };
    let ghost names = template_names(template@);
    proof {
        match names_from(template@, 0) {
            Some(ns) => {
                assert forall|x: Seq<char>| #[trigger] views(placeholders@).contains(x) <==> ns.to_set().contains(x) by {}
                lemma_sorted_set_is(views(placeholders@), ns.to_set());
            },
            None => {
                assert(views(placeholders@) =~= Seq::<Seq<char>>::empty());
            },
        }
    }
    assert(views(placeholders@) == names);
    let mut values = FieldMap::new();
    let mut resolved: Vec<PlaceholderValue> = Vec::new();
    let mut i: usize = 0;
    while i < placeholders.len()
        invariant
            i <= placeholders@.len(),
            views(placeholders@) == names,
            names == template_names(template@),
            lookups(row@, names.take(i as int)) matches Some(vals) && vals.len() == i && values@
                == lookup_map(names.take(i as int), vals) && resolved@.len() == i && forall|j: int|
                0 <= j < i ==> (#[trigger] resolved@[j]).name@ == names[j] && resolved@[j].value@
                    == vals[j].0 && resolved@[j].source@ == vals[j].1,
        decreases placeholders@.len() - i,
    {
        let ghost prev_vals = lookups(row@, names.take(i as int))->Some_0;
        proof {
            assert(names.take(i + 1).drop_last() =~= names.take(i as int));
            assert(names.take(i + 1).last() == names[i as int]);
        }
        let name = &placeholders[i];
        match value_for_placeholder(row, name.as_str()) {
            Some((value, source)) => {
                values.insert(name.clone(), value.clone());
                resolved.push(PlaceholderValue { name: name.clone(), value, source });
                proof {
                    let p = placeholder_lookup(row@, names[i as int])->Some_0;
                    assert(lookups(row@, names.take(i + 1)) == Some(prev_vals.push(p)));
                    let vals2 = prev_vals.push(p);
                    assert(vals2.drop_last() =~= prev_vals);
                    assert(lookup_map(names.take(i + 1), vals2) == lookup_map(names.take(i as int), prev_vals).insert(names[i as int], p.0));
                    assert forall|j: int| 0 <= j < i + 1 implies (#[trigger] resolved@[j]).name@ == names[j] && resolved@[j].value@
                        == vals2[j].0 && resolved@[j].source@ == vals2[j].1 by {
                        if j < i {
                            assert(vals2[j] == prev_vals[j]);
                        }
                    }
                }
            },
            None => {
                proof {
                    assert(placeholder_lookup(row@, names[i as int]) is None);
                    assert(lookups(row@, names.take(i + 1)) is None);
                    lemma_lookups_none(row@, names, i + 1);
                    assert(lookups(row@, template_names(template@)) is None);
                }
                let none: Option<(String, Vec<PlaceholderValue>)> = None;
                return Ok(none);
            },
        }
        i = i + 1;
    }
    proof {
        assert(names.take(placeholders@.len() as int) =~= names);
    }
    match template.render(&values) {
        Ok(command) => Ok(Some((command, resolved))),
        Err(e) => Err(e),
    }
}

} // verus!
