//! Driving a campaign: which sampler runs, and, for a scheduled campaign,
//! what to do with each trial the scheduler hands out given what earlier
//! runs recorded.

use vstd::prelude::*;

use crate::constants::MAX_DUPLICATE_RETRIES;
use crate::fields::FieldMap;
use crate::project::{Project, ProjectConfig, Sampler};
use crate::scheduler::{Scheduler, TrialToken};
use crate::command::objective::{is_duplicate_config_error, is_invalid_config_error};
use crate::text::{has_prefix, parse_usize, parsed_usize, views};
use crate::trial::store::{status_of, TrialStatus};

verus! {

/// How a campaign is run.
#[derive(Debug, Clone, Copy)]
pub struct RunOptions {
    pub dry_run: bool,
    pub allow_config_change: bool,
}

impl Default for RunOptions {
    fn default() -> (r: Self)
        ensures
            !r.dry_run,
            !r.allow_config_change,
    {
        RunOptions { dry_run: false, allow_config_change: false }
    }
}

/// The tuner of a project.
#[derive(Debug, Clone)]
pub struct Tuner {
    project: Project,
}

impl Tuner {
    /// The tuner of `project`.
    pub fn new(project: Project) -> (r: Self)
        ensures
            r.project()@ == project@,
    {
        Tuner { project }
    }

    /// The project it tunes.
    pub closed spec fn project(&self) -> Project {
        self.project
    }

    /// The project it tunes.
    pub fn project_ref(&self) -> (r: &Project)
        ensures
            *r == self.project(),
    {
        &self.project
    }
}

/// Which search a campaign runs.
#[derive(Debug, Clone, Copy, PartialEq, Eq, Structural)]
pub enum SearchPlan {
    /// Particle swarm optimisation, with its iterations and particles.
    Pso { iters: usize, particles: usize },
    /// Random points handed out by the configured scheduler.
    Scheduled,
}

/// The search of a configuration; particle swarm needs the fixed scheduler.
pub fn search_plan(config: &ProjectConfig) -> (r: Result<SearchPlan, String>)
    ensures
        match config.sampler.kind {
            Sampler::Pso => if config.scheduler.kind == Scheduler::Fixed {
                r == Ok::<SearchPlan, String>(
                    SearchPlan::Pso {
                        iters: config.sampler.pso.iters,
                        particles: config.sampler.pso.particles,
                    },
                )
            } else {
                r matches Err(e) && e@ == "scheduler must be fixed when using the pso sampler"@
            },
            Sampler::Random => r == Ok::<SearchPlan, String>(SearchPlan::Scheduled),
        },
{
    match config.sampler.kind {
        Sampler::Pso => {
            if config.scheduler.kind != Scheduler::Fixed {
                return Err("scheduler must be fixed when using the pso sampler".to_owned());
            }
            Ok(SearchPlan::Pso { iters: config.sampler.pso.iters, particles: config.sampler.pso.particles })
        },
        Sampler::Random => Ok(SearchPlan::Scheduled),
    }
}

/// The configuration, rung and bracket of a trial.
pub type TrialKey = (usize, usize, usize);

/// The key of a token.
pub open spec fn key_of(t: TrialToken) -> TrialKey {
    (t.config_id, t.rung, t.bracket)
}

/// No key occurs twice.
pub open spec fn table_keys_distinct<V>(s: Seq<(TrialKey, V)>) -> bool {
    forall|i: int, j: int| 0 <= i < j < s.len() ==> s[i].0 != s[j].0
}

/// The map an entry list denotes.
pub open spec fn table_map<V>(s: Seq<(TrialKey, V)>) -> Map<TrialKey, V>
    decreases s.len(),
{
    if s.len() == 0 {
        Map::empty()
    } else {
        table_map(s.drop_last()).insert(s.last().0, s.last().1)
    }
}

/// The keys of an entry list are the keys of its map.
proof fn lemma_table_has<V>(s: Seq<(TrialKey, V)>, k: TrialKey)
    ensures
        table_map(s).contains_key(k) <==> exists|i: int| 0 <= i < s.len() && s[i].0 == k,
    decreases s.len(),
{
    if s.len() > 0 {
        let t = s.drop_last();
        lemma_table_has(t, k);
        if table_map(s).contains_key(k) && k != s.last().0 {
            assert(table_map(t).contains_key(k));
            let i = choose|i: int| 0 <= i < t.len() && t[i].0 == k;
            assert(t[i] == s[i]);
            assert(0 <= i < s.len() && s[i].0 == k);
        }
        if exists|i: int| 0 <= i < s.len() && s[i].0 == k {
            let i = choose|i: int| 0 <= i < s.len() && s[i].0 == k;
            if i < t.len() {
                assert(t[i] == s[i]);
                assert(0 <= i < t.len() && t[i].0 == k);
            }
        }
    }
}

/// The value of each entry's key is its value, when keys are distinct.
proof fn lemma_table_value<V>(s: Seq<(TrialKey, V)>, i: int)
    requires
        table_keys_distinct(s),
        0 <= i < s.len(),
    ensures
        table_map(s).contains_key(s[i].0),
        table_map(s)[s[i].0] == s[i].1,
    decreases s.len(),
{
    let t = s.drop_last();
    if i < s.len() - 1 {
        assert(table_keys_distinct(t));
        assert(t[i] == s[i]);
        lemma_table_value(t, i);
        assert(s[i].0 != s.last().0);
    }
}

proof fn lemma_table_map<V>(s: Seq<(TrialKey, V)>)
    requires
        table_keys_distinct(s),
    ensures
        forall|k: TrialKey| #[trigger]
            table_map(s).contains_key(k) <==> exists|i: int| 0 <= i < s.len() && s[i].0 == k,
        forall|i: int| 0 <= i < s.len() ==> #[trigger] table_map(s)[s[i].0] == s[i].1,
{
    assert forall|k: TrialKey| #[trigger]
        table_map(s).contains_key(k) <==> exists|i: int| 0 <= i < s.len() && s[i].0 == k by {
        lemma_table_has(s, k);
    }
    assert forall|i: int| 0 <= i < s.len() implies #[trigger] table_map(s)[s[i].0] == s[i].1 by {
        lemma_table_value(s, i);
    }
}

/// A table keyed by trial key.
#[derive(Debug)]
pub struct TrialTable<V: Copy> {
    entries: Vec<(TrialKey, V)>,
}

impl<V: Copy> View for TrialTable<V> {
    type V = Map<TrialKey, V>;

    closed spec fn view(&self) -> Map<TrialKey, V> {
        table_map(self.entries@)
    }
}

impl<V: Copy> TrialTable<V> {
    #[verifier::type_invariant]
    closed spec fn inv(&self) -> bool {
        table_keys_distinct(self.entries@)
    }

    /// An empty table.
    pub fn new() -> (r: Self)
        ensures
            r@ == Map::<TrialKey, V>::empty(),
    {
        TrialTable { entries: Vec::new() }
    }

    fn index_of(&self, key: TrialKey) -> (r: Option<usize>)
        ensures
            match r {
                Some(i) => i < self.entries@.len() && self.entries@[i as int].0 == key,
                None => forall|i: int| 0 <= i < self.entries@.len() ==> self.entries@[i].0 != key,
            },
    {
        let mut i: usize = 0;
        while i < self.entries.len()
            invariant
                i <= self.entries@.len(),
                forall|j: int| 0 <= j < i ==> self.entries@[j].0 != key,
            decreases self.entries@.len() - i,
        {
            if self.entries[i].0.0 == key.0 && self.entries[i].0.1 == key.1 && self.entries[i].0.2 == key.2 {
                return Some(i);
            }
            i = i + 1;
        }
        None
    }

    /// The value under `key`.
    pub fn get(&self, key: TrialKey) -> (r: Option<V>)
        ensures
            match r {
                Some(v) => self@.contains_key(key) && self@[key] == v,
                None => !self@.contains_key(key),
            },
    {
        proof {
            use_type_invariant(self);
            lemma_table_map(self.entries@);
        }
        match self.index_of(key) {
            Some(i) => Some(self.entries[i].1),
            None => None,
        }
    }

    /// Set `key` to `value`.
    pub fn insert(&mut self, key: TrialKey, value: V)
        ensures
            final(self)@ == old(self)@.insert(key, value),
    {
        proof {
            use_type_invariant(&*self);
            lemma_table_map(self.entries@);
        }
        let ghost old_map = self@;
        let ghost ov = self.entries@;
        let mut entries: Vec<(TrialKey, V)> = Vec::new();
        core::mem::swap(&mut entries, &mut self.entries);
        match self_index(&entries, key) {
            Some(i) => {
                entries.set(i, (key, value));
                proof {
                    let after = entries@;
                    assert(table_keys_distinct(after));
                    lemma_table_map(after);
                    assert forall|x: TrialKey| table_map(after).contains_key(x) <==> old_map.insert(key, value).contains_key(x) by {
                        if table_map(after).contains_key(x) {
                            let j = choose|j: int| 0 <= j < after.len() && after[j].0 == x;
                            if j != i {
                                assert(ov[j].0 == x);
                            }
                        }
                        if old_map.contains_key(x) {
                            let j = choose|j: int| 0 <= j < ov.len() && ov[j].0 == x;
                            assert(after[j].0 == x);
                        }
                        if x == key {
                            assert(after[i as int].0 == x);
                        }
                    }
                    assert forall|x: TrialKey| #[trigger] table_map(after).contains_key(x) implies table_map(after)[x] == old_map.insert(key, value)[x] by {
                        let j = choose|j: int| 0 <= j < after.len() && after[j].0 == x;
                        assert(table_map(after)[after[j].0] == after[j].1);
                        if j != i {
                            assert(ov[j] == after[j]);
                            assert(table_map(ov)[ov[j].0] == ov[j].1);
                        }
                    }
                    assert(table_map(after) =~= old_map.insert(key, value));
                }
            },
            None => {
                entries.push((key, value));
                proof {
                    let after = entries@;
                    assert(after.drop_last() =~= ov);
                    assert(table_keys_distinct(after)) by {
                        assert forall|a: int, b: int| 0 <= a < b < after.len() implies after[a].0 != after[b].0 by {
                            if b == ov.len() {
                                assert(ov[a].0 != key);
                            } else {
                                assert(ov[a] == after[a]);
                                assert(ov[b] == after[b]);
                            }
                        }
                    }
                }
            },
        }
        self.entries = entries;
    }

    /// Remove `key` if present.
    pub fn remove(&mut self, key: TrialKey)
        ensures
            final(self)@ == old(self)@.remove(key),
    {
        proof {
            use_type_invariant(&*self);
            lemma_table_map(self.entries@);
        }
        let ghost old_map = self@;
        let mut entries: Vec<(TrialKey, V)> = Vec::new();
        core::mem::swap(&mut entries, &mut self.entries);
        let ghost before = entries@;
        match self_index(&entries, key) {
            Some(i) => {
                let _ = entries.remove(i);
                proof {
                    let after = entries@;
                    assert(after =~= before.remove(i as int));
                    assert(table_keys_distinct(after)) by {
                        assert forall|a: int, b: int| 0 <= a < b < after.len() implies after[a].0 != after[b].0 by {
                            let a2 = if a < i { a } else { a + 1 };
                            let b2 = if b < i { b } else { b + 1 };
                            assert(after[a] == before[a2]);
                            assert(after[b] == before[b2]);
                        }
                    }
                    lemma_table_map(after);
                    assert forall|x: TrialKey| table_map(after).contains_key(x) <==> old_map.remove(key).contains_key(x) by {
                        if table_map(after).contains_key(x) {
                            let j = choose|j: int| 0 <= j < after.len() && after[j].0 == x;
                            let j2 = if j < i { j } else { j + 1 };
                            assert(before[j2].0 == x);
                        }
                        if old_map.remove(key).contains_key(x) {
                            let j = choose|j: int| 0 <= j < before.len() && before[j].0 == x;
                            assert(j != i);
                            let j3 = if j < i { j } else { j - 1 };
                            assert(after[j3] == before[j]);
                        }
                    }
                    assert forall|x: TrialKey| #[trigger] table_map(after).contains_key(x) implies table_map(after)[x] == old_map.remove(key)[x] by {
                        let j = choose|j: int| 0 <= j < after.len() && after[j].0 == x;
                        let j2 = if j < i { j } else { j + 1 };
                        assert(after[j] == before[j2]);
                        assert(table_map(after)[after[j].0] == after[j].1);
                        assert(table_map(before)[before[j2].0] == before[j2].1);
                    }
                    assert(table_map(after) =~= old_map.remove(key));
                }
            },
            None => {
                proof {
                    assert(old_map.remove(key) =~= old_map) by {
                        if old_map.contains_key(key) {
                            let j = choose|j: int| 0 <= j < before.len() && before[j].0 == key;
                        }
                    }
                }
            },
        }
        self.entries = entries;
    }
}

/// The place of `key` in an entry list.
fn self_index<V: Copy>(entries: &Vec<(TrialKey, V)>, key: TrialKey) -> (r: Option<usize>)
    ensures
        match r {
            Some(i) => i < entries@.len() && entries@[i as int].0 == key,
            None => forall|i: int| 0 <= i < entries@.len() ==> entries@[i].0 != key,
        },
{
    let mut i: usize = 0;
    while i < entries.len()
        invariant
            i <= entries@.len(),
            forall|j: int| 0 <= j < i ==> entries@[j].0 != key,
        decreases entries@.len() - i,
    {
        if entries[i].0.0 == key.0 && entries[i].0.1 == key.1 && entries[i].0.2 == key.2 {
            return Some(i);
        }
        i = i + 1;
    }
    None
}

/// What an earlier run recorded of a trial: its status, the order key of
/// its score, and its id.
#[derive(Debug, Clone, Copy, PartialEq, Eq)]
pub struct CompletedTrial {
    pub status: TrialStatus,
    pub score: Option<u64>,
    pub trial_id: usize,
}

/// What to do with a scheduled trial.
#[derive(Debug, Clone, Copy, PartialEq, Eq)]
pub enum TrialStart {
    /// Report this earlier result to the scheduler without running.
    Record(Option<u64>),
    /// Run the trial, reusing this trial id when one is given.
    Evaluate(Option<usize>),
}

/// The state of a scheduled campaign: the recorded trials, the ids of
/// interrupted trials to resume, and how many duplicate configurations came
/// in a row.
#[derive(Debug)]
pub struct ScheduledRun {
    pub completed: TrialTable<CompletedTrial>,
    pub resume_ids: TrialTable<usize>,
    pub duplicate_retries: usize,
}

/// The decision for a scheduled trial, and the resume ids after it: a
/// finished or failed earlier run is reported as is (a failure without a
/// score); an interrupted one is resumed under its id; otherwise the trial
/// runs, under a resume id recorded earlier if any.
pub open spec fn start_decision(
    completed: Map<TrialKey, CompletedTrial>,
    resume: Map<TrialKey, usize>,
    k: TrialKey,
) -> (TrialStart, Map<TrialKey, usize>) {
    if completed.contains_key(k) && completed[k].status == TrialStatus::Completed {
        (TrialStart::Record(completed[k].score), resume)
    } else if completed.contains_key(k) && completed[k].status == TrialStatus::Error {
        (TrialStart::Record(None), resume)
    } else {
        let r = if completed.contains_key(k) && completed[k].status == TrialStatus::Running {
            resume.insert(k, completed[k].trial_id)
        } else {
            resume
        };
        (TrialStart::Evaluate(if r.contains_key(k) {
            Some(r[k])
        } else {
            None
        }), r)
    }
}

impl ScheduledRun {
    /// A campaign starting from the trials earlier runs recorded.
    pub fn new(completed: TrialTable<CompletedTrial>) -> (r: Self)
        ensures
            r.completed@ == completed@,
            r.resume_ids@ == Map::<TrialKey, usize>::empty(),
            r.duplicate_retries == 0,
    {
        ScheduledRun { completed, resume_ids: TrialTable::new(), duplicate_retries: 0 }
    }

    /// Decide what to do with a trial the scheduler handed out.
    pub fn start(&mut self, token: TrialToken) -> (r: TrialStart)
        ensures
            (r, final(self).resume_ids@) == start_decision(
                old(self).completed@,
                old(self).resume_ids@,
                key_of(token),
            ),
            final(self).completed@ == old(self).completed@,
            final(self).duplicate_retries == old(self).duplicate_retries,
    {
        let key = (token.config_id, token.rung, token.bracket);
        match self.completed.get(key) {
            Some(existing) => {
                match existing.status {
                    TrialStatus::Completed => {
                        return TrialStart::Record(existing.score);
                    },
                    TrialStatus::Error => {
                        return TrialStart::Record(None);
                    },
                    TrialStatus::Running => {
                        self.resume_ids.insert(key, existing.trial_id);
                    },
                }
            },
            None => {},
        }
        TrialStart::Evaluate(self.resume_ids.get(key))
    }

    /// The trial ran to completion under `trial_id`, with score key `score`.
    pub fn succeeded(&mut self, token: TrialToken, score: Option<u64>, trial_id: usize)
        ensures
            final(self).completed@ == old(self).completed@.insert(
                key_of(token),
                CompletedTrial { status: TrialStatus::Completed, score, trial_id },
            ),
            final(self).resume_ids@ == old(self).resume_ids@.remove(key_of(token)),
            final(self).duplicate_retries == 0,
    {
        let key = (token.config_id, token.rung, token.bracket);
        self.resume_ids.remove(key);
        self.duplicate_retries = 0;
        self.completed.insert(key, CompletedTrial { status: TrialStatus::Completed, score, trial_id });
    }

    /// Another trial came back as a duplicate configuration; true when the
    /// run has now seen `MAX_DUPLICATE_RETRIES` of them in a row and must
    /// stop.
    pub fn note_duplicate(&mut self) -> (exhausted: bool)
        ensures
            final(self).duplicate_retries == (if old(self).duplicate_retries < MAX_DUPLICATE_RETRIES {
                old(self).duplicate_retries + 1
            } else {
                old(self).duplicate_retries as int
            }),
            exhausted == (final(self).duplicate_retries >= MAX_DUPLICATE_RETRIES),
            final(self).completed@ == old(self).completed@,
            final(self).resume_ids@ == old(self).resume_ids@,
    {
        if self.duplicate_retries < MAX_DUPLICATE_RETRIES {
            self.duplicate_retries = self.duplicate_retries + 1;
        }
        self.duplicate_retries >= MAX_DUPLICATE_RETRIES
    }

    /// The trial failed and the scheduler took it back to run again.
    pub fn retried(&mut self, token: TrialToken)
        ensures
            final(self).completed@ == old(self).completed@.remove(key_of(token)),
            final(self).resume_ids@ == old(self).resume_ids@.remove(key_of(token)),
            final(self).duplicate_retries == old(self).duplicate_retries,
    {
        let key = (token.config_id, token.rung, token.bracket);
        self.resume_ids.remove(key);
        self.completed.remove(key);
    }

    /// The trial failed under `trial_id` for good.
    pub fn failed(&mut self, token: TrialToken, trial_id: usize)
        ensures
            final(self).completed@ == old(self).completed@.insert(
                key_of(token),
                CompletedTrial { status: TrialStatus::Error, score: None, trial_id },
            ),
            final(self).resume_ids@ == old(self).resume_ids@.remove(key_of(token)),
            final(self).duplicate_retries == old(self).duplicate_retries,
    {
        let key = (token.config_id, token.rung, token.bracket);
        self.completed.insert(key, CompletedTrial { status: TrialStatus::Error, score: None, trial_id });
        self.resume_ids.remove(key);
    }
}

/// What follows a failed evaluation of a scheduled trial.
#[derive(Debug, Clone, Copy, PartialEq, Eq)]
pub enum FailureAction {
    /// Duplicate configurations came too often in a row: stop the run.
    Exhausted,
    /// The configuration was invalid: ask the scheduler to take the trial back.
    AskRetry,
    /// The scheduler took the trial back: it runs again.
    Retry,
    /// The trial failed for good: report it to the scheduler without a score.
    Fail,
}

/// The duplicate count after a failure whose first error was (`duplicate`)
/// or was not a duplicate configuration.
pub open spec fn duplicates_after(count: usize, duplicate: bool) -> usize {
    if duplicate && count < MAX_DUPLICATE_RETRIES {
        (count + 1) as usize
    } else {
        count
    }
}

impl ScheduledRun {
    /// A trial's evaluation failed: first with `first_err` (a duplicate
    /// configuration is counted, and too many in a row stop the run), and in
    /// the end with `err`. An invalid configuration is offered back to the
    /// scheduler; any other failure is recorded under `trial_id`.
    pub fn after_failure(&mut self, token: TrialToken, trial_id: usize, first_err: &str, err: &str) -> (a:
        FailureAction)
        ensures
            final(self).duplicate_retries == duplicates_after(
                old(self).duplicate_retries,
                has_prefix(first_err@, "invalid_config: duplicate_config"@),
            ),
            a == (if has_prefix(first_err@, "invalid_config: duplicate_config"@)
                && final(self).duplicate_retries >= MAX_DUPLICATE_RETRIES {
                FailureAction::Exhausted
            } else if has_prefix(err@, "invalid_config:"@) {
                FailureAction::AskRetry
            } else {
                FailureAction::Fail
            }),
            a == FailureAction::Fail ==> {
                &&& final(self).completed@ == old(self).completed@.insert(
                    key_of(token),
                    CompletedTrial { status: TrialStatus::Error, score: None, trial_id },
                )
                &&& final(self).resume_ids@ == old(self).resume_ids@.remove(key_of(token))
            },
            a != FailureAction::Fail ==> {
                &&& final(self).completed@ == old(self).completed@
                &&& final(self).resume_ids@ == old(self).resume_ids@
            },
    {
        if is_duplicate_config_error(first_err) {
            if self.note_duplicate() {
                return FailureAction::Exhausted;
            }
        }
        if is_invalid_config_error(err) {
            FailureAction::AskRetry
        } else {
            self.failed(token, trial_id);
            FailureAction::Fail
        }
    }

    /// The scheduler's answer to a retry request for a trial that failed
    /// under `trial_id`: taken back, the trial runs again; refused, it is
    /// recorded as failed.
    pub fn retry_answer(&mut self, token: TrialToken, trial_id: usize, accepted: bool) -> (a:
        FailureAction)
        ensures
            final(self).duplicate_retries == old(self).duplicate_retries,
            accepted ==> {
                &&& a == FailureAction::Retry
                &&& final(self).completed@ == old(self).completed@.remove(key_of(token))
                &&& final(self).resume_ids@ == old(self).resume_ids@.remove(key_of(token))
            },
            !accepted ==> {
                &&& a == FailureAction::Fail
                &&& final(self).completed@ == old(self).completed@.insert(
                    key_of(token),
                    CompletedTrial { status: TrialStatus::Error, score: None, trial_id },
                )
                &&& final(self).resume_ids@ == old(self).resume_ids@.remove(key_of(token))
            },
    {
        if accepted {
            self.retried(token);
            FailureAction::Retry
        } else {
            self.failed(token, trial_id);
            FailureAction::Fail
        }
    }
}

/// The first of `keys` whose field parses as a `usize`, from position `i` on.
pub open spec fn first_usize_field(row: Map<Seq<char>, Seq<char>>, keys: Seq<Seq<char>>, i: int) -> Option<
    usize,
>
    decreases keys.len() - i,
{
    if i < 0 || i >= keys.len() {
        None
    } else if row.contains_key(keys[i]) && parsed_usize(row[keys[i]]) is Some {
        parsed_usize(row[keys[i]])
    } else {
        first_usize_field(row, keys, i + 1)
    }
}

/// The first of `keys` whose field parses as a `usize`.
pub fn parse_usize_field(row: &FieldMap, keys: &[String]) -> (r: Option<usize>)
    ensures
        r == first_usize_field(row@, views(keys@), 0),
{
    let ghost ks = views(keys@);
    let mut i: usize = 0;
    while i < keys.len()
        invariant
            i <= keys@.len(),
            ks == views(keys@),
            first_usize_field(row@, ks, 0) == first_usize_field(row@, ks, i as int),
        decreases keys@.len() - i,
    {
        assert(ks[i as int] == keys@[i as int]@);
        match row.get(keys[i].as_str()) {
            Some(v) => match parse_usize(v.as_str()) {
                Some(p) => {
                    return Some(p);
                },
                None => {},
            },
            None => {},
        }
        i = i + 1;
    }
    None
}

/// What a recorded row says of its trial: the key (the configuration id
/// from `trial.config_id` or `config_id`; the rung and bracket likewise,
/// zero when absent), the status and the trial id (zero when absent). Rows
/// without a known status or a configuration id say nothing.
pub open spec fn row_entry(row: Map<Seq<char>, Seq<char>>) -> Option<(TrialKey, TrialStatus, usize)> {
    let status = if row.contains_key("status"@) {
        status_of(row["status"@])
    } else {
        None
    };
    let config_id = first_usize_field(row, seq!["trial.config_id"@, "config_id"@], 0);
    let rung = match first_usize_field(row, seq!["trial.rung"@, "rung"@], 0) {
        Some(v) => v,
        None => 0,
    };
    let bracket = match first_usize_field(row, seq!["trial.bracket"@, "bracket"@], 0) {
        Some(v) => v,
        None => 0,
    };
    let trial_id = match first_usize_field(row, seq!["trial_id"@], 0) {
        Some(v) => v,
        None => 0,
    };
    match (status, config_id) {
        (Some(s), Some(c)) => Some(((c, rung, bracket), s, trial_id)),
        _ => None,
    }
}

/// The key, status and id of the trial a recorded row describes.
pub fn completed_entry(row: &FieldMap) -> (r: Option<(TrialKey, TrialStatus, usize)>)
    ensures
        r == row_entry(row@),
{
    let status = match row.get("status") {
        Some(s) => crate::trial::store::TrialStatus::parse(s.as_str()),
        None => None,
    };
    let k1 = vec!["trial.config_id".to_owned(), "config_id".to_owned()];
    let k2 = vec!["trial.rung".to_owned(), "rung".to_owned()];
    let k3 = vec!["trial.bracket".to_owned(), "bracket".to_owned()];
    let k4 = vec!["trial_id".to_owned()];
    assert(views(k1@) =~= seq!["trial.config_id"@, "config_id"@]);
    assert(views(k2@) =~= seq!["trial.rung"@, "rung"@]);
    assert(views(k3@) =~= seq!["trial.bracket"@, "bracket"@]);
    assert(views(k4@) =~= seq!["trial_id"@]);
    let config_id = parse_usize_field(row, &k1);
    let rung = match parse_usize_field(row, &k2) {
        Some(v) => v,
        None => 0,
    };
    let bracket = match parse_usize_field(row, &k3) {
        Some(v) => v,
        None => 0,
    };
    let trial_id = match parse_usize_field(row, &k4) {
        Some(v) => v,
        None => 0,
    };
    match (status, config_id) {
        (Some(s), Some(c)) => Some(((c, rung, bracket), s, trial_id)),
        _ => None,
    }
}

} // verus!
