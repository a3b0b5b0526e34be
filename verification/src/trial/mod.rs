//! Trials: rendering a trial's command and merging its recorded fields.

pub mod store;

use vstd::prelude::*;

use crate::command::template::{render_from, CommandTemplate, TemplateError};
use crate::fields::FieldMap;
use crate::project::{path_join, path_joined};
use crate::checkpoint::print_error_line;
use crate::text::{concat_str, decimal, has_prefix, str_eq, str_starts_with, usize_text};

verus! {

/// Values a scheduler adds to a trial: placeholder values, recorded fields
/// and environment variables.
#[derive(Debug, Clone)]
pub struct TrialOverrides {
    pub values: FieldMap,
    pub fields: FieldMap,
    pub env: FieldMap,
}

impl Default for TrialOverrides {
    fn default() -> (r: Self)
        ensures
            r.values@ == Map::<Seq<char>, Seq<char>>::empty(),
            r.fields@ == Map::<Seq<char>, Seq<char>>::empty(),
            r.env@ == Map::<Seq<char>, Seq<char>>::empty(),
    {
        TrialOverrides { values: FieldMap::new(), fields: FieldMap::new(), env: FieldMap::new() }
    }
}

/// A trial ready to run.
#[derive(Debug)]
pub struct RenderedTrial {
    pub command: String,
    pub fields: FieldMap,
    pub trial_dir: Option<String>,
    pub env: FieldMap,
}

/// The directory of a trial: the `trial_dir` value when one is given, else
/// `trial_<id>`, under the artifacts directory.
pub open spec fn trial_dir_of(
    values: Map<Seq<char>, Seq<char>>,
    trial_id: usize,
    artifacts_dir: Seq<char>,
) -> Seq<char> {
    let name = if values.contains_key("trial_dir"@) {
        values["trial_dir"@]
    } else {
        "trial_"@ + decimal(trial_id as nat)
    };
    path_joined(artifacts_dir, name)
}

/// `m` with `k -> v` unless `k` is present.
pub open spec fn insert_absent(m: Map<Seq<char>, Seq<char>>, k: Seq<char>, v: Seq<char>) -> Map<
    Seq<char>,
    Seq<char>,
> {
    if m.contains_key(k) {
        m
    } else {
        m.insert(k, v)
    }
}

/// The placeholder values a trial renders with.
pub open spec fn trial_values(
    space_values: Map<Seq<char>, Seq<char>>,
    overrides: Map<Seq<char>, Seq<char>>,
    trial_id: usize,
    artifacts_dir: Seq<char>,
    inject: bool,
) -> Map<Seq<char>, Seq<char>> {
    let v = space_values.union_prefer_right(overrides);
    if inject {
        insert_absent(
            v.insert("trial_id"@, decimal(trial_id as nat)),
            "trial_dir"@,
            trial_dir_of(v, trial_id, artifacts_dir),
        )
    } else {
        v
    }
}

/// The fields a trial records.
pub open spec fn trial_fields(
    space_fields: Map<Seq<char>, Seq<char>>,
    overrides: Map<Seq<char>, Seq<char>>,
    dir: Seq<char>,
    trial_id: usize,
    inject: bool,
) -> Map<Seq<char>, Seq<char>> {
    let f = space_fields.union_prefer_right(overrides);
    if inject {
        insert_absent(f.insert("trial_id"@, decimal(trial_id as nat)), "trial_dir"@, dir)
    } else {
        f
    }
}

/// The environment a trial runs with.
pub open spec fn trial_env(
    overrides: Map<Seq<char>, Seq<char>>,
    dir: Seq<char>,
    trial_id: usize,
    inject: bool,
) -> Map<Seq<char>, Seq<char>> {
    if inject {
        insert_absent(
            overrides.insert("ARGTUNER_TRIAL_ID"@, decimal(trial_id as nat)),
            "ARGTUNER_TRIAL_DIR"@,
            dir,
        )
    } else {
        overrides
    }
}

/// Render a trial from the values and fields its search-space point gives,
/// with the scheduler's overrides on top. With `inject_trial_placeholders`
/// the trial id and directory are added as placeholder values, fields and
/// environment variables (an explicit `trial_dir` value wins).
pub fn render_trial_command_with_overrides(
    template: &CommandTemplate,
    space_values: &FieldMap,
    space_fields: &FieldMap,
    trial_id: usize,
    artifacts_dir: &str,
    inject_trial_placeholders: bool,
    overrides: &TrialOverrides,
) -> (r: Result<RenderedTrial, TemplateError>)
    ensures
        ({
            let vals = trial_values(
                space_values@,
                overrides.values@,
                trial_id,
                artifacts_dir@,
                inject_trial_placeholders,
            );
            let dir = trial_dir_of(
                space_values@.union_prefer_right(overrides.values@),
                trial_id,
                artifacts_dir@,
            );
            match render_from(template@, vals, 0) {
                Ok(cmd) => r matches Ok(t) && t.command@ == cmd && t.fields@ == trial_fields(
                    space_fields@,
                    overrides.fields@,
                    dir,
                    trial_id,
                    inject_trial_placeholders,
                ) && t.env@ == trial_env(overrides.env@, dir, trial_id, inject_trial_placeholders)
                    && (if inject_trial_placeholders {
                    t.trial_dir matches Some(d) && d@ == dir
                } else {
                    t.trial_dir is None
                }),
                Err(e) => r matches Err(x) && x@ == e,
            }
        }),
{
    let mut values = space_values.clone();
    values.extend_from(&overrides.values);
    let mut fields = space_fields.clone();
    fields.extend_from(&overrides.fields);
    let mut env = overrides.env.clone();
    let mut trial_dir: Option<String> = None;
    if inject_trial_placeholders {
        let dir_value = match values.get("trial_dir") {
            Some(v) => v.clone(),
            None => {
                let id = usize_text(trial_id);
                concat_str("trial_", id.as_str())
            },
        };
        let dir = path_join(artifacts_dir, dir_value.as_str());
        values.insert("trial_id".to_owned(), usize_text(trial_id));
        values.insert_if_absent("trial_dir".to_owned(), dir.clone());
        fields.insert("trial_id".to_owned(), usize_text(trial_id));
        fields.insert_if_absent("trial_dir".to_owned(), dir.clone());
        env.insert("ARGTUNER_TRIAL_ID".to_owned(), usize_text(trial_id));
        env.insert_if_absent("ARGTUNER_TRIAL_DIR".to_owned(), dir.clone());
        trial_dir = Some(dir);
    }
    let command = match template.render(&values) {
        Ok(c) => c,
        Err(e) => {
            return Err(e);
        },
    };
    Ok(RenderedTrial { command, fields, trial_dir, env })
}

/// Render a trial without scheduler overrides.
pub fn render_trial_command(
    template: &CommandTemplate,
    space_values: &FieldMap,
    space_fields: &FieldMap,
    trial_id: usize,
    artifacts_dir: &str,
    inject_trial_placeholders: bool,
) -> (r: Result<RenderedTrial, TemplateError>)
    ensures
        ({
            let empty = Map::<Seq<char>, Seq<char>>::empty();
            let vals = trial_values(
                space_values@,
                empty,
                trial_id,
                artifacts_dir@,
                inject_trial_placeholders,
            );
            let dir = trial_dir_of(
                space_values@.union_prefer_right(empty),
                trial_id,
                artifacts_dir@,
            );
            match render_from(template@, vals, 0) {
                Ok(cmd) => r matches Ok(t) && t.command@ == cmd && t.fields@ == trial_fields(
                    space_fields@,
                    empty,
                    dir,
                    trial_id,
                    inject_trial_placeholders,
                ) && t.env@ == trial_env(empty, dir, trial_id, inject_trial_placeholders),
                Err(e) => r matches Err(x) && x@ == e,
            }
        }),
{
    let overrides = TrialOverrides::default();
    render_trial_command_with_overrides(
        template,
        space_values,
        space_fields,
        trial_id,
        artifacts_dir,
        inject_trial_placeholders,
        &overrides,
    )
}

/// The field that records the value of metric `metric_key`: `metric.<key>`.
pub fn metric_value_field(metric_key: &str) -> (r: String)
    ensures
        r@ == "metric."@ + metric_key@,
{
    concat_str("metric.", metric_key)
}

/// The fields recorded for a failed trial: the existing fields, then the
/// rendered fields and the extra fields where absent; `score` is `inf` unless
/// already set.
pub open spec fn error_fields(
    existing: Map<Seq<char>, Seq<char>>,
    rendered: Map<Seq<char>, Seq<char>>,
    extra: Map<Seq<char>, Seq<char>>,
) -> Map<Seq<char>, Seq<char>> {
    let m = extra.union_prefer_right(rendered.union_prefer_right(existing));
    insert_absent(m, "score"@, "inf"@)
}

/// Fields for a trial that failed: existing values (hyperparameters,
/// metric, score) are never replaced.
pub fn merge_error_fields(
    existing: Option<&FieldMap>,
    rendered: &FieldMap,
    extra_fields: FieldMap,
) -> (r: FieldMap)
    ensures
        r@ == error_fields(
            match existing {
                Some(e) => e@,
                None => Map::empty(),
            },
            rendered@,
            extra_fields@,
        ),
{
    let mut out = match existing {
        Some(e) => e.clone(),
        None => FieldMap::new(),
    };
    out.fill_from(rendered);
    out.fill_from(&extra_fields);
    out.insert_if_absent("score".to_owned(), "inf".to_owned());
    out
}

/// The rendered fields over `e`, in key order: a rendered value replaces
/// the existing one, except for a hyperparameter (`hp.`) already present.
pub open spec fn running_merge(e: Map<Seq<char>, Seq<char>>, ps: Seq<(Seq<char>, Seq<char>)>) -> Map<
    Seq<char>,
    Seq<char>,
>
    decreases ps.len(),
{
    if ps.len() == 0 {
        e
    } else {
        let prev = running_merge(e, ps.drop_last());
        let k = ps.last().0;
        if has_prefix(k, "hp."@) && prev.contains_key(k) {
            prev
        } else {
            prev.insert(k, ps.last().1)
        }
    }
}

/// The fields without the status, elapsed time and error of a past run.
pub open spec fn without_run_status(e: Map<Seq<char>, Seq<char>>) -> Map<Seq<char>, Seq<char>> {
    e.remove("status"@).remove("elapsed_ms"@).remove("error"@)
}

/// Recorded values survive a failure: every field a trial already had
/// keeps its value in the fields recorded for its failure.
pub proof fn lemma_error_fields_keep_existing(
    existing: Map<Seq<char>, Seq<char>>,
    rendered: Map<Seq<char>, Seq<char>>,
    extra: Map<Seq<char>, Seq<char>>,
    k: Seq<char>,
)
    requires
        existing.contains_key(k),
    ensures
        error_fields(existing, rendered, extra).contains_key(k),
        error_fields(existing, rendered, extra)[k] == existing[k],
{
}

/// Recorded hyperparameters are immutable: when a trial restarts, each
/// `hp.` field it already had keeps its value, whatever the new rendering
/// says.
pub proof fn lemma_running_merge_keeps_hp(
    existing: Map<Seq<char>, Seq<char>>,
    ps: Seq<(Seq<char>, Seq<char>)>,
    k: Seq<char>,
)
    requires
        has_prefix(k, "hp."@),
        existing.contains_key(k),
    ensures
        running_merge(without_run_status(existing), ps).contains_key(k),
        running_merge(without_run_status(existing), ps)[k] == existing[k],
    decreases ps.len(),
{
    reveal_strlit("hp.");
    reveal_strlit("status");
    reveal_strlit("elapsed_ms");
    reveal_strlit("error");
    assert(k.subrange(0, 3)[0] == k[0]);
    assert(k != "status"@) by {
        assert(k[0] == 'h');
    }
    assert(k != "elapsed_ms"@) by {
        assert(k[0] == 'h');
    }
    assert(k != "error"@) by {
        assert(k[0] == 'h');
    }
    if ps.len() > 0 {
        lemma_running_merge_keeps_hp(existing, ps.drop_last(), k);
    }
}

/// Fields for a trial that (re)starts: the past run's status, elapsed time
/// and error go; the rendered fields are written over the rest, except that
/// hyperparameters already recorded stay.
pub fn merge_running_fields(existing: FieldMap, rendered: &FieldMap) -> (r: FieldMap)
    ensures
        r@ == running_merge(
            without_run_status(existing@),
            crate::fields::sorted_pairs(rendered@),
        ),
{
    let mut existing = existing;
    existing.remove("status");
    existing.remove("elapsed_ms");
    existing.remove("error");
    let ps = rendered.entries();
    let ghost e0 = existing@;
    let ghost pv = crate::fields::pair_views(ps@);
    let mut i: usize = 0;
    while i < ps.len()
        invariant
            i <= ps@.len(),
            pv == crate::fields::pair_views(ps@),
            existing@ == running_merge(e0, pv.take(i as int)),
        decreases ps@.len() - i,
    {
        let k = &ps[i].0;
        proof {
            assert(pv.take(i + 1).drop_last() =~= pv.take(i as int));
        }
        if str_starts_with(k.as_str(), "hp.") && existing.contains_key(k.as_str()) {
        } else {
            existing.insert(k.clone(), ps[i].1.clone());
        }
        i = i + 1;
    }
    proof {
        assert(pv.take(ps@.len() as int) =~= pv);
    }
    existing
}

/// Write every existing field back over `out_fields`, so that recorded
/// values (hyperparameters in particular) never change; a recorded
/// hyperparameter whose new value differs is reported on standard error.
pub fn enforce_hp_immutability(existing: Option<&FieldMap>, out_fields: &mut FieldMap)
    ensures
        match existing {
            Some(e) => final(out_fields)@ == old(out_fields)@.union_prefer_right(e@),
            None => final(out_fields)@ == old(out_fields)@,
        },
{
    match existing {
        Some(e) => {
            warn_replaced_hps(e, out_fields);
            out_fields.extend_from(e);
        },
        None => {},
    }
}

/// Warn on standard error of each recorded hyperparameter whose new value
/// differs and is about to be ignored.
fn warn_replaced_hps(existing: &FieldMap, out_fields: &FieldMap) {
    let entries = existing.entries();
    let mut i: usize = 0;
    while i < entries.len()
        decreases entries@.len() - i,
    {
        let key = &entries[i].0;
        let value = &entries[i].1;
        if str_starts_with(key.as_str(), "hp.") {
            match out_fields.get(key.as_str()) {
                Some(next) => {
                    if !str_eq(next.as_str(), value.as_str()) {
                        let a = concat_str("warn: preserving existing ", key.as_str());
                        let b = concat_str(a.as_str(), "=");
                        let c = concat_str(b.as_str(), value.as_str());
                        let d = concat_str(c.as_str(), " (new value ");
                        let e = concat_str(d.as_str(), next.as_str());
                        let f = concat_str(e.as_str(), " ignored)");
                        print_error_line(f.as_str());
                    }
                },
                None => {},
            }
        }
        i = i + 1;
    }
}

} // verus!
