//! The decisions of evaluating one trial: what the finished command's
//! output means, and which fields the trial's records get.

use vstd::prelude::*;

use super::subprocess::ipc::{lines_from, text_lines};
use super::subprocess::runner::{payload_fields_of, CommandOutput, CommandResultPayload};
use super::subprocess::talkback::message_groups;
use super::subprocess::runner::payload_data;
use crate::fields::{sorted_pairs, FieldMap};
use crate::text::{concat_str, decimal, parse_usize, trim, usize_text};
use crate::trial::store::{TrialRecord, TrialStatus};
use crate::trial::{
    enforce_hp_immutability, error_fields, insert_absent, merge_error_fields, TrialOverrides,
};

verus! {

/// A line that is not blank once trimmed.
pub open spec fn non_blank(l: Seq<char>) -> bool {
    trim(l).len() > 0
}

/// The non-blank lines among the first `n`.
pub open spec fn non_blank_lines(ls: Seq<Seq<char>>, n: int) -> Seq<Seq<char>>
    decreases n,
{
    if n <= 0 {
        Seq::empty()
    } else if non_blank(ls[n - 1]) {
        non_blank_lines(ls, n - 1).push(ls[n - 1])
    } else {
        non_blank_lines(ls, n - 1)
    }
}

/// Lines joined by `\n`.
pub open spec fn joined_lines(ls: Seq<Seq<char>>) -> Seq<char>
    decreases ls.len(),
{
    if ls.len() == 0 {
        Seq::empty()
    } else if ls.len() == 1 {
        ls[0]
    } else {
        joined_lines(ls.drop_last()) + "\n"@ + ls.last()
    }
}

/// The last `max_lines` non-blank lines of `output`, joined by `\n`.
pub open spec fn tail_of(output: Seq<char>, max_lines: usize) -> Seq<char> {
    let ls = text_lines(output);
    let nb = non_blank_lines(ls, ls.len() as int);
    let start = if nb.len() > max_lines {
        nb.len() - max_lines
    } else {
        0
    };
    joined_lines(nb.subrange(start, nb.len() as int))
}

/// The last `max_lines` non-blank lines of `output`.
pub fn tail_lines(output: &str, max_lines: usize) -> (r: String)
    ensures
        r@ == tail_of(output@, max_lines),
{
    let lines = super::subprocess::ipc::split_lines(output);
    let ghost ls = crate::text::views(lines@);
    let mut nb: Vec<String> = Vec::new();
    let mut i: usize = 0;
    while i < lines.len()
        invariant
            i <= lines@.len(),
            ls == crate::text::views(lines@),
            crate::text::views(nb@) == non_blank_lines(ls, i as int),
        decreases lines@.len() - i,
    {
        let t = crate::text::trim_string(lines[i].as_str());
        assert(ls[i as int] == lines@[i as int]@);
        if t.as_str().unicode_len() > 0 {
            let ghost prev = nb@;
            let x = lines[i].clone();
            nb.push(x);
            assert(crate::text::views(nb@) =~= crate::text::views(prev).push(ls[i as int]));
        }
        i = i + 1;
    }
    let start = if nb.len() > max_lines {
        nb.len() - max_lines
    } else {
        0
    };
    let ghost sel = crate::text::views(nb@).subrange(start as int, nb@.len() as int);
    let mut out: Vec<char> = Vec::new();
    let mut k: usize = start;
    while k < nb.len()
        invariant
            start <= k <= nb@.len(),
            sel == crate::text::views(nb@).subrange(start as int, nb@.len() as int),
            out@ == joined_lines(sel.take(k - start)),
        decreases nb@.len() - k,
    {
        let ghost before = out@;
        if k > start {
            out.push('\n');
        }
        let w = crate::text::chars_of(nb[k].as_str());
        let mut q: usize = 0;
        while q < w.len()
            invariant
                q <= w@.len(),
                out@ == (if k > start { before + seq!['\n'] } else { before }) + w@.take(q as int),
            decreases w@.len() - q,
        {
            out.push(w[q]);
            proof {
                assert(w@.take(q + 1) =~= w@.take(q as int).push(w@[q as int]));
            }
            q = q + 1;
        }
        proof {
            reveal_strlit("\n");
            assert(w@.take(w@.len() as int) =~= w@);
            let t1 = sel.take(k + 1 - start);
            assert(t1.drop_last() =~= sel.take(k - start));
            assert(t1.last() == w@);
            if k == start {
                assert(before =~= Seq::<char>::empty());
                assert(out@ =~= w@);
            } else {
                assert(out@ =~= before + "\n"@ + w@);
            }
        }
        k = k + 1;
    }
    proof {
        assert(sel.take(nb@.len() - start) =~= sel);
    }
    crate::text::string_of(&out)
}

/// The decimal text of an `i32` (`i32::to_string`).
pub open spec fn i32_text(v: i32) -> Seq<char> {
    if v < 0 {
        "-"@ + decimal((-v) as nat)
    } else {
        decimal(v as nat)
    }
}

/// The decimal text of an `i32`.
pub fn int_text(v: i32) -> (r: String)
    ensures
        r@ == i32_text(v),
{
    if v < 0 {
        let m: u64 = if v == i32::MIN {
            2147483648u64
        } else {
            (-v) as u64
        };
        let mut digits: Vec<char> = Vec::new();
        crate::text::push_decimal_u128(m as u128, &mut digits);
        let d = crate::text::string_of(&digits);
        assert(digits@ =~= decimal((-v) as nat));
        concat_str("-", d.as_str())
    } else {
        usize_text(v as usize)
    }
}

/// How a finished trial command turned out.
#[derive(Debug)]
pub enum CommandOutcome {
    /// The command failed, or its output could not be read.
    Failed(String),
    /// The trial's protocol binding has another version.
    BindingMismatch { expected: String, got: String },
    /// The trial rejected its configuration.
    InvalidConfig { message: String, fields: FieldMap },
    /// The trial finished with this payload.
    Completed(CommandResultPayload),
}

/// The payload key of the binding version a trial reports.
pub open spec fn binding_version_key() -> Seq<char> {
    "tuner.binding_version.version"@
}

/// What a finished command's output means. A non-zero exit fails with the
/// last non-blank output line; an unreadable protocol message fails with
/// its error; a binding of another version is reported; an invalid-config
/// event gives its reason (`error`, or `invalid_config`) and the payload's
/// fields; otherwise the trial completed with its payload.
pub fn command_outcome(output: &CommandOutput, prefix: &str, expected_version: &str) -> (r:
    CommandOutcome)
    ensures
        output.exit_code != 0 ==> ({
            let tail = tail_of(output.stdout@, 1);
            let shown = if tail.len() == 0 {
                "<no output>"@
            } else {
                tail
            };
            r matches CommandOutcome::Failed(m) && m@ == "command exited with code "@ + i32_text(
                output.exit_code,
            ) + ": "@ + shown
        }),
        output.exit_code == 0 ==> match message_groups(
            text_lines(output.stdout@),
            prefix@,
            text_lines(output.stdout@).len() as int,
        ) {
            Err(e) => r matches CommandOutcome::Failed(m) && m@ == "parse error: "@ + e,
            Ok(gs) => {
                let data = payload_data(gs);
                if data.contains_key(binding_version_key()) && data[binding_version_key()]
                    != expected_version@ {
                    r matches CommandOutcome::BindingMismatch { expected, got } && expected@
                        == expected_version@ && got@ == data[binding_version_key()]
                } else if data.contains_key("model.invalid_config"@)
                    && crate::text::parse_bool_spec(data["model.invalid_config"@]) == Some(true) {
                    let reason = if data.contains_key("error"@) {
                        data["error"@]
                    } else {
                        "invalid_config"@
                    };
                    r matches CommandOutcome::InvalidConfig { message, fields } && message@
                        == "invalid_config: "@ + reason && fields@ == payload_fields_of(
                        sorted_pairs(data),
                    )
                } else {
                    r matches CommandOutcome::Completed(p) && p.data@ == data
                }
            },
        },
{
    if output.exit_code != 0 {
        let tail = tail_lines(output.stdout.as_str(), 1);
        let shown = if tail.as_str().unicode_len() == 0 {
            "<no output>".to_owned()
        } else {
            tail
        };
        let a = concat_str("command exited with code ", int_text(output.exit_code).as_str());
        let b = concat_str(a.as_str(), ": ");
        return CommandOutcome::Failed(concat_str(b.as_str(), shown.as_str()));
    }
    let payload = match output.parse_payload(prefix) {
        Ok(p) => p,
        Err(e) => {
            return CommandOutcome::Failed(e);
        },
    };
    match payload.data.get("tuner.binding_version.version") {
        Some(version) => {
            if !crate::text::str_eq(version.as_str(), expected_version) {
                return CommandOutcome::BindingMismatch {
                    expected: expected_version.to_owned(),
                    got: version.clone(),
                };
            }
        },
        None => {},
    }
    if payload.get_bool("model.invalid_config") {
        let reason = match payload.data.get("error") {
            Some(e) => e.clone(),
            None => "invalid_config".to_owned(),
        };
        let fields = payload.to_fields();
        return CommandOutcome::InvalidConfig {
            message: concat_str("invalid_config: ", reason.as_str()),
            fields,
        };
    }
    CommandOutcome::Completed(payload)
}

/// The configuration id a scheduler put in the overrides, if it parses.
pub fn override_config_id(overrides: &TrialOverrides) -> (r: Option<usize>)
    ensures
        r == (if overrides.fields@.contains_key("trial.config_id"@) {
            crate::text::parsed_usize(overrides.fields@["trial.config_id"@])
        } else {
            None
        }),
{
    match overrides.fields.get("trial.config_id") {
        Some(v) => parse_usize(v.as_str()),
        None => None,
    }
}

/// Record the configuration's previous trial as the parent of this one.
pub fn inherit_parent(overrides: &mut TrialOverrides, parent_id: Option<usize>)
    ensures
        final(overrides).values@ == old(overrides).values@,
        final(overrides).env@ == old(overrides).env@,
        final(overrides).fields@ == match parent_id {
            Some(p) => old(overrides).fields@.insert("trial.parent_trial_id"@, decimal(p as nat)),
            None => old(overrides).fields@,
        },
{
    match parent_id {
        Some(p) => {
            overrides.fields.insert("trial.parent_trial_id".to_owned(), usize_text(p));
        },
        None => {},
    }
}

/// The hyperparameters recorded in `existing` (`hp.<name>`), by name.
pub open spec fn recorded_hps(existing: Map<Seq<char>, Seq<char>>) -> Map<Seq<char>, Seq<char>> {
    Map::new(
        |name: Seq<char>| existing.contains_key("hp."@ + name),
        |name: Seq<char>| existing["hp."@ + name],
    )
}

/// The recorded `hp.` fields of `existing`.
pub open spec fn recorded_hp_fields(existing: Map<Seq<char>, Seq<char>>) -> Map<
    Seq<char>,
    Seq<char>,
> {
    crate::trial::store::hp_only(existing)
}

/// Reuse the hyperparameters a trial already recorded: each `hp.<name>`
/// field sets the placeholder `name` and the field itself.
pub fn apply_existing_hps(overrides: &mut TrialOverrides, existing: &FieldMap)
    ensures
        final(overrides).values@ == old(overrides).values@.union_prefer_right(
            recorded_hps(existing@),
        ),
        final(overrides).fields@ == old(overrides).fields@.union_prefer_right(
            recorded_hp_fields(existing@),
        ),
        final(overrides).env@ == old(overrides).env@,
{
    let ps = existing.entries();
    let ghost v0 = overrides.values@;
    let ghost f0 = overrides.fields@;
    let ghost m = crate::fields::entries_map(ps@);
    proof {
        crate::fields::lemma_entries_map(ps@);
        reveal_strlit("hp.");
    }
    let mut i: usize = 0;
    while i < ps.len()
        invariant
            i <= ps@.len(),
            m == crate::fields::entries_map(ps@),
            m == existing@,
            crate::fields::keys_distinct(ps@),
            "hp."@.len() == 3,
            overrides.values@ == v0.union_prefer_right(
                recorded_hps(crate::fields::entries_map(ps@.take(i as int))),
            ),
            overrides.fields@ == f0.union_prefer_right(
                recorded_hp_fields(crate::fields::entries_map(ps@.take(i as int))),
            ),
            overrides.env@ == old(overrides).env@,
            v0 == old(overrides).values@,
            f0 == old(overrides).fields@,
        decreases ps@.len() - i,
    {
        let ghost prev = crate::fields::entries_map(ps@.take(i as int));
        proof {
            assert(ps@.take(i + 1).drop_last() =~= ps@.take(i as int));
            crate::fields::lemma_entries_map(ps@.take(i as int));
            assert(crate::fields::keys_distinct(ps@.take(i as int)));
            assert(!prev.contains_key(ps@[i as int].0@)) by {
                if prev.contains_key(ps@[i as int].0@) {
                    let j = choose|j: int|
                        0 <= j < ps@.take(i as int).len() && ps@.take(i as int)[j].0@ == ps@[i
                            as int].0@;
                    assert(ps@[j].0@ == ps@[i as int].0@);
                }
            }
        }
        let key = &ps[i].0;
        if crate::text::str_starts_with(key.as_str(), "hp.") {
            let kc = crate::text::chars_of(key.as_str());
            let mut name_chars: Vec<char> = Vec::new();
            let mut q: usize = 3;
            while q < kc.len()
                invariant
                    3 <= q <= kc@.len(),
                    name_chars@ == kc@.subrange(3, q as int),
                decreases kc@.len() - q,
            {
                name_chars.push(kc[q]);
                q = q + 1;
            }
            let name = crate::text::string_of(&name_chars);
            proof {
                assert(key@ =~= "hp."@ + name@);
            }
            overrides.values.insert(name, ps[i].1.clone());
            overrides.fields.insert(key.clone(), ps[i].1.clone());
        }
        proof {
            let cur = crate::fields::entries_map(ps@.take(i + 1));
            let k = ps@[i as int].0@;
            let v = ps@[i as int].1@;
            assert(cur == prev.insert(k, v));
            if crate::text::has_prefix(k, "hp."@) {
                let name = k.subrange(3, k.len() as int);
                assert forall|n: Seq<char>| #[trigger] recorded_hps(cur).contains_key(n) <==> recorded_hps(prev).insert(name, v).contains_key(n) by {
                    lemma_hp_key(k, n);
                }
                assert forall|n: Seq<char>| #[trigger] recorded_hps(cur).contains_key(n) implies recorded_hps(cur)[n] == recorded_hps(prev).insert(name, v)[n] by {
                    lemma_hp_key(k, n);
                }
                assert(recorded_hps(cur) =~= recorded_hps(prev).insert(name, v));
                assert(recorded_hp_fields(cur) =~= recorded_hp_fields(prev).insert(k, v));
            } else {
                assert forall|n: Seq<char>| #[trigger] recorded_hps(cur).contains_key(n) <==> recorded_hps(prev).contains_key(n) by {
                    lemma_hp_key(k, n);
                }
                assert forall|n: Seq<char>| #[trigger] recorded_hps(cur).contains_key(n) implies recorded_hps(cur)[n] == recorded_hps(prev)[n] by {
                    lemma_hp_key(k, n);
                }
                assert(recorded_hps(cur) =~= recorded_hps(prev));
                assert(recorded_hp_fields(cur) =~= recorded_hp_fields(prev));
            }
            assert(overrides.values@ =~= v0.union_prefer_right(recorded_hps(cur)));
            assert(overrides.fields@ =~= f0.union_prefer_right(recorded_hp_fields(cur)));
        }
        i = i + 1;
    }
    proof {
        assert(ps@.take(ps@.len() as int) =~= ps@);
    }
}

/// `hp.<n>` is the key `k` exactly when `k` is an `hp.` key named `n`.
proof fn lemma_hp_key(k: Seq<char>, n: Seq<char>)
    ensures
        ("hp."@ + n == k) <==> (crate::text::has_prefix(k, "hp."@) && n == k.subrange(
            3,
            k.len() as int,
        )),
{
    reveal_strlit("hp.");
    if "hp."@ + n == k {
        assert(k.subrange(0, 3) =~= "hp."@);
        assert(k.subrange(3, k.len() as int) =~= n);
    }
    if crate::text::has_prefix(k, "hp."@) && n == k.subrange(3, k.len() as int) {
        assert(k =~= "hp."@ + n);
    }
}

/// The message for a recorded hyperparameter the search space rejects.
pub fn invalid_existing_message(trial_id: usize, name: &str, value: &str) -> (r: String)
    ensures
        r@ == "existing trial "@ + decimal(trial_id as nat) + " has invalid value for "@ + name@
            + ": "@ + value@,
{
    let a = concat_str("existing trial ", usize_text(trial_id).as_str());
    let b = concat_str(a.as_str(), " has invalid value for ");
    let c = concat_str(b.as_str(), name);
    let d = concat_str(c.as_str(), ": ");
    concat_str(d.as_str(), value)
}

/// The fields of a trial without its run status, error, elapsed time and id.
pub fn without_run_fields(existing: &FieldMap) -> (r: FieldMap)
    ensures
        r@ == existing@.remove("status"@).remove("error"@).remove("elapsed_ms"@).remove(
            "trial_id"@,
        ),
{
    let mut f = existing.clone();
    f.remove("status");
    f.remove("error");
    f.remove("elapsed_ms");
    f.remove("trial_id");
    f
}

/// The fields recorded for a finished trial (or epoch): the rendered
/// fields, the reported fields where absent, the metric value where absent,
/// then the metric key and score; the previously recorded fields win over
/// all of these.
pub open spec fn result_fields_of(
    base: Map<Seq<char>, Seq<char>>,
    reported: Map<Seq<char>, Seq<char>>,
    metric_key: Seq<char>,
    metric_text: Seq<char>,
    score_text: Seq<char>,
    existing: Option<Map<Seq<char>, Seq<char>>>,
) -> Map<Seq<char>, Seq<char>> {
    let m = insert_absent(
        reported.union_prefer_right(base),
        "metric."@ + metric_key,
        metric_text,
    ).insert("metric"@, metric_key).insert("score"@, score_text);
    match existing {
        Some(e) => m.union_prefer_right(e),
        None => m,
    }
}

/// The fields recorded for a finished trial or one of its epochs; the
/// metric and score come as their texts.
pub fn result_fields(
    base: &FieldMap,
    reported: &FieldMap,
    metric_key: &str,
    metric_text: &str,
    score_text: &str,
    existing: Option<&FieldMap>,
) -> (r: FieldMap)
    ensures
        r@ == result_fields_of(
            base@,
            reported@,
            metric_key@,
            metric_text@,
            score_text@,
            match existing {
                Some(e) => Some(e@),
                None => None,
            },
        ),
{
    let mut out = base.clone();
    out.fill_from(reported);
    out.insert_if_absent(crate::trial::metric_value_field(metric_key), metric_text.to_owned());
    out.insert("metric".to_owned(), metric_key.to_owned());
    out.insert("score".to_owned(), score_text.to_owned());
    crate::trial::enforce_hp_immutability(existing, &mut out);
    out
}

/// Whether a failed trial's error marks an invalid configuration, which a
/// scheduler may retry.
pub fn is_invalid_config_error(err: &str) -> (r: bool)
    ensures
        r == crate::text::has_prefix(err@, "invalid_config:"@),
{
    crate::text::str_starts_with(err, "invalid_config:")
}

/// Whether a failed trial's error says that its configuration already ran.
pub fn is_duplicate_config_error(err: &str) -> (r: bool)
    ensures
        r == crate::text::has_prefix(err@, "invalid_config: duplicate_config"@),
{
    crate::text::str_starts_with(err, "invalid_config: duplicate_config")
}


/// How a trial's run ended: it finished with its reported fields and the
/// texts of its metric and score, or it failed with an error and any fields
/// the trial reported with it.
pub enum TrialEnd {
    Finished { reported: FieldMap, metric_text: String, score_text: String },
    Failed { error: String, extra: FieldMap },
}

/// The fields of a failed trial's record: the recorded fields, the rendered
/// ones and the reported ones, each filling what is absent, with the
/// recorded fields (hyperparameters among them) kept as they were.
pub open spec fn failed_fields(
    existing: Option<Map<Seq<char>, Seq<char>>>,
    rendered: Map<Seq<char>, Seq<char>>,
    extra: Map<Seq<char>, Seq<char>>,
) -> Map<Seq<char>, Seq<char>> {
    let merged = error_fields(
        match existing {
            Some(e) => e,
            None => Map::empty(),
        },
        rendered,
        extra,
    );
    match existing {
        Some(e) => merged.union_prefer_right(e),
        None => merged,
    }
}

/// The final record of a trial run: `ok` with the result fields when it
/// finished; `error` with its error message and the merged fields when it
/// failed.
pub fn final_record(
    trial_id: usize,
    elapsed_ms: u128,
    rendered: &FieldMap,
    existing: Option<&FieldMap>,
    metric_key: &str,
    end: TrialEnd,
) -> (r: TrialRecord)
    ensures
        r.trial_id == trial_id,
        r.elapsed_ms == elapsed_ms,
        match end {
            TrialEnd::Finished { reported, metric_text, score_text } => {
                &&& r.status == TrialStatus::Completed
                &&& r.error is None
                &&& r.fields@ == result_fields_of(
                    rendered@,
                    reported@,
                    metric_key@,
                    metric_text@,
                    score_text@,
                    match existing {
                        Some(e) => Some(e@),
                        None => None,
                    },
                )
            },
            TrialEnd::Failed { error, extra } => {
                &&& r.status == TrialStatus::Error
                &&& r.error matches Some(m) && m@ == error@
                &&& r.fields@ == failed_fields(
                    match existing {
                        Some(e) => Some(e@),
                        None => None,
                    },
                    rendered@,
                    extra@,
                )
            },
        },
{
    match end {
        TrialEnd::Finished { reported, metric_text, score_text } => {
            let fields = result_fields(
                rendered,
                &reported,
                metric_key,
                metric_text.as_str(),
                score_text.as_str(),
                existing,
            );
            TrialRecord { trial_id, status: TrialStatus::Completed, elapsed_ms, error: None, fields }
        },
        TrialEnd::Failed { error, extra } => {
            let mut fields = merge_error_fields(existing, rendered, extra);
            enforce_hp_immutability(existing, &mut fields);
            TrialRecord { trial_id, status: TrialStatus::Error, elapsed_ms, error: Some(error), fields }
        },
    }
}

} // verus!
