//! Checks a project's configuration against its command template before a
//! campaign starts.

use vstd::prelude::*;

use crate::command::template::{
    is_flag, placeholder_text, shell_split, shell_words_of, unbound_message, unbound_message_text,
    CommandTemplate,
};
use crate::project::ProjectConfig;
use crate::scheduler::{budget_placeholder_allowed, Scheduler, SchedulerBinding};
use crate::text::{
    chars_contains, chars_of, concat_str, has_infix, has_prefix, str_contains, str_eq,
    str_starts_with, views,
};

verus! {

/// Token `i` passes the trial directory to the checkpoint argument: as
/// `ARG=..{trial_dir}..`, or as `ARG` followed by a token holding
/// `{trial_dir}`.
pub open spec fn marks_checkpoint(toks: Seq<Seq<char>>, arg: Seq<char>, i: int) -> bool {
    ||| (has_prefix(toks[i], arg + "="@) && has_infix(
        toks[i].subrange(arg.len() + 1int, toks[i].len() as int),
        "{trial_dir}"@,
    ))
    ||| (toks[i] == arg && i + 1 < toks.len() && has_infix(toks[i + 1], "{trial_dir}"@))
}

/// Some token passes the trial directory to the checkpoint argument.
pub open spec fn checkpoint_in_tokens(toks: Seq<Seq<char>>, arg: Seq<char>) -> bool {
    exists|i: int| 0 <= i < toks.len() && #[trigger] marks_checkpoint(toks, arg, i)
}

/// Whether the tokens pass `{trial_dir}` to `checkpoint_arg`.
pub fn tokens_have_checkpoint_dir(tokens: &[String], checkpoint_arg: &str) -> (r: bool)
    ensures
        r == checkpoint_in_tokens(views(tokens@), checkpoint_arg@),
{
    let ghost toks = views(tokens@);
    proof {
        reveal_strlit("=");
    }
    let arg_eq = concat_str(checkpoint_arg, "=");
    let pv = chars_of("{trial_dir}");
    let mut idx: usize = 0;
    while idx < tokens.len()
        invariant
            idx <= tokens@.len(),
            toks == views(tokens@),
            arg_eq@ == checkpoint_arg@ + "="@,
            pv@ == "{trial_dir}"@,
            forall|j: int| 0 <= j < idx ==> !#[trigger] marks_checkpoint(toks, checkpoint_arg@, j),
        decreases tokens@.len() - idx,
    {
        let token = &tokens[idx];
        assert(toks[idx as int] == token@);
        proof {
            reveal_strlit("=");
        }
        if str_starts_with(token.as_str(), arg_eq.as_str()) {
            let tc = chars_of(token.as_str());
            let start = chars_of(arg_eq.as_str()).len();
            let mut rest: Vec<char> = Vec::new();
            let mut k: usize = start;
            while k < tc.len()
                invariant
                    start <= k <= tc@.len(),
                    rest@ == tc@.subrange(start as int, k as int),
                decreases tc@.len() - k,
            {
                rest.push(tc[k]);
                k = k + 1;
            }
            if chars_contains(&rest, &pv) {
                assert(marks_checkpoint(toks, checkpoint_arg@, idx as int));
                return true;
            }
        }
        if str_eq(token.as_str(), checkpoint_arg) && idx + 1 < tokens.len() {
            if str_contains(tokens[idx + 1].as_str(), "{trial_dir}") {
                assert(toks[idx + 1] == tokens@[idx + 1]@);
                assert(marks_checkpoint(toks, checkpoint_arg@, idx as int));
                return true;
            }
        }
        assert(!marks_checkpoint(toks, checkpoint_arg@, idx as int)) by {
            if idx + 1 < tokens@.len() {
                assert(toks[idx + 1] == tokens@[idx + 1]@);
            }
        }
        idx = idx + 1;
    }
    false
}

/// The template passes the trial directory to the checkpoint argument. When
/// it cannot be split into words, it must merely mention both.
pub open spec fn checkpoint_in_template(t: Seq<char>, arg: Seq<char>) -> bool {
    match shell_words_of(t) {
        Some(toks) => checkpoint_in_tokens(toks, arg),
        None => has_infix(t, arg) && has_infix(t, "{trial_dir}"@),
    }
}

/// Whether the template passes `{trial_dir}` to `checkpoint_arg`.
pub fn template_has_checkpoint_dir(template: &CommandTemplate, checkpoint_arg: &str) -> (r: bool)
    ensures
        r == checkpoint_in_template(template@, checkpoint_arg@),
{
    let text = template.as_str();
    match shell_split(text) {
        Ok(tokens) => tokens_have_checkpoint_dir(&tokens, checkpoint_arg),
        Err(_) => str_contains(text, checkpoint_arg) && str_contains(text, "{trial_dir}"),
    }
}

/// The placeholder of `name` sits in a flag token, or right after one.
pub open spec fn flag_bound(toks: Seq<Seq<char>>, name: Seq<char>) -> bool {
    exists|i: int|
        0 <= i < toks.len() && #[trigger] has_infix(toks[i], placeholder_text(name)) && (is_flag(
            toks[i],
        ) || (i > 0 && is_flag(toks[i - 1])))
}

/// The first of the first `n` names that is not flag-bound.
pub open spec fn first_unbound(toks: Seq<Seq<char>>, names: Seq<Seq<char>>, n: int) -> Option<
    Seq<char>,
>
    decreases n,
{
    if n <= 0 {
        None
    } else {
        match first_unbound(toks, names, n - 1) {
            Some(x) => Some(x),
            None => if flag_bound(toks, names[n - 1]) {
                None
            } else {
                Some(names[n - 1])
            },
        }
    }
}

/// The outcome of checking conditional parameters against a template.
pub open spec fn conditional_check(t: Seq<char>, names: Seq<Seq<char>>) -> Result<(), Seq<char>> {
    match shell_words_of(t) {
        None => Err("template tokenize failed: "@ + "missing closing quote"@),
        Some(toks) => tokens_check(toks, names),
    }
}

/// The outcome of checking conditional parameters against a template's
/// words: the first one whose placeholder is not flag-bound is refused.
pub open spec fn tokens_check(toks: Seq<Seq<char>>, names: Seq<Seq<char>>) -> Result<(), Seq<char>> {
    match first_unbound(toks, names, names.len() as int) {
        Some(n) => Err(unbound_message(n)),
        None => Ok(()),
    }
}

/// Whether the placeholder of `name` is bound to a flag.
fn name_is_flag_bound(tokens: &Vec<Vec<char>>, name: &str) -> (r: bool)
    ensures
        r == flag_bound(tokens@.map_values(|t: Vec<char>| t@), name@),
{
    let ghost toks = tokens@.map_values(|t: Vec<char>| t@);
    proof {
        reveal_strlit("{");
    }
    let mut ph: Vec<char> = chars_of("{");
    assert(ph@ =~= seq!['{'] + Seq::<char>::empty());
    let nc = chars_of(name);
    let mut q: usize = 0;
    while q < nc.len()
        invariant
            q <= nc@.len(),
            ph@ == seq!['{'] + nc@.take(q as int),
        decreases nc@.len() - q,
    {
        ph.push(nc[q]);
        proof {
            assert(nc@.take(q + 1) =~= nc@.take(q as int).push(nc@[q as int]));
        }
        q = q + 1;
    }
    ph.push('}');
    proof {
        assert(nc@.take(nc@.len() as int) =~= nc@);
        assert(ph@ =~= placeholder_text(name@));
    }
    let mut i: usize = 0;
    while i < tokens.len()
        invariant
            i <= tokens@.len(),
            toks == tokens@.map_values(|t: Vec<char>| t@),
            ph@ == placeholder_text(name@),
            forall|j: int|
                0 <= j < i ==> !(#[trigger] has_infix(toks[j], placeholder_text(name@)) && (is_flag(
                    toks[j],
                ) || (j > 0 && is_flag(toks[j - 1])))),
        decreases tokens@.len() - i,
    {
        let tok = &tokens[i];
        assert(toks[i as int] == tok@);
        if chars_contains(tok, &ph) {
            let own = tok.len() > 0 && tok[0] == '-';
            let prev = if i > 0 {
                let p = &tokens[i - 1];
                assert(toks[i - 1] == p@);
                p.len() > 0 && p[0] == '-'
            } else {
                false
            };
            if own || prev {
                return true;
            }
        }
        i = i + 1;
    }
    false
}

/// Conditional parameters checked against a template's words: each must
/// have its placeholder in a flag token or right after one.
pub fn tokens_conditional_check(tokens: &[String], conditional: &[String]) -> (r: Result<(), String>)
    ensures
        match tokens_check(views(tokens@), views(conditional@)) {
            Ok(()) => r is Ok,
            Err(m) => r matches Err(e) && e@ == m,
        },
{
    let ghost toks = views(tokens@);
    let mut chars: Vec<Vec<char>> = Vec::new();
    let mut i: usize = 0;
    while i < tokens.len()
        invariant
            i <= tokens@.len(),
            toks == views(tokens@),
            chars@.len() == i,
            forall|j: int| 0 <= j < i ==> #[trigger] chars@[j]@ == toks[j],
        decreases tokens@.len() - i,
    {
        chars.push(chars_of(tokens[i].as_str()));
        i = i + 1;
    }
    assert(chars@.map_values(|t: Vec<char>| t@) =~= toks);
    let ghost names = views(conditional@);
    let mut k: usize = 0;
    while k < conditional.len()
        invariant
            k <= conditional@.len(),
            names == views(conditional@),
            toks == views(tokens@),
            chars@.map_values(|t: Vec<char>| t@) == toks,
            first_unbound(toks, names, k as int) is None,
        decreases conditional@.len() - k,
    {
        let name = conditional[k].as_str();
        assert(names[k as int] == name@);
        if !name_is_flag_bound(&chars, name) {
            proof {
                lemma_first_unbound_stays(toks, names, k + 1, names.len() as int);
            }
            return Err(unbound_message_text(name));
        }
        k = k + 1;
    }
    Ok(())
}

/// Conditional parameters (those with a parent) must be bound to a named
/// `--flag` in the template: a positional placeholder has no flag token to
/// strip when the parameter is inactive.
pub fn validate_conditional_flags(conditional: &[String], template: &CommandTemplate) -> (r: Result<
    (),
    String,
>)
    ensures
        match conditional_check(template@, views(conditional@)) {
            Ok(()) => r is Ok,
            Err(m) => r matches Err(e) && e@ == m,
        },
{
    let tokens = match shell_split(template.as_str()) {
        Ok(t) => t,
        Err(e) => {
            let msg = crate::command::template::shell_parse_error_text(&e);
            return Err(concat_str("template tokenize failed: ", msg.as_str()));
        },
    };
    tokens_conditional_check(&tokens, conditional)
}

proof fn lemma_first_unbound_stays(toks: Seq<Seq<char>>, names: Seq<Seq<char>>, k: int, n: int)
    requires
        0 <= k <= n,
        first_unbound(toks, names, k) is Some,
    ensures
        first_unbound(toks, names, n) == first_unbound(toks, names, k),
    decreases n - k,
{
    if k < n {
        lemma_first_unbound_stays(toks, names, k + 1, n);
    }
}

/// A template placeholder that nothing provides: not a search-space
/// parameter, not the trial id or directory, not the budget placeholder.
pub open spec fn unknown_placeholder(
    config: ProjectConfig,
    params: Seq<Seq<char>>,
    p: Seq<char>,
) -> bool {
    !params.contains(p) && p != "trial_id"@ && p != "trial_dir"@ && !budget_placeholder_allowed(
        config,
        p,
    )
}

/// The first of the first `n` placeholders that nothing provides.
pub open spec fn first_unknown(
    config: ProjectConfig,
    params: Seq<Seq<char>>,
    phs: Seq<Seq<char>>,
    n: int,
) -> Option<Seq<char>>
    decreases n,
{
    if n <= 0 {
        None
    } else {
        match first_unknown(config, params, phs, n - 1) {
            Some(x) => Some(x),
            None => if unknown_placeholder(config, params, phs[n - 1]) {
                Some(phs[n - 1])
            } else {
                None
            },
        }
    }
}

proof fn lemma_first_unknown_stays(
    config: ProjectConfig,
    params: Seq<Seq<char>>,
    phs: Seq<Seq<char>>,
    k: int,
    n: int,
)
    requires
        0 <= k <= n,
        first_unknown(config, params, phs, k) is Some,
    ensures
        first_unknown(config, params, phs, n) == first_unknown(config, params, phs, k),
    decreases n - k,
{
    if k < n {
        lemma_first_unknown_stays(config, params, phs, k + 1, n);
    }
}

/// The placeholders as `{a}, {b}`, or `<none>`.
pub open spec fn braced_list(phs: Seq<Seq<char>>) -> Seq<char>
    decreases phs.len(),
{
    if phs.len() == 0 {
        "<none>"@
    } else if phs.len() == 1 {
        placeholder_text(phs[0])
    } else {
        braced_list(phs.drop_last()) + ", "@ + placeholder_text(phs.last())
    }
}

/// The message for a successive-halving template without its budget
/// placeholder.
pub open spec fn missing_budget_message(bp: Seq<char>, phs: Seq<Seq<char>>) -> Seq<char> {
    "template missing budget placeholder {"@ + bp + "}"@
        + "; successive_halving requires the budget placeholder {"@ + bp
        + "} in the template. template placeholders: "@ + braced_list(phs) + ". Either add {"@ + bp
        + "} to the template or set [scheduler.successive_halving].budget_placeholder to match your template."@
}

/// The outcome of validating a project: the checkpoint argument receives
/// the trial directory, the search space is sound (`space_check`),
/// conditional parameters are flag-bound, every template placeholder is
/// provided, and a successive-halving template uses its budget placeholder.
pub open spec fn project_check(
    config: ProjectConfig,
    t: Seq<char>,
    params: Seq<Seq<char>>,
    conditional: Seq<Seq<char>>,
    space_check: Result<(), Seq<char>>,
    phs: Seq<Seq<char>>,
) -> Result<(), Seq<char>> {
    let arg = match config.checkpoint_arg {
        Some(a) => a@,
        None => "--checkpoint-dir"@,
    };
    if !checkpoint_in_template(t, arg) {
        Err("template must include "@ + arg + " {trial_dir}"@)
    } else if space_check is Err {
        space_check
    } else if conditional_check(t, conditional) is Err {
        conditional_check(t, conditional)
    } else if first_unknown(config, params, phs, phs.len() as int) is Some {
        Err(
            "template placeholder {"@ + first_unknown(config, params, phs, phs.len() as int)->Some_0
                + "} not found in search space"@,
        )
    } else if config.scheduler.kind == Scheduler::SuccessiveHalving && !phs.contains(
        config.scheduler.successive_halving.budget_placeholder@,
    ) {
        Err(missing_budget_message(config.scheduler.successive_halving.budget_placeholder@, phs))
    } else {
        Ok(())
    }
}

/// The placeholders as `{a}, {b}`, or `<none>`.
fn braced_placeholders(phs: &[String]) -> (r: String)
    ensures
        r@ == braced_list(views(phs@)),
{
    if phs.len() == 0 {
        return "<none>".to_owned();
    }
    proof {
        reveal_strlit("{");
        reveal_strlit("}");
        reveal_strlit(", {");
        reveal_strlit(", ");
    }
    let a = concat_str("{", phs[0].as_str());
    let mut out = concat_str(a.as_str(), "}");
    let ghost ps = views(phs@);
    proof {
        assert(ps.take(1) =~= seq![ps[0]]);
        assert(out@ =~= placeholder_text(ps[0]));
    }
    let mut i: usize = 1;
    while i < phs.len()
        invariant
            1 <= i <= phs@.len(),
            ps == views(phs@),
            out@ == braced_list(ps.take(i as int)),
        decreases phs@.len() - i,
    {
        let b = concat_str(out.as_str(), ", {");
        let c = concat_str(b.as_str(), phs[i].as_str());
        out = concat_str(c.as_str(), "}");
        proof {
            reveal_strlit("{");
            reveal_strlit("}");
            reveal_strlit(", {");
            reveal_strlit(", ");
            assert(ps.take(i + 1).drop_last() =~= ps.take(i as int));
            assert(out@ =~= braced_list(ps.take(i as int)) + ", "@ + placeholder_text(ps[i as int]));
        }
        i = i + 1;
    }
    proof {
        assert(ps.take(phs@.len() as int) =~= ps);
    }
    out
}

/// Whether `p` is among `names`.
fn contains_name(names: &[String], p: &str) -> (r: bool)
    ensures
        r == views(names@).contains(p@),
{
    let mut i: usize = 0;
    while i < names.len()
        invariant
            i <= names@.len(),
            forall|j: int| 0 <= j < i ==> #[trigger] views(names@)[j] != p@,
        decreases names@.len() - i,
    {
        if str_eq(names[i].as_str(), p) {
            assert(views(names@)[i as int] == p@);
            return true;
        }
        i = i + 1;
    }
    false
}

/// Validate a project before a campaign (see `project_check`). The search
/// space enters through its parameter names, the names of its conditional
/// parameters, and the outcome of its own validation.
pub fn validate_project_config(
    config: &ProjectConfig,
    template: &CommandTemplate,
    space_params: &[String],
    conditional_params: &[String],
    space_check: Result<(), String>,
    template_placeholders: &[String],
) -> (r: Result<(), String>)
    ensures
        match project_check(
            *config,
            template@,
            views(space_params@),
            views(conditional_params@),
            match space_check {
                Ok(()) => Ok(()),
                Err(e) => Err(e@),
            },
            views(template_placeholders@),
        ) {
            Ok(()) => r is Ok,
            Err(m) => r matches Err(e) && e@ == m,
        },
{
    let checkpoint_arg: &str = match &config.checkpoint_arg {
        Some(a) => a.as_str(),
        None => "--checkpoint-dir",
    };
    if !template_has_checkpoint_dir(template, checkpoint_arg) {
        let a = concat_str("template must include ", checkpoint_arg);
        return Err(concat_str(a.as_str(), " {trial_dir}"));
    }
    match space_check {
        Err(e) => {
            return Err(e);
        },
        Ok(()) => {},
    }
    match validate_conditional_flags(conditional_params, template) {
        Err(e) => {
            return Err(e);
        },
        Ok(()) => {},
    }
    let binding = SchedulerBinding::new(config);
    let ghost params = views(space_params@);
    let ghost phs = views(template_placeholders@);
    let mut i: usize = 0;
    while i < template_placeholders.len()
        invariant
            i <= template_placeholders@.len(),
            params == views(space_params@),
            phs == views(template_placeholders@),
            *binding.config() == *config,
            first_unknown(*config, params, phs, i as int) is None,
            checkpoint_in_template(
                template@,
                match config.checkpoint_arg {
                    Some(a) => a@,
                    None => "--checkpoint-dir"@,
                },
            ),
            space_check is Ok,
            conditional_check(template@, views(conditional_params@)) is Ok,
        decreases template_placeholders@.len() - i,
    {
        let p = template_placeholders[i].as_str();
        assert(phs[i as int] == p@);
        if !contains_name(space_params, p) && !str_eq(p, "trial_id") && !str_eq(p, "trial_dir")
            && !binding.allows_placeholder(p) {
            proof {
                lemma_first_unknown_stays(*config, params, phs, i + 1, phs.len() as int);
            }
            let a = concat_str("template placeholder {", p);
            return Err(concat_str(a.as_str(), "} not found in search space"));
        }
        i = i + 1;
    }
    match binding.validate_template(template_placeholders) {
        Ok(()) => Ok(()),
        Err(err) => {
            let bp = config.scheduler.successive_halving.budget_placeholder.as_str();
            let list = braced_placeholders(template_placeholders);
            let a = concat_str(err.as_str(), "; successive_halving requires the budget placeholder {");
            let b = concat_str(a.as_str(), bp);
            let c = concat_str(b.as_str(), "} in the template. template placeholders: ");
            let d = concat_str(c.as_str(), list.as_str());
            let e = concat_str(d.as_str(), ". Either add {");
            let f = concat_str(e.as_str(), bp);
            let out = concat_str(
                f.as_str(),
                "} to the template or set [scheduler.successive_halving].budget_placeholder to match your template.",
            );
            assert(out@ =~= missing_budget_message(bp@, views(template_placeholders@)));
            Err(out)
        },
    }
}

} // verus!
