//! Pieces of the human-readable summary of a project's configuration.

use vstd::prelude::*;

use crate::command::subprocess::ipc::{split_lines, text_lines};
use crate::project::{Goal, ProjectConfig, Sampler};
use crate::scheduler::Scheduler;
use crate::text::{chars_of, chars_trim, concat_str, decimal, owned, string_of, trim, usize_text};

verus! {

/// `s` without the copies of `c` at its end.
pub open spec fn strip_trailing(s: Seq<char>, c: char) -> Seq<char>
    decreases s.len(),
{
    if s.len() > 0 && s.last() == c {
        strip_trailing(s.drop_last(), c)
    } else {
        s
    }
}

/// A template line as it appears flattened: trimmed, without the trailing
/// `\` continuations, and trimmed again.
pub open spec fn flat_line(line: Seq<char>) -> Seq<char> {
    trim(strip_trailing(trim(line), '\\'))
}

/// The non-empty flattened lines among the first `n`, joined by spaces.
pub open spec fn flat_join(lines: Seq<Seq<char>>, n: nat) -> Seq<char>
    decreases n,
{
    if n == 0 {
        Seq::empty()
    } else {
        let prev = flat_join(lines, (n - 1) as nat);
        let t = flat_line(lines[n - 1]);
        if t.len() == 0 {
            prev
        } else if prev.len() == 0 {
            t
        } else {
            prev + seq![' '] + t
        }
    }
}

/// A multiline template on one line: each line trimmed and stripped of
/// its trailing `\` continuations, blank lines dropped, the rest joined
/// with single spaces.
pub fn flatten_template(template: &str) -> (r: String)
    ensures
        r@ == flat_join(text_lines(template@), text_lines(template@).len()),
{
    let lines = split_lines(template);
    let ghost ls = text_lines(template@);
    let mut out: Vec<char> = Vec::new();
    let mut i: usize = 0;
    while i < lines.len()
        invariant
            i <= lines@.len(),
            crate::text::views(lines@) == ls,
            out@ == flat_join(ls, i as nat),
        decreases lines@.len() - i,
    {
        let c = chars_of(lines[i].as_str());
        let mut t = chars_trim(&c);
        while t.len() > 0 && t[t.len() - 1] == '\\'
            invariant
                strip_trailing(t@, '\\') == strip_trailing(trim(ls[i as int]), '\\'),
            decreases t.len(),
        {
            t.pop();
        }
        let piece = chars_trim(&t);
        proof {
            assert(ls[i as int] == lines@[i as int]@);
            assert(piece@ == flat_line(ls[i as int]));
        }
        if piece.len() > 0 {
            if out.len() > 0 {
                out.push(' ');
            }
            let mut j: usize = 0;
            let ghost base = out@;
            while j < piece.len()
                invariant
                    j <= piece@.len(),
                    out@ == base + piece@.subrange(0, j as int),
                decreases piece@.len() - j,
            {
                out.push(piece[j]);
                j = j + 1;
            }
            proof {
                assert(piece@.subrange(0, piece@.len() as int) =~= piece@);
            }
        }
        proof {
            assert(out@ =~= flat_join(ls, (i + 1) as nat));
        }
        i = i + 1;
    }
    string_of(&out)
}

/// The summary of what a campaign optimises and how it searches: the
/// metric and its direction, the sampler, and the scheduler with its number
/// of trials, one per line under `execution:`.
pub open spec fn execution_text(config: ProjectConfig) -> Seq<char> {
    let goal = match config.goal {
        Goal::Min => "minimize"@,
        Goal::Max => "maximize"@,
    };
    let sampler = match config.sampler.kind {
        Sampler::Pso => "pso"@,
        Sampler::Random => "random"@,
    };
    let scheduler = match config.scheduler.kind {
        Scheduler::Fixed => "fixed"@,
        Scheduler::SuccessiveHalving => "successive_halving"@,
    };
    "execution:\n"@ + "  metric:    "@ + config.metric_key@ + " ("@ + goal + ")\n"@
        + "  sampler:   "@ + sampler + "\n"@ + "  scheduler: "@ + scheduler + " ("@ + decimal(
        config.scheduler.n_trials as nat,
    ) + " trials)\n"@
}

/// What a campaign optimises and how the search is managed (see
/// `execution_text`).
pub fn execution_summary(config: &ProjectConfig) -> (r: String)
    ensures
        r@ == execution_text(*config),
{
    let goal = match config.goal {
        Goal::Min => "minimize",
        Goal::Max => "maximize",
    };
    let sampler = match config.sampler.kind {
        Sampler::Pso => "pso",
        Sampler::Random => "random",
    };
    let scheduler = match config.scheduler.kind {
        Scheduler::Fixed => "fixed",
        Scheduler::SuccessiveHalving => "successive_halving",
    };
    let mut out = owned("execution:\n");
    out = concat_str(out.as_str(), "  metric:    ");
    out = concat_str(out.as_str(), config.metric_key.as_str());
    out = concat_str(out.as_str(), " (");
    out = concat_str(out.as_str(), goal);
    out = concat_str(out.as_str(), ")\n");
    out = concat_str(out.as_str(), "  sampler:   ");
    out = concat_str(out.as_str(), sampler);
    out = concat_str(out.as_str(), "\n");
    out = concat_str(out.as_str(), "  scheduler: ");
    out = concat_str(out.as_str(), scheduler);
    out = concat_str(out.as_str(), " (");
    out = concat_str(out.as_str(), usize_text(config.scheduler.n_trials).as_str());
    out = concat_str(out.as_str(), " trials)\n");
    proof {
        assert(out@ =~= execution_text(*config));
    }
    out
}

/// How a template placeholder is filled: the reserved trial id and trial
/// directory are injected; a search-space parameter is described by
/// `param_desc`; any other name passes through as a literal. The budget
/// placeholder of a successive-halving run is marked as overridden per rung.
pub open spec fn placeholder_text(
    name: Seq<char>,
    param_desc: Option<Seq<char>>,
    budget: Option<Seq<char>>,
) -> Seq<char> {
    let base = if name == "trial_id"@ {
        "reserved: numeric trial id (auto-injected)"@
    } else if name == "trial_dir"@ {
        "reserved: per-trial artifact directory (auto-injected)"@
    } else {
        match param_desc {
            Some(d) => d,
            None => "not in search space (passed through as a literal value)"@,
        }
    };
    if budget == Some(name) {
        base + "; scheduler budget placeholder (overridden per rung)"@
    } else {
        base
    }
}

/// The description of a placeholder (see `placeholder_text`); `param_desc`
/// describes the search-space parameter of that name, if there is one.
pub fn describe_placeholder(name: &str, param_desc: Option<&str>, budget: Option<&str>) -> (r: String)
    ensures
        r@ == placeholder_text(
            name@,
            match param_desc {
                Some(d) => Some(d@),
                None => None,
            },
            match budget {
                Some(b) => Some(b@),
                None => None,
            },
        ),
{
    let base = if crate::text::str_eq(name, "trial_id") {
        owned("reserved: numeric trial id (auto-injected)")
    } else if crate::text::str_eq(name, "trial_dir") {
        owned("reserved: per-trial artifact directory (auto-injected)")
    } else {
        match param_desc {
            Some(d) => owned(d),
            None => owned("not in search space (passed through as a literal value)"),
        }
    };
    let is_budget = match budget {
        Some(b) => crate::text::str_eq(b, name),
        None => false,
    };
    if is_budget {
        concat_str(base.as_str(), "; scheduler budget placeholder (overridden per rung)")
    } else {
        base
    }
}

} // verus!
