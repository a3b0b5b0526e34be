//! Labels, titles and detail lines of the trial browser.

use vstd::prelude::*;

use crate::constants::HP_PREFIX;
use crate::fields::{sorted_pairs, FieldMap};
use crate::text::{
    chars_of, concat_str, decimal, has_infix, has_prefix, i64_text, owned, signed_decimal,
    str_contains, str_starts_with, string_of, usize_text,
};

verus! {

/// The number of bytes `c` takes in UTF-8.
pub open spec fn utf8_width(c: char) -> nat {
    if (c as u32) < 0x80 {
        1
    } else if (c as u32) < 0x800 {
        2
    } else if (c as u32) < 0x10000 {
        3
    } else {
        4
    }
}

/// The number of bytes `s` takes in UTF-8.
pub open spec fn utf8_len(s: Seq<char>) -> nat
    decreases s.len(),
{
    if s.len() == 0 {
        0
    } else {
        utf8_len(s.drop_last()) + utf8_width(s.last())
    }
}

/// The UTF-8 length of a prefix never exceeds that of the whole.
proof fn lemma_utf8_len_take(s: Seq<char>, k: int)
    requires
        0 <= k <= s.len(),
    ensures
        utf8_len(s.take(k)) <= utf8_len(s),
    decreases s.len() - k,
{
    if k < s.len() {
        lemma_utf8_len_take(s, k + 1);
        assert(s.take(k + 1).drop_last() =~= s.take(k));
    } else {
        assert(s.take(k) =~= s);
    }
}

/// The number of bytes `c` takes in UTF-8.
fn char_width(c: char) -> (r: u8)
    ensures
        r == utf8_width(c),
{
    let code = c as u32;
    if code < 0x80 {
        1
    } else if code < 0x800 {
        2
    } else if code < 0x10000 {
        3
    } else {
        4
    }
}

/// Whether `s` takes at most `max` bytes in UTF-8 (its `str::len`).
fn utf8_len_at_most(s: &str, max: usize) -> (r: bool)
    ensures
        r == (utf8_len(s@) <= max),
{
    let v = chars_of(s);
    let mut total: u128 = 0;
    let mut i: usize = 0;
    while i < v.len()
        invariant
            i <= v@.len(),
            v@ == s@,
            total == utf8_len(v@.take(i as int)),
            total <= max,
        decreases v@.len() - i,
    {
        let w = char_width(v[i]);
        proof {
            assert(v@.take(i + 1).drop_last() =~= v@.take(i as int));
        }
        total = total + w as u128;
        if total > max as u128 {
            proof {
                lemma_utf8_len_take(v@, i + 1);
            }
            return false;
        }
        i = i + 1;
    }
    proof {
        assert(v@.take(v@.len() as int) =~= v@);
    }
    true
}

/// `s` ends with `p`.
pub open spec fn has_suffix(s: Seq<char>, p: Seq<char>) -> bool {
    p.len() <= s.len() && s.subrange(s.len() - p.len(), s.len() as int) == p
}

/// Whether `s` ends with `p`.
pub fn str_ends_with(s: &str, p: &str) -> (r: bool)
    ensures
        r == has_suffix(s@, p@),
{
    let vs = chars_of(s);
    let vp = chars_of(p);
    if vp.len() > vs.len() {
        return false;
    }
    let off = vs.len() - vp.len();
    let mut i: usize = 0;
    while i < vp.len()
        invariant
            vs@ == s@,
            vp@ == p@,
            vp@.len() <= vs@.len(),
            off == vs@.len() - vp@.len(),
            i <= vp@.len(),
            forall|j: int| 0 <= j < i ==> vs@[off + j] == vp@[j],
        decreases vp@.len() - i,
    {
        assert(off + i < vs.len());
        if vs[off + i] != vp[i] {
            proof {
                assert(vs@.subrange(off as int, vs@.len() as int)[i as int] == vs@[off + i]);
            }
            return false;
        }
        i = i + 1;
    }
    proof {
        assert(vs@.subrange(off as int, vs@.len() as int) =~= vp@);
    }
    true
}

/// The first `n` characters of `s`, or all of them.
pub open spec fn first_chars(s: Seq<char>, n: int) -> Seq<char> {
    if n < s.len() {
        s.take(n)
    } else {
        s
    }
}

/// A label cut to `max_len` bytes: left as it is when it fits, else its
/// first `max_len` characters when that is three or fewer, else its first
/// `max_len - 3` characters followed by `...`.
pub open spec fn truncated(value: Seq<char>, max_len: usize) -> Seq<char> {
    if utf8_len(value) <= max_len {
        value
    } else if max_len <= 3 {
        first_chars(value, max_len as int)
    } else {
        first_chars(value, max_len - 3) + "..."@
    }
}

fn take_chars(v: &Vec<char>, n: usize) -> (r: Vec<char>)
    ensures
        r@ == first_chars(v@, n as int),
{
    let mut r: Vec<char> = Vec::new();
    let mut i: usize = 0;
    while i < n && i < v.len()
        invariant
            i <= v@.len(),
            i <= n,
            r@ == v@.take(i as int),
        decreases v@.len() - i,
    {
        r.push(v[i]);
        proof {
            assert(v@.take(i + 1) =~= v@.take(i as int).push(v@[i as int]));
        }
        i = i + 1;
    }
    proof {
        if n >= v@.len() {
            assert(v@.take(v@.len() as int) =~= v@);
        }
    }
    r
}

/// Cut a label to `max_len` bytes (see `truncated`).
pub fn truncate_label(value: &str, max_len: usize) -> (r: String)
    ensures
        r@ == truncated(value@, max_len),
{
    if utf8_len_at_most(value, max_len) {
        return owned(value);
    }
    let v = chars_of(value);
    if max_len <= 3 {
        return string_of(&take_chars(&v, max_len));
    }
    let head = string_of(&take_chars(&v, max_len - 3));
    concat_str(head.as_str(), "...")
}

/// `s` without its leading `p`, when it has one.
pub open spec fn without_prefix(s: Seq<char>, p: Seq<char>) -> Seq<char> {
    if has_prefix(s, p) {
        s.subrange(p.len() as int, s.len() as int)
    } else {
        s
    }
}

/// `s` without all the copies of `p` it starts with (`p` not empty).
pub open spec fn without_prefixes(s: Seq<char>, p: Seq<char>) -> Seq<char>
    decreases s.len(),
{
    if p.len() > 0 && has_prefix(s, p) {
        without_prefixes(s.subrange(p.len() as int, s.len() as int), p)
    } else {
        s
    }
}

/// The text after the last `.` of `s`, or all of `s` without one.
pub open spec fn last_segment(s: Seq<char>) -> Seq<char>
    decreases s.len(),
{
    if s.len() == 0 {
        s
    } else if s.last() == '.' {
        Seq::empty()
    } else {
        last_segment(s.drop_last()).push(s.last())
    }
}

fn strip_prefix_chars(s: &str, p: &str) -> (r: String)
    ensures
        r@ == without_prefix(s@, p@),
{
    if str_starts_with(s, p) {
        let v = chars_of(s);
        let n = chars_of(p).len();
        let mut out: Vec<char> = Vec::new();
        let mut i: usize = n;
        while i < v.len()
            invariant
                v@ == s@,
                n == p@.len(),
                n <= i <= v@.len(),
                out@ == v@.subrange(n as int, i as int),
            decreases v@.len() - i,
        {
            out.push(v[i]);
            proof {
                assert(v@.subrange(n as int, i + 1) =~= v@.subrange(n as int, i as int).push(
                    v@[i as int],
                ));
            }
            i = i + 1;
        }
        string_of(&out)
    } else {
        owned(s)
    }
}

fn strip_prefixes_chars(s: &str, p: &str) -> (r: String)
    requires
        p@.len() > 0,
    ensures
        r@ == without_prefixes(s@, p@),
{
    let mut cur = owned(s);
    while str_starts_with(cur.as_str(), p)
        invariant
            p@.len() > 0,
            without_prefixes(cur@, p@) == without_prefixes(s@, p@),
        decreases cur@.len(),
    {
        cur = strip_prefix_chars(cur.as_str(), p);
    }
    cur
}

fn last_segment_of(s: &str) -> (r: String)
    ensures
        r@ == last_segment(s@),
{
    let v = chars_of(s);
    let mut start: usize = v.len();
    proof {
        assert(v@.take(v@.len() as int) =~= v@);
        assert(v@.subrange(v@.len() as int, v@.len() as int) =~= Seq::<char>::empty());
        assert(v@ + Seq::<char>::empty() =~= v@);
    }
    while start > 0 && v[start - 1] != '.'
        invariant
            v@ == s@,
            start <= v@.len(),
            last_segment(v@) == last_segment(v@.take(start as int)) + v@.subrange(
                start as int,
                v@.len() as int,
            ),
        decreases start,
    {
        proof {
            let t = v@.take(start as int);
            assert(t.drop_last() =~= v@.take(start - 1));
            assert(last_segment(t) == last_segment(t.drop_last()).push(t.last()));
            assert(v@.subrange(start - 1, v@.len() as int) =~= seq![v@[start - 1]] + v@.subrange(
                start as int,
                v@.len() as int,
            ));
            assert(last_segment(v@.take(start - 1)).push(v@[start - 1]) + v@.subrange(
                start as int,
                v@.len() as int,
            ) =~= last_segment(v@.take(start - 1)) + v@.subrange(start - 1, v@.len() as int));
        }
        start = start - 1;
    }
    proof {
        let t = v@.take(start as int);
        assert(last_segment(t).len() == 0) by {
            if start > 0 {
                assert(t.last() == '.');
            } else {
                assert(t.len() == 0);
            }
        }
        assert(last_segment(t) + v@.subrange(start as int, v@.len() as int) =~= v@.subrange(
            start as int,
            v@.len() as int,
        ));
        assert(v@.take(v@.len() as int) =~= v@);
    }
    let mut out: Vec<char> = Vec::new();
    let mut i: usize = start;
    while i < v.len()
        invariant
            v@ == s@,
            start <= i <= v@.len(),
            out@ == v@.subrange(start as int, i as int),
        decreases v@.len() - i,
    {
        out.push(v[i]);
        proof {
            assert(v@.subrange(start as int, i + 1) =~= v@.subrange(start as int, i as int).push(
                v@[i as int],
            ));
        }
        i = i + 1;
    }
    string_of(&out)
}

/// The label of a hyperparameter: its name without `hp.`, shortened to the
/// part after its last `.` when that part has at least three bytes, then
/// cut to `max_len`.
pub open spec fn param_label(value: Seq<char>, max_len: usize) -> Seq<char> {
    let trimmed = without_prefix(value, HP_PREFIX@);
    let tail = last_segment(trimmed);
    truncated(
        if utf8_len(tail) >= 3 {
            tail
        } else {
            trimmed
        },
        max_len,
    )
}

/// The short label of a hyperparameter (see `param_label`).
pub fn short_param_label(value: &str, max_len: usize) -> (r: String)
    ensures
        r@ == param_label(value@, max_len),
{
    let trimmed = strip_prefix_chars(value, HP_PREFIX);
    let tail = last_segment_of(trimmed.as_str());
    if !utf8_len_at_most(tail.as_str(), 2) {
        truncate_label(tail.as_str(), max_len)
    } else {
        truncate_label(trimmed.as_str(), max_len)
    }
}

/// The label of a chart axis: a hyperparameter's short label, a metric
/// without `metric.`, or the name itself, cut to `max_len`.
pub open spec fn axis_label(value: Seq<char>, max_len: usize) -> Seq<char> {
    if has_prefix(value, HP_PREFIX@) {
        param_label(value, max_len)
    } else {
        truncated(without_prefix(value, "metric."@), max_len)
    }
}

/// The short label of a chart axis (see `axis_label`).
pub fn short_axis_label(value: &str, max_len: usize) -> (r: String)
    ensures
        r@ == axis_label(value@, max_len),
{
    if str_starts_with(value, HP_PREFIX) {
        return short_param_label(value, max_len);
    }
    let stripped = strip_prefix_chars(value, "metric.");
    truncate_label(stripped.as_str(), max_len)
}

/// The display name of an axis: a hyperparameter without its leading
/// `hp.` prefixes, a metric without `metric.`, or the name itself.
pub open spec fn axis_name(value: Seq<char>) -> Seq<char> {
    if has_prefix(value, HP_PREFIX@) {
        without_prefixes(value, HP_PREFIX@)
    } else {
        without_prefix(value, "metric."@)
    }
}

/// The display name of an axis (see `axis_name`).
pub fn display_axis_name(value: &str) -> (r: String)
    ensures
        r@ == axis_name(value@),
{
    proof {
        reveal_strlit("hp.");
    }
    if str_starts_with(value, HP_PREFIX) {
        strip_prefixes_chars(value, HP_PREFIX)
    } else {
        strip_prefix_chars(value, "metric.")
    }
}

/// The unit a metric's key names: milliseconds, seconds or percent.
pub open spec fn metric_unit(key: Seq<char>) -> Option<Seq<char>> {
    if has_suffix(key, "_ms"@) || has_suffix(key, ".ms"@) || has_infix(key, "time_ms"@) {
        Some("ms"@)
    } else if has_suffix(key, "_s"@) || has_suffix(key, ".s"@) || has_infix(key, "time_s"@) {
        Some("s"@)
    } else if has_suffix(key, "_pct"@) || has_suffix(key, ".pct"@) || has_infix(key, "percent"@) {
        Some("%"@)
    } else {
        None
    }
}

/// The unit of a metric from its key (see `metric_unit`).
pub fn metric_unit_from_key(key: &str) -> (r: Option<&'static str>)
    ensures
        match metric_unit(key@) {
            Some(u) => r matches Some(x) && x@ == u,
            None => r is None,
        },
{
    if str_ends_with(key, "_ms") || str_ends_with(key, ".ms") || str_contains(key, "time_ms") {
        return Some("ms");
    }
    if str_ends_with(key, "_s") || str_ends_with(key, ".s") || str_contains(key, "time_s") {
        return Some("s");
    }
    if str_ends_with(key, "_pct") || str_ends_with(key, ".pct") || str_contains(key, "percent") {
        return Some("%");
    }
    None
}

/// The title of a metric's axis: its key, with its unit in parentheses.
pub fn metric_axis_title(key: &str) -> (r: String)
    ensures
        r@ == (match metric_unit(key@) {
            Some(u) => key@ + " ("@ + u + ")"@,
            None => key@,
        }),
{
    match metric_unit_from_key(key) {
        Some(unit) => {
            let a = concat_str(key, " (");
            let b = concat_str(a.as_str(), unit);
            concat_str(b.as_str(), ")")
        },
        None => owned(key),
    }
}

/// What the chart window shows.
#[derive(Debug, Clone, Copy, PartialEq, Eq, Structural)]
pub enum ChartMode {
    Metrics,
    HyperParams,
}

/// How the metric charts are laid out.
#[derive(Debug, Clone, Copy, PartialEq, Eq, Structural)]
pub enum ChartView {
    Summary,
    Focused,
}

/// The title of the chart window: the focused metric curve with its
/// position among the metrics (counting from one, saturating), all metric
/// curves, or the hyperparameter space, after `Trial <id> - ` when a trial
/// is selected.
pub open spec fn chart_title(
    mode: ChartMode,
    view: ChartView,
    selected: usize,
    metrics_len: usize,
    focused: bool,
    trial_id: Option<i64>,
) -> Seq<char> {
    let body = match mode {
        ChartMode::Metrics => if focused && view == ChartView::Focused {
            let current = if selected == usize::MAX {
                selected as nat
            } else {
                (selected + 1) as nat
            };
            "Metric Curve "@ + decimal(current) + "/"@ + decimal(metrics_len as nat)
        } else {
            "Metric Curves"@
        },
        ChartMode::HyperParams => "Hyperparameter Space"@,
    };
    match trial_id {
        Some(id) => "Trial "@ + signed_decimal(id as int) + " - "@ + body,
        None => body,
    }
}

/// The title of the chart window (see `chart_title`).
pub fn charts_window_title(
    chart_mode: ChartMode,
    chart_view: ChartView,
    chart_selected: usize,
    metrics_len: usize,
    charts_focused: bool,
    trial_id: Option<i64>,
) -> (r: String)
    ensures
        r@ == chart_title(
            chart_mode,
            chart_view,
            chart_selected,
            metrics_len,
            charts_focused,
            trial_id,
        ),
{
    let body = match chart_mode {
        ChartMode::Metrics => {
            if charts_focused && chart_view == ChartView::Focused {
                let current = chart_selected.saturating_add(1);
                let a = concat_str("Metric Curve ", usize_text(current).as_str());
                let b = concat_str(a.as_str(), "/");
                concat_str(b.as_str(), usize_text(metrics_len).as_str())
            } else {
                owned("Metric Curves")
            }
        },
        ChartMode::HyperParams => owned("Hyperparameter Space"),
    };
    match trial_id {
        Some(id) => {
            let a = concat_str("Trial ", i64_text(id).as_str());
            let b = concat_str(a.as_str(), " - ");
            concat_str(b.as_str(), body.as_str())
        },
        None => body,
    }
}

/// A trial as the browser lists it.
#[derive(Debug)]
pub struct TrialRow {
    pub trial_id: i64,
    pub status: String,
    pub elapsed_ms: i64,
    pub error: Option<String>,
    pub fields: FieldMap,
}

/// Whether the first `n` rows hold a per-objective `score.<name>` field.
pub open spec fn any_objective_scores(rows: Seq<Map<Seq<char>, Seq<char>>>) -> bool {
    exists|i: int, k: Seq<char>|
        0 <= i < rows.len() && #[trigger] rows[i].contains_key(k) && has_prefix(k, "score."@)
}

/// The field maps of some rows.
pub open spec fn row_maps(rows: Seq<TrialRow>) -> Seq<Map<Seq<char>, Seq<char>>> {
    rows.map_values(|r: TrialRow| r.fields@)
}

/// Whether the rows come from a multi-objective run: some trial has a
/// `score.<name>` field (single-objective runs record only `score`).
pub fn is_multi_objective(trials: &[TrialRow]) -> (r: bool)
    ensures
        r == any_objective_scores(row_maps(trials@)),
{
    let ghost rows = row_maps(trials@);
    let mut i: usize = 0;
    while i < trials.len()
        invariant
            i <= trials@.len(),
            rows == row_maps(trials@),
            forall|j: int, k: Seq<char>|
                0 <= j < i && #[trigger] rows[j].contains_key(k) ==> !has_prefix(k, "score."@),
        decreases trials@.len() - i,
    {
        let keys = trials[i].fields.keys();
        let ghost m_i = trials@[i as int].fields@;
        let mut j: usize = 0;
        while j < keys.len()
            invariant
                i < trials@.len(),
                rows == row_maps(trials@),
                m_i == trials@[i as int].fields@,
                j <= keys@.len(),
                forall|k: Seq<char>|
                    m_i.contains_key(k) <==> exists|x: int| 0 <= x < keys@.len() && keys@[x]@ == k,
                forall|x: int| 0 <= x < j ==> !has_prefix(#[trigger] keys@[x]@, "score."@),
            decreases keys@.len() - j,
        {
            if str_starts_with(keys[j].as_str(), "score.") {
                proof {
                    let k = keys@[j as int]@;
                    assert(exists|x: int| 0 <= x < keys@.len() && keys@[x]@ == k);
                    assert(m_i.contains_key(k));
                    assert(rows[i as int] == m_i);
                    assert(rows[i as int].contains_key(k) && has_prefix(k, "score."@));
                }
                return true;
            }
            j = j + 1;
        }
        proof {
            assert forall|k: Seq<char>| #[trigger] rows[i as int].contains_key(k) implies !has_prefix(
                k,
                "score."@,
            ) by {
                assert(rows[i as int] == m_i);
                let x = choose|x: int| 0 <= x < keys@.len() && keys@[x]@ == k;
                assert(!has_prefix(keys@[x]@, "score."@));
            }
        }
        i = i + 1;
    }
    false
}

/// Spaces after `s` up to `width` characters.
pub open spec fn padded(s: Seq<char>, width: nat) -> Seq<char> {
    if s.len() >= width {
        s
    } else {
        s + Seq::new((width - s.len()) as nat, |i: int| ' ')
    }
}

/// The detail line of one hyperparameter: its name (without leading `hp.`
/// prefixes) padded to twenty characters, then its value.
pub open spec fn hparam_line(k: Seq<char>, v: Seq<char>) -> Seq<char> {
    "    "@ + padded(without_prefixes(k, HP_PREFIX@), 20) + " "@ + v
}

/// The hyperparameter lines of the first `n` fields, in key order.
pub open spec fn hparam_lines_of(ps: Seq<(Seq<char>, Seq<char>)>, n: int) -> Seq<Seq<char>>
    decreases n,
{
    if n <= 0 {
        Seq::empty()
    } else if has_prefix(ps[n - 1].0, HP_PREFIX@) {
        hparam_lines_of(ps, n - 1).push(hparam_line(ps[n - 1].0, ps[n - 1].1))
    } else {
        hparam_lines_of(ps, n - 1)
    }
}

/// The hyperparameter section of a trial's details: a heading and one line
/// per `hp.` field in key order, or nothing without such fields.
pub open spec fn hparam_section(fields: Map<Seq<char>, Seq<char>>) -> Seq<Seq<char>> {
    let ps = sorted_pairs(fields);
    let lines = hparam_lines_of(ps, ps.len() as int);
    if lines.len() == 0 {
        lines
    } else {
        seq!["  Hyperparameters:"@] + lines
    }
}

fn pad_to(s: &str, width: usize) -> (r: String)
    ensures
        r@ == padded(s@, width as nat),
{
    let mut v = chars_of(s);
    let ghost base = v@;
    if v.len() >= width {
        return string_of(&v);
    }
    let mut n: usize = v.len();
    while n < width
        invariant
            base == s@,
            base.len() <= n <= width,
            v@ == base + Seq::new((n - base.len()) as nat, |i: int| ' '),
        decreases width - n,
    {
        v.push(' ');
        n = n + 1;
        proof {
            assert(v@ =~= base + Seq::new((n - base.len()) as nat, |i: int| ' '));
        }
    }
    string_of(&v)
}

/// The hyperparameter lines of a trial's details (see `hparam_section`).
pub fn hparam_lines(trial: &TrialRow) -> (r: Vec<String>)
    ensures
        crate::text::views(r@) == hparam_section(trial.fields@),
{
    let ps = trial.fields.entries();
    let ghost pv = crate::fields::pair_views(ps@);
    proof {
        reveal_strlit("hp.");
    }
    let mut lines: Vec<String> = Vec::new();
    let mut i: usize = 0;
    while i < ps.len()
        invariant
            i <= ps@.len(),
            pv == crate::fields::pair_views(ps@),
            pv == sorted_pairs(trial.fields@),
            HP_PREFIX@.len() > 0,
            crate::text::views(lines@) == hparam_lines_of(pv, i as int),
        decreases ps@.len() - i,
    {
        let k = &ps[i].0;
        let v = &ps[i].1;
        proof {
            assert(pv[i as int] == (k@, v@));
        }
        if str_starts_with(k.as_str(), HP_PREFIX) {
            let name = strip_prefixes_chars(k.as_str(), HP_PREFIX);
            let a = concat_str("    ", pad_to(name.as_str(), 20).as_str());
            let b = concat_str(a.as_str(), " ");
            let line = concat_str(b.as_str(), v.as_str());
            let ghost before = crate::text::views(lines@);
            lines.push(line);
            proof {
                assert(crate::text::views(lines@) =~= before.push(line@));
            }
        }
        i = i + 1;
    }
    if lines.len() == 0 {
        return lines;
    }
    let mut out: Vec<String> = Vec::new();
    out.push(owned("  Hyperparameters:"));
    let ghost head = crate::text::views(out@);
    let mut j: usize = 0;
    while j < lines.len()
        invariant
            j <= lines@.len(),
            head == seq!["  Hyperparameters:"@],
            crate::text::views(out@) == head + crate::text::views(lines@).take(j as int),
        decreases lines@.len() - j,
    {
        let ghost prev = crate::text::views(out@);
        out.push(lines[j].clone());
        proof {
            assert(crate::text::views(lines@).take(j + 1) =~= crate::text::views(lines@).take(
                j as int,
            ).push(lines@[j as int]@));
            assert(crate::text::views(out@) =~= prev.push(lines@[j as int]@));
        }
        j = j + 1;
    }
    proof {
        assert(crate::text::views(lines@).take(lines@.len() as int) =~= crate::text::views(lines@));
    }
    out
}

} // verus!
