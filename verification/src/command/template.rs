//! Command templates: a command line with `{name}` placeholders.
//!
//! `{{` and `}}` stand for literal braces; a placeholder's name is the text
//! between `{` and the next `}`, with surrounding white space trimmed.

use vstd::prelude::*;

use crate::fields::FieldMap;
use crate::text::{
    chars_contains, chars_have_whitespace, chars_of, chars_trim, has_infix, has_ws, insert_sorted,
    strictly_sorted, string_of, trim, views, concat_str, owned,
};

verus! {

/// What went wrong with a template, as plain values.
pub enum TemplateFault {
    MissingValue(Seq<char>),
    UnclosedPlaceholder,
    InvalidConditional(Seq<char>),
}

/// Errors of template handling.
#[derive(Debug)]
pub enum TemplateError {
    /// No value was given for the named placeholder.
    MissingValue(String),
    /// A `{` has no closing `}`.
    UnclosedPlaceholder,
    /// A conditional parameter could not be stripped from the template.
    InvalidConditional(String),
}

impl View for TemplateError {
    type V = TemplateFault;

    open spec fn view(&self) -> TemplateFault {
        match self {
            TemplateError::MissingValue(n) => TemplateFault::MissingValue(n@),
            TemplateError::UnclosedPlaceholder => TemplateFault::UnclosedPlaceholder,
            TemplateError::InvalidConditional(m) => TemplateFault::InvalidConditional(m@),
        }
    }
}

/// The text a template error is shown with.
pub open spec fn fault_message(f: TemplateFault) -> Seq<char> {
    match f {
        TemplateFault::MissingValue(n) => "missing value for placeholder `"@ + n + "`"@,
        TemplateFault::UnclosedPlaceholder => "unclosed placeholder in template"@,
        TemplateFault::InvalidConditional(m) => "invalid conditional parameter: "@ + m,
    }
}

impl TemplateError {
    /// The message of the error.
    pub fn message(&self) -> (r: String)
        ensures
            r@ == fault_message(self@),
    {
        match self {
            TemplateError::MissingValue(n) => {
                let a = concat_str("missing value for placeholder `", n.as_str());
                concat_str(a.as_str(), "`")
            },
            TemplateError::UnclosedPlaceholder => owned("unclosed placeholder in template"),
            TemplateError::InvalidConditional(m) => concat_str(
                "invalid conditional parameter: ",
                m.as_str(),
            ),
        }
    }
}

/// A character that makes `shell_words::quote` quote a word: white space,
/// quotes, and the characters the shell treats specially.
pub open spec fn shell_special(c: char) -> bool {
    c == '\n' || c == '\'' || c == '|' || c == '&' || c == ';' || c == '<' || c == '>' || c == '('
        || c == ')' || c == '$' || c == '`' || c == '\\' || c == '"' || c == ' ' || c == '\t'
        || c == '*' || c == '?' || c == '[' || c == '#' || c == '~' || c == '=' || c == '%'
}

/// `s` with each `'` written as `'\''` (close the quotes, an escaped quote,
/// reopen them).
pub open spec fn single_quotes_escaped(s: Seq<char>) -> Seq<char>
    decreases s.len(),
{
    if s.len() == 0 {
        Seq::empty()
    } else if s.last() == '\'' {
        single_quotes_escaped(s.drop_last()) + seq!['\'', '\\', '\'', '\'']
    } else {
        single_quotes_escaped(s.drop_last()).push(s.last())
    }
}

/// What `shell_words::quote` gives for `s`: `''` for the empty word, the
/// word itself when it has no special character, else the word in single
/// quotes with its own single quotes escaped.
pub open spec fn shell_quoted(s: Seq<char>) -> Seq<char> {
    if s.len() == 0 {
        seq!['\'', '\'']
    } else if !(exists|i: int| 0 <= i < s.len() && #[trigger] shell_special(s[i])) {
        s
    } else {
        seq!['\''] + single_quotes_escaped(s) + seq!['\'']
    }
}

/// `shell_words::split` applied to `s`: the words, or `None` on a parse error.
pub uninterp spec fn shell_words_of(s: Seq<char>) -> Option<Seq<Seq<char>>>;

#[verifier::external_type_specification]
#[verifier::external_body]
pub struct ExShellParseError(shell_words::ParseError);

/// `shell_words::quote`: the shell-escaped form of `s`, as the crate's
/// source computes it (see `shell_quoted`); the crate's documentation leaves
/// the style open, so this states the version that is built.
#[verifier::external_body]
fn shell_quote(s: &str) -> (r: String)
    ensures
        r@ == shell_quoted(s@),
{
    shell_words::quote(s).into_owned()
}

/// `shell_words::split`: the words of `s` under POSIX shell rules. The
/// contract names the result and ties the `Ok`/`Err` outcome to it.
#[verifier::external_body]
pub(crate) fn shell_split(s: &str) -> (r: Result<Vec<String>, shell_words::ParseError>)
    ensures
        match r {
            Ok(words) => shell_words_of(s@) == Some(views(words@)),
            Err(_) => shell_words_of(s@) is None,
        },
{
    shell_words::split(s)
}

/// The `Display` text of `shell_words::ParseError`; its implementation writes
/// the fixed message "missing closing quote".
#[verifier::external_body]
pub(crate) fn shell_parse_error_text(e: &shell_words::ParseError) -> (r: String)
    ensures
        r@ == "missing closing quote"@,
{
    e.to_string()
}

/// Index of the first `}` at or after `i`.
pub open spec fn next_close(t: Seq<char>, i: int) -> Option<int>
    decreases t.len() - i,
{
    if i < 0 || i >= t.len() {
        None
    } else if t[i] == '}' {
        Some(i)
    } else {
        next_close(t, i + 1)
    }
}

/// What `next_close` finds.
pub proof fn lemma_next_close(t: Seq<char>, i: int)
    requires
        0 <= i,
    ensures
        match next_close(t, i) {
            Some(j) => i <= j < t.len() && t[j] == '}' && forall|k: int| i <= k < j ==> t[k] != '}',
            None => forall|k: int| i <= k < t.len() ==> t[k] != '}',
        },
    decreases t.len() - i,
{
    if i < t.len() && t[i] != '}' {
        lemma_next_close(t, i + 1);
    }
}

/// `p` put in front of a successful result.
pub open spec fn prepend(p: Seq<char>, r: Result<Seq<char>, TemplateFault>) -> Result<Seq<char>, TemplateFault> {
    match r {
        Ok(s) => Ok(p + s),
        Err(e) => Err(e),
    }
}

proof fn lemma_prepend_twice(a: Seq<char>, b: Seq<char>, r: Result<Seq<char>, TemplateFault>)
    ensures
        prepend(a, prepend(b, r)) == prepend(a + b, r),
{
    if let Ok(s) = r {
        assert(a + (b + s) =~= (a + b) + s);
    }
}

/// A substituted value: quoted when it holds white space.
pub open spec fn substituted(v: Seq<char>) -> Seq<char> {
    if has_ws(v) {
        shell_quoted(v)
    } else {
        v
    }
}

/// Rendering of `t` from position `i` on, with `values` for the placeholders.
pub open spec fn render_from(t: Seq<char>, values: Map<Seq<char>, Seq<char>>, i: int) -> Result<
    Seq<char>,
    TemplateFault,
>
    decreases t.len() - i,
{
    if i < 0 || i >= t.len() {
        Ok(Seq::empty())
    } else if t[i] == '{' {
        if i + 1 < t.len() && t[i + 1] == '{' {
            prepend(seq!['{'], render_from(t, values, i + 2))
        } else {
            match next_close(t, i + 1) {
                None => Err(TemplateFault::UnclosedPlaceholder),
                Some(j) => {
                    proof {
                        lemma_next_close(t, i + 1);
                    }
                    let name = trim(t.subrange(i + 1, j));
                    if !values.contains_key(name) {
                        Err(TemplateFault::MissingValue(name))
                    } else {
                        prepend(substituted(values[name]), render_from(t, values, j + 1))
                    }
                },
            }
        }
    } else if t[i] == '}' && i + 1 < t.len() && t[i + 1] == '}' {
        prepend(seq!['}'], render_from(t, values, i + 2))
    } else {
        prepend(seq![t[i]], render_from(t, values, i + 1))
    }
}

/// Placeholder names of `t` from position `i` on, in order of appearance.
pub open spec fn names_from(t: Seq<char>, i: int) -> Option<Seq<Seq<char>>>
    decreases t.len() - i,
{
    if i < 0 || i >= t.len() {
        Some(Seq::empty())
    } else if t[i] == '{' {
        if i + 1 < t.len() && t[i + 1] == '{' {
            names_from(t, i + 2)
        } else {
            match next_close(t, i + 1) {
                None => None,
                Some(j) => {
                    proof {
                        lemma_next_close(t, i + 1);
                    }
                    match names_from(t, j + 1) {
                        Some(rest) => Some(seq![trim(t.subrange(i + 1, j))] + rest),
                        None => None,
                    }
                },
            }
        }
    } else if t[i] == '}' && i + 1 < t.len() && t[i + 1] == '}' {
        names_from(t, i + 2)
    } else {
        names_from(t, i + 1)
    }
}

/// Every name of `ns` has a value.
pub open spec fn all_valued(ns: Seq<Seq<char>>, values: Map<Seq<char>, Seq<char>>) -> bool {
    forall|k: int| 0 <= k < ns.len() ==> values.contains_key(#[trigger] ns[k])
}

/// Rendering succeeds exactly when every placeholder is closed and has a
/// value: a template renders from position `i` on precisely when its
/// placeholder names from there on can be read and all of them are given.
pub proof fn lemma_render_ok_iff_all_valued(
    t: Seq<char>,
    values: Map<Seq<char>, Seq<char>>,
    i: int,
)
    ensures
        render_from(t, values, i) is Ok <==> (names_from(t, i) matches Some(ns) && all_valued(
            ns,
            values,
        )),
    decreases t.len() - i,
{
    if i < 0 || i >= t.len() {
        assert(all_valued(Seq::empty(), values));
    } else if t[i] == '{' {
        if i + 1 < t.len() && t[i + 1] == '{' {
            lemma_render_ok_iff_all_valued(t, values, i + 2);
        } else {
            match next_close(t, i + 1) {
                None => {},
                Some(j) => {
                    lemma_next_close(t, i + 1);
                    lemma_render_ok_iff_all_valued(t, values, j + 1);
                    let name = trim(t.subrange(i + 1, j));
                    match names_from(t, j + 1) {
                        None => {},
                        Some(rest) => {
                            let ns = seq![name] + rest;
                            assert(ns[0] == name);
                            if all_valued(ns, values) {
                                assert forall|k: int| 0 <= k < rest.len() implies values.contains_key(
                                    #[trigger] rest[k],
                                ) by {
                                    assert(ns[k + 1] == rest[k]);
                                }
                            }
                            if values.contains_key(name) && all_valued(rest, values) {
                                assert forall|k: int| 0 <= k < ns.len() implies values.contains_key(
                                    #[trigger] ns[k],
                                ) by {
                                    if k > 0 {
                                        assert(ns[k] == rest[k - 1]);
                                    }
                                }
                            }
                        },
                    }
                },
            }
        }
    } else if t[i] == '}' && i + 1 < t.len() && t[i + 1] == '}' {
        lemma_render_ok_iff_all_valued(t, values, i + 2);
    } else {
        lemma_render_ok_iff_all_valued(t, values, i + 1);
    }
}

/// Words in their shell-quoted form, joined by spaces.
pub open spec fn quoted_words(ws: Seq<Seq<char>>) -> Seq<char> {
    join_words(ws.map_values(|w: Seq<char>| shell_quoted(w)))
}

/// No kept word holds the placeholder of any inactive name.
proof fn lemma_kept_free_of_inactive(toks: Seq<Seq<char>>, inactive: Seq<Seq<char>>, n: int)
    requires
        0 <= n <= toks.len(),
    ensures
        forall|i: int, k: int|
            0 <= i < kept_tokens(toks, inactive, n).len() && 0 <= k < inactive.len() ==> !has_infix(
                #[trigger] kept_tokens(toks, inactive, n)[i],
                placeholder_text(#[trigger] inactive[k]),
            ),
        forall|i: int|
            0 <= i < kept_tokens(toks, inactive, n).len() ==> toks.take(n).contains(
                #[trigger] kept_tokens(toks, inactive, n)[i],
            ),
    decreases n,
{
    if n > 0 {
        lemma_kept_free_of_inactive(toks, inactive, n - 1);
        let prev = kept_tokens(toks, inactive, n - 1);
        let cur = kept_tokens(toks, inactive, n);
        assert forall|i: int| 0 <= i < cur.len() implies toks.take(n).contains(#[trigger] cur[i]) by {
            if i < prev.len() {
                assert(cur[i] == prev[i]);
                let j = choose|j: int| 0 <= j < toks.take(n - 1).len() && #[trigger] toks.take(n - 1)[j] == prev[i];
                assert(toks.take(n)[j] == prev[i]);
            } else {
                assert(cur[i] == toks[n - 1]);
                assert(toks.take(n)[n - 1] == toks[n - 1]);
            }
        }
        assert forall|i: int, k: int|
            0 <= i < cur.len() && 0 <= k < inactive.len() implies !has_infix(
            #[trigger] cur[i],
            placeholder_text(#[trigger] inactive[k]),
        ) by {
            if i < prev.len() {
                assert(cur[i] == prev[i]);
            } else {
                assert(!token_dropped(toks, inactive, n - 1));
                assert(cur[i] == toks[n - 1]);
                assert(!mentions_any(toks[n - 1], inactive));
            }
        }
    }
}

/// Token `i` holds no inactive placeholder and is not the flag of a value
/// token that holds one: stripping must keep it.
pub open spec fn must_keep(toks: Seq<Seq<char>>, inactive: Seq<Seq<char>>, i: int) -> bool {
    &&& forall|k: int| 0 <= k < inactive.len() ==> !has_infix(toks[i], placeholder_text(#[trigger] inactive[k]))
    &&& !(is_flag(toks[i]) && i + 1 < toks.len() && !is_flag(toks[i + 1]) && exists|k: int|
        0 <= k < inactive.len() && has_infix(toks[i + 1], placeholder_text(#[trigger] inactive[k])))
}

proof fn lemma_kept_keeps_others(toks: Seq<Seq<char>>, inactive: Seq<Seq<char>>, n: int)
    requires
        0 <= n <= toks.len(),
    ensures
        forall|i: int| 0 <= i < n && must_keep(toks, inactive, i) ==> kept_tokens(toks, inactive, n).contains(
            #[trigger] toks[i],
        ),
    decreases n,
{
    if n > 0 {
        lemma_kept_keeps_others(toks, inactive, n - 1);
        let prev = kept_tokens(toks, inactive, n - 1);
        let cur = kept_tokens(toks, inactive, n);
        assert forall|i: int| 0 <= i < n && must_keep(toks, inactive, i) implies cur.contains(
            #[trigger] toks[i],
        ) by {
            if i < n - 1 {
                let j = choose|j: int| 0 <= j < prev.len() && prev[j] == toks[i];
                if token_dropped(toks, inactive, n - 1) {
                    assert(cur == prev);
                } else {
                    assert(cur[j] == prev[j]);
                }
            } else {
                if mentions_any(toks[i], inactive) {
                    let k = choose|k: int| 0 <= k < inactive.len() && has_infix(toks[i], placeholder_text(#[trigger] inactive[k]));
                    assert(!has_infix(toks[i], placeholder_text(inactive[k])));
                }
                assert(!token_dropped(toks, inactive, n - 1));
                assert(cur[prev.len() as int] == toks[i]);
            }
        }
    }
}

/// Stripping the inactive parameters leaves none of their placeholders and
/// keeps everything else: on success the result is some words of the
/// template, in their shell-quoted form joined by spaces, none of which
/// holds `{name}` for any inactive `name`, and among which is every word
/// that holds no such placeholder and is not the flag of one.
pub proof fn lemma_strip_removes_every_inactive(toks: Seq<Seq<char>>, inactive: Seq<Seq<char>>)
    ensures
        stripped_tokens(toks, inactive) matches Ok(s) ==> exists|ws: Seq<Seq<char>>|
            s == #[trigger] quoted_words(ws) && (forall|i: int, k: int|
                0 <= i < ws.len() && 0 <= k < inactive.len() ==> !has_infix(
                    #[trigger] ws[i],
                    placeholder_text(#[trigger] inactive[k]),
                )) && (forall|i: int| 0 <= i < ws.len() ==> toks.contains(#[trigger] ws[i])) && (
            forall|i: int| 0 <= i < toks.len() && must_keep(toks, inactive, i) ==> ws.contains(
                #[trigger] toks[i],
            )),
{
    let n = toks.len() as int;
    lemma_kept_free_of_inactive(toks, inactive, n);
    lemma_kept_keeps_others(toks, inactive, n);
    assert(toks.take(n) =~= toks);
    let ws = kept_tokens(toks, inactive, n);
    if stripped_tokens(toks, inactive) is Ok {
        assert(forall|i: int| 0 <= i < ws.len() ==> toks.contains(#[trigger] ws[i]));
        assert(stripped_tokens(toks, inactive) == Ok::<Seq<char>, TemplateFault>(quoted_words(ws)));
    }
}

/// The words of a template with the flag segments of the `inactive`
/// parameters removed (see `stripped_tokens`).
pub fn strip_tokens(tokens: &[String], inactive: &[String]) -> (r: Result<String, TemplateError>)
    ensures
        match stripped_tokens(views(tokens@), views(inactive@)) {
            Ok(s) => r matches Ok(out) && out@ == s,
            Err(e) => r matches Err(err) && err@ == e,
        },
        r matches Ok(out) ==> exists|ws: Seq<Seq<char>>|
            out@ == #[trigger] quoted_words(ws) && (forall|i: int, k: int|
                0 <= i < ws.len() && 0 <= k < inactive@.len() ==> !has_infix(
                    #[trigger] ws[i],
                    placeholder_text(#[trigger] views(inactive@)[k]),
                )) && (forall|i: int| 0 <= i < ws.len() ==> views(tokens@).contains(#[trigger] ws[i])),
{
    proof {
        lemma_strip_removes_every_inactive(views(tokens@), views(inactive@));
    }
    let ghost toks = views(tokens@);
    let ghost inac = views(inactive@);
    let n = tokens.len();
    let mut chars: Vec<Vec<char>> = Vec::new();
    let mut ment: Vec<bool> = Vec::new();
    let mut flag: Vec<bool> = Vec::new();
    let mut i: usize = 0;
    while i < n
        invariant
            n == tokens@.len(),
            toks == views(tokens@),
            inac == views(inactive@),
            i <= n,
            chars@.len() == i,
            ment@.len() == i,
            flag@.len() == i,
            forall|j: int| 0 <= j < i ==> #[trigger] chars@[j]@ == toks[j],
            forall|j: int| 0 <= j < i ==> #[trigger] ment@[j] == mentions_any(toks[j], inac),
            forall|j: int| 0 <= j < i ==> #[trigger] flag@[j] == is_flag(toks[j]),
        decreases n - i,
    {
        let c = chars_of(tokens[i].as_str());
        ment.push(mentions_inactive(&c, inactive));
        flag.push(token_is_flag(&c));
        chars.push(c);
        i = i + 1;
    }
    assert(chars@.map_values(|t: Vec<char>| t@) =~= toks);
    match find_loose(&chars, &flag, inactive) {
        Some(name) => {
            return Err(TemplateError::InvalidConditional(unbound_message_text(name.as_str())));
        },
        None => {},
    }
    let mut kept: Vec<String> = Vec::new();
    let mut i: usize = 0;
    while i < n
        invariant
            n == tokens@.len(),
            toks == views(tokens@),
            inac == views(inactive@),
            i <= n,
            chars@.len() == n,
            ment@.len() == n,
            flag@.len() == n,
            forall|j: int| 0 <= j < n ==> #[trigger] chars@[j]@ == toks[j],
            forall|j: int| 0 <= j < n ==> #[trigger] ment@[j] == mentions_any(toks[j], inac),
            forall|j: int| 0 <= j < n ==> #[trigger] flag@[j] == is_flag(toks[j]),
            views(kept@) == kept_tokens(toks, inac, i as int).map_values(
                |w: Seq<char>| shell_quoted(w),
            ),
        decreases n - i,
    {
        let dropped = ment[i] || (flag[i] && i + 1 < n && ment[i + 1] && !flag[i + 1]);
        assert(dropped == token_dropped(toks, inac, i as int));
        if !dropped {
            let q = shell_quote(tokens[i].as_str());
            let ghost before = views(kept@);
            kept.push(q);
            proof {
                assert(views(kept@) =~= before.push(shell_quoted(toks[i as int])));
                assert(kept_tokens(toks, inac, i + 1) == kept_tokens(toks, inac, i as int).push(
                    toks[i as int],
                ));
                assert(kept_tokens(toks, inac, i + 1).map_values(|w: Seq<char>| shell_quoted(w))
                    =~= before.push(shell_quoted(toks[i as int])));
            }
        }
        i = i + 1;
    }
    Ok(join_with_spaces(&kept))
}

/// A command line with `{name}` placeholders.
#[derive(Debug)]
pub struct CommandTemplate {
    template: String,
}

impl View for CommandTemplate {
    type V = Seq<char>;

    closed spec fn view(&self) -> Seq<char> {
        self.template@
    }
}

/// The placeholder text `{name}`.
pub open spec fn placeholder_text(name: Seq<char>) -> Seq<char> {
    seq!['{'] + name + seq!['}']
}

/// The token starts with `-` (a flag).
pub open spec fn is_flag(tok: Seq<char>) -> bool {
    tok.len() > 0 && tok[0] == '-'
}

/// The token mentions a placeholder of one of the `inactive` names.
pub open spec fn mentions_any(tok: Seq<char>, inactive: Seq<Seq<char>>) -> bool {
    exists|k: int| 0 <= k < inactive.len() && has_infix(tok, placeholder_text(#[trigger] inactive[k]))
}

/// Token `i` goes: it mentions an inactive placeholder, or it is the flag
/// right before a value token that does.
pub open spec fn token_dropped(toks: Seq<Seq<char>>, inactive: Seq<Seq<char>>, i: int) -> bool {
    ||| mentions_any(toks[i], inactive)
    ||| (is_flag(toks[i]) && i + 1 < toks.len() && mentions_any(toks[i + 1], inactive)
        && !is_flag(toks[i + 1]))
}

/// The tokens among the first `n` that stay.
pub open spec fn kept_tokens(toks: Seq<Seq<char>>, inactive: Seq<Seq<char>>, n: int) -> Seq<Seq<char>>
    decreases n,
{
    if n <= 0 {
        Seq::empty()
    } else if token_dropped(toks, inactive, n - 1) {
        kept_tokens(toks, inactive, n - 1)
    } else {
        kept_tokens(toks, inactive, n - 1).push(toks[n - 1])
    }
}

/// Words joined by single spaces.
pub open spec fn join_words(ws: Seq<Seq<char>>) -> Seq<char>
    decreases ws.len(),
{
    if ws.len() == 0 {
        Seq::empty()
    } else if ws.len() == 1 {
        ws[0]
    } else {
        join_words(ws.drop_last()) + seq![' '] + ws.last()
    }
}

/// The message for a conditional parameter that is not flag-bound.
pub open spec fn unbound_message(name: Seq<char>) -> Seq<char> {
    "conditional parameter '"@ + name + "' must be bound to a named --flag in the template (e.g. --"@
        + name + " {"@ + name + "} or --"@ + name + "={"@ + name
        + "}); positional placeholders are not supported"@
}

/// Token `i` holds the placeholder of `name` but is neither a flag nor the
/// value right after one, so no flag segment can be stripped for it.
pub open spec fn loose_at(toks: Seq<Seq<char>>, name: Seq<char>, i: int) -> bool {
    has_infix(toks[i], placeholder_text(name)) && !is_flag(toks[i]) && !(i > 0 && is_flag(
        toks[i - 1],
    ))
}

/// Some token holds the placeholder of `name` without a flag to carry it.
pub open spec fn loose_placeholder(toks: Seq<Seq<char>>, name: Seq<char>) -> bool {
    exists|i: int| 0 <= i < toks.len() && #[trigger] loose_at(toks, name, i)
}

/// The first of the first `n` names whose placeholder is not flag-bound
/// somewhere in the tokens.
pub open spec fn first_loose(toks: Seq<Seq<char>>, names: Seq<Seq<char>>, n: int) -> Option<
    Seq<char>,
>
    decreases n,
{
    if n <= 0 {
        None
    } else {
        match first_loose(toks, names, n - 1) {
            Some(x) => Some(x),
            None => if loose_placeholder(toks, names[n - 1]) {
                Some(names[n - 1])
            } else {
                None
            },
        }
    }
}

/// The template with the flag segments of the `inactive` parameters removed,
/// each remaining token shell-quoted; an inactive placeholder that is not
/// bound to a flag is an invalid conditional.
pub open spec fn stripped_template(t: Seq<char>, inactive: Seq<Seq<char>>) -> Result<
    Seq<char>,
    TemplateFault,
> {
    match shell_words_of(t) {
        None => Err(
            TemplateFault::InvalidConditional(
                "template tokenize failed: "@ + "missing closing quote"@,
            ),
        ),
        Some(toks) => stripped_tokens(toks, inactive),
    }
}

/// The words `toks` with the flag segments of the `inactive` parameters
/// removed, each remaining word shell-quoted and the words joined by
/// spaces; an inactive placeholder that is not bound to a flag is an invalid
/// conditional.
pub open spec fn stripped_tokens(toks: Seq<Seq<char>>, inactive: Seq<Seq<char>>) -> Result<
    Seq<char>,
    TemplateFault,
> {
    match first_loose(toks, inactive, inactive.len() as int) {
        Some(name) => Err(TemplateFault::InvalidConditional(unbound_message(name))),
        None => Ok(
            join_words(
                kept_tokens(toks, inactive, toks.len() as int).map_values(
                    |w: Seq<char>| shell_quoted(w),
                ),
            ),
        ),
    }
}

proof fn lemma_first_loose_stays(toks: Seq<Seq<char>>, names: Seq<Seq<char>>, k: int, n: int)
    requires
        0 <= k <= n,
        first_loose(toks, names, k) is Some,
    ensures
        first_loose(toks, names, n) == first_loose(toks, names, k),
    decreases n - k,
{
    if k < n {
        lemma_first_loose_stays(toks, names, k + 1, n);
    }
}

/// The message for a conditional parameter that is not flag-bound.
pub fn unbound_message_text(name: &str) -> (r: String)
    ensures
        r@ == unbound_message(name@),
{
    let a = concat_str("conditional parameter '", name);
    let b = concat_str(a.as_str(), "' must be bound to a named --flag in the template (e.g. --");
    let c = concat_str(b.as_str(), name);
    let d = concat_str(c.as_str(), " {");
    let e = concat_str(d.as_str(), name);
    let f = concat_str(e.as_str(), "} or --");
    let g = concat_str(f.as_str(), name);
    let h = concat_str(g.as_str(), "={");
    let m = concat_str(h.as_str(), name);
    let out = concat_str(m.as_str(), "}); positional placeholders are not supported");
    assert(out@ =~= unbound_message(name@));
    out
}

/// The characters `{name}`.
fn placeholder_chars(name: &str) -> (r: Vec<char>)
    ensures
        r@ == placeholder_text(name@),
{
    let mut ph: Vec<char> = Vec::new();
    ph.push('{');
    let nc = chars_of(name);
    let mut q: usize = 0;
    while q < nc.len()
        invariant
            q <= nc@.len(),
            ph@ == seq!['{'] + nc@.take(q as int),
        decreases nc@.len() - q,
    {
        ph.push(nc[q]);
        proof {
            assert(nc@.take(q + 1) =~= nc@.take(q as int).push(nc@[q as int]));
        }
        q = q + 1;
    }
    ph.push('}');
    proof {
        assert(nc@.take(nc@.len() as int) =~= nc@);
        assert(ph@ =~= placeholder_text(name@));
    }
    ph
}

/// The first inactive name whose placeholder sits in a token that is neither
/// a flag nor right after one.
fn find_loose(chars: &Vec<Vec<char>>, flag: &Vec<bool>, inactive: &[String]) -> (r: Option<String>)
    requires
        flag@.len() == chars@.len(),
        forall|j: int| 0 <= j < chars@.len() ==> #[trigger] flag@[j] == is_flag(chars@[j]@),
    ensures
        match first_loose(chars@.map_values(|t: Vec<char>| t@), views(inactive@), inactive@.len() as int) {
            Some(name) => r matches Some(s) && s@ == name,
            None => r is None,
        },
{
    let ghost toks = chars@.map_values(|t: Vec<char>| t@);
    let ghost names = views(inactive@);
    let mut k: usize = 0;
    while k < inactive.len()
        invariant
            k <= inactive@.len(),
            names == views(inactive@),
            toks == chars@.map_values(|t: Vec<char>| t@),
            flag@.len() == chars@.len(),
            forall|j: int| 0 <= j < chars@.len() ==> #[trigger] flag@[j] == is_flag(chars@[j]@),
            first_loose(toks, names, k as int) is None,
        decreases inactive@.len() - k,
    {
        let name = inactive[k].as_str();
        assert(names[k as int] == name@);
        let ph = placeholder_chars(name);
        let mut i: usize = 0;
        while i < chars.len()
            invariant
                i <= chars@.len(),
                toks == chars@.map_values(|t: Vec<char>| t@),
                flag@.len() == chars@.len(),
                forall|j: int| 0 <= j < chars@.len() ==> #[trigger] flag@[j] == is_flag(chars@[j]@),
                ph@ == placeholder_text(name@),
                k < inactive@.len(),
                names == views(inactive@),
                names[k as int] == name@,
                first_loose(toks, names, k as int) is None,
                forall|j: int| 0 <= j < i ==> !#[trigger] loose_at(toks, name@, j),
            decreases chars@.len() - i,
        {
            assert(toks[i as int] == chars@[i as int]@);
            let holds = chars_contains(&chars[i], &ph);
            let prev = i > 0 && flag[i - 1];
            if i > 0 {
                assert(toks[i - 1] == chars@[i - 1]@);
            }
            if holds && !flag[i] && !prev {
                assert(loose_at(toks, name@, i as int));
                proof {
                    assert(loose_placeholder(toks, names[k as int]));
                    lemma_first_loose_stays(toks, names, k + 1, names.len() as int);
                }
                return Some(owned(name));
            }
            assert(!loose_at(toks, name@, i as int));
            i = i + 1;
        }
        assert(!loose_placeholder(toks, names[k as int]));
        k = k + 1;
    }
    None
}


/// `s` with every `{` and `}` doubled.
pub open spec fn brace_escaped(s: Seq<char>) -> Seq<char>
    decreases s.len(),
{
    if s.len() == 0 {
        Seq::empty()
    } else if s.last() == '{' {
        brace_escaped(s.drop_last()) + seq!['{', '{']
    } else if s.last() == '}' {
        brace_escaped(s.drop_last()) + seq!['}', '}']
    } else {
        brace_escaped(s.drop_last()).push(s.last())
    }
}

/// `s` with every `"` written as `\"`.
pub open spec fn quote_escaped(s: Seq<char>) -> Seq<char>
    decreases s.len(),
{
    if s.len() == 0 {
        Seq::empty()
    } else if s.last() == '"' {
        quote_escaped(s.drop_last()) + seq!['\\', '"']
    } else {
        quote_escaped(s.drop_last()).push(s.last())
    }
}

/// Whether a substituted value must be shell-quoted: it holds white space.
pub fn needs_shell_quote(value: &str) -> (r: bool)
    ensures
        r == has_ws(value@),
{
    let v = chars_of(value);
    chars_have_whitespace(&v)
}

/// Read a placeholder name that starts at `start` (just after its `{`).
/// Returns the trimmed name and the position after the closing `}`.
fn read_placeholder(t: &[char], start: usize) -> (r: Result<(Vec<char>, usize), TemplateError>)
    requires
        start <= t@.len(),
    ensures
        match next_close(t@, start as int) {
            None => r matches Err(TemplateError::UnclosedPlaceholder),
            Some(j) => r matches Ok((name, next)) && name@ == trim(t@.subrange(start as int, j))
                && next == j + 1,
        },
{
    let mut j: usize = start;
    while j < t.len() && t[j] != '}'
        invariant
            start <= j <= t@.len(),
            next_close(t@, start as int) == next_close(t@, j as int),
        decreases t@.len() - j,
    {
        j = j + 1;
    }
    if j >= t.len() {
        return Err(TemplateError::UnclosedPlaceholder);
    }
    let mut raw: Vec<char> = Vec::new();
    let mut k: usize = start;
    while k < j
        invariant
            start <= k <= j < t@.len(),
            raw@ == t@.subrange(start as int, k as int),
        decreases j - k,
    {
        raw.push(t[k]);
        k = k + 1;
    }
    let name = chars_trim(&raw);
    Ok((name, j + 1))
}

/// The placeholder names of `template`, in order of appearance.
fn parse_template(template: &str) -> (r: Result<Vec<String>, TemplateError>)
    ensures
        match names_from(template@, 0) {
            Some(names) => r matches Ok(v) && views(v@) == names,
            None => r matches Err(TemplateError::UnclosedPlaceholder),
        },
{
    let t = chars_of(template);
    let mut names: Vec<String> = Vec::new();
    let mut i: usize = 0;
    while i < t.len()
        invariant
            i <= t@.len() + 1,
            t@ == template@,
            names_from(t@, 0) == match names_from(t@, i as int) {
                Some(rest) => Some(views(names@) + rest),
                None => None::<Seq<Seq<char>>>,
            },
        decreases t@.len() + 1 - i,
    {
        let ghost before = views(names@);
        if t[i] == '{' {
            if i + 1 < t.len() && t[i + 1] == '{' {
                i = i + 2;
            } else {
                proof {
                    lemma_next_close(t@, i + 1);
                }
                match read_placeholder(&t, i + 1) {
                    Err(e) => {
                        return Err(e);
                    },
                    Ok((name, next)) => {
                        let ghost nm = name@;
                        names.push(string_of(&name));
                        proof {
                            assert(views(names@) =~= before.push(nm));
                            match names_from(t@, next as int) {
                                Some(rest) => {
                                    assert(before + (seq![nm] + rest) =~= before.push(nm) + rest);
                                },
                                None => {},
                            }
                        }
                        i = next;
                    },
                }
            }
        } else if t[i] == '}' && i + 1 < t.len() && t[i + 1] == '}' {
            i = i + 2;
        } else {
            i = i + 1;
        }
    }
    proof {
        assert(views(names@) + Seq::<Seq<char>>::empty() =~= views(names@));
    }
    Ok(names)
}

/// Whether the token mentions `{name}` for one of the `inactive` names.
fn mentions_inactive(tok: &[char], inactive: &[String]) -> (r: bool)
    ensures
        r == mentions_any(tok@, views(inactive@)),
{
    let mut k: usize = 0;
    while k < inactive.len()
        invariant
            k <= inactive@.len(),
            forall|m: int|
                0 <= m < k ==> !has_infix(tok@, placeholder_text(#[trigger] views(inactive@)[m])),
        decreases inactive@.len() - k,
    {
        let mut ph: Vec<char> = Vec::new();
        ph.push('{');
        let name = chars_of(inactive[k].as_str());
        let mut q: usize = 0;
        while q < name.len()
            invariant
                q <= name@.len(),
                ph@ == seq!['{'] + name@.take(q as int),
            decreases name@.len() - q,
        {
            ph.push(name[q]);
            proof {
                assert(name@.take(q + 1) =~= name@.take(q as int).push(name@[q as int]));
            }
            q = q + 1;
        }
        ph.push('}');
        proof {
            assert(name@.take(name@.len() as int) =~= name@);
            assert(ph@ =~= placeholder_text(views(inactive@)[k as int]));
        }
        if chars_contains(tok, &ph) {
            return true;
        }
        k = k + 1;
    }
    false
}

/// Whether the token is a flag (starts with `-`).
fn token_is_flag(tok: &[char]) -> (r: bool)
    ensures
        r == is_flag(tok@),
{
    tok.len() > 0 && tok[0] == '-'
}

/// Words joined by single spaces.
fn join_with_spaces(words: &Vec<String>) -> (r: String)
    ensures
        r@ == join_words(views(words@)),
{
    let ghost ws = views(words@);
    let mut out: Vec<char> = Vec::new();
    let mut k: usize = 0;
    while k < words.len()
        invariant
            k <= words@.len(),
            ws == views(words@),
            out@ == join_words(ws.take(k as int)),
        decreases words@.len() - k,
    {
        let w = chars_of(words[k].as_str());
        let ghost before = out@;
        if k > 0 {
            out.push(' ');
        }
        let mut q: usize = 0;
        while q < w.len()
            invariant
                q <= w@.len(),
                out@ == (if k > 0 { before + seq![' '] } else { before }) + w@.take(q as int),
            decreases w@.len() - q,
        {
            out.push(w[q]);
            proof {
                assert(w@.take(q + 1) =~= w@.take(q as int).push(w@[q as int]));
            }
            q = q + 1;
        }
        proof {
            assert(w@.take(w@.len() as int) =~= w@);
            let t1 = ws.take(k + 1);
            assert(t1.drop_last() =~= ws.take(k as int));
            assert(t1.last() == w@);
            if k == 0 {
                assert(before =~= Seq::<char>::empty());
                assert(out@ =~= w@);
            } else {
                assert(out@ =~= before + seq![' '] + w@);
            }
        }
        k = k + 1;
    }
    proof {
        assert(ws.take(words@.len() as int) =~= ws);
    }
    string_of(&out)
}

impl CommandTemplate {
    /// A template with the given text.
    pub fn new(template: &str) -> (r: Self)
        ensures
            r@ == template@,
    {
        CommandTemplate { template: template.to_owned() }
    }

    /// The template text.
    pub fn as_str(&self) -> (r: &str)
        ensures
            r@ == self@,
    {
        self.template.as_str()
    }

    /// The distinct placeholder names, sorted; fails on an unclosed `{`.
    pub fn placeholders(&self) -> (r: Result<Vec<String>, TemplateError>)
        ensures
            match names_from(self@, 0) {
                Some(names) => r matches Ok(v) && strictly_sorted(views(v@))
                    && forall|x: Seq<char>| #[trigger]
                    views(v@).contains(x) <==> names.contains(x),
                None => r matches Err(TemplateError::UnclosedPlaceholder),
            },
    {
        let names = match parse_template(self.template.as_str()) {
            Ok(v) => v,
            Err(e) => {
                return Err(e);
            },
        };
        let ghost all = views(names@);
        let mut set: Vec<String> = Vec::new();
        let mut i: usize = 0;
        while i < names.len()
            invariant
                i <= names@.len(),
                all == views(names@),
                strictly_sorted(views(set@)),
                forall|x: Seq<char>| #[trigger]
                    views(set@).contains(x) <==> all.take(i as int).contains(x),
            decreases names@.len() - i,
        {
            let ghost prev = views(set@);
            let n = names[i].clone();
            insert_sorted(&mut set, n);
            proof {
                assert(all.take(i + 1) =~= all.take(i as int).push(all[i as int]));
                assert forall|x: Seq<char>|
                    views(set@).contains(x) <==> all.take(i + 1).contains(x) by {
                    if all.take(i + 1).contains(x) {
                        let k = choose|k: int| 0 <= k < i + 1 && #[trigger] all.take(i + 1)[k] == x;
                        if k < i {
                            assert(all.take(i as int)[k] == x);
                        }
                    }
                    if all.take(i as int).contains(x) {
                        let k = choose|k: int| 0 <= k < i && #[trigger] all.take(i as int)[k] == x;
                        assert(all.take(i + 1)[k] == x);
                    }
                    if x == all[i as int] {
                        assert(all.take(i + 1)[i as int] == x);
                    }
                }
            }
            i = i + 1;
        }
        proof {
            assert(all.take(names@.len() as int) =~= all);
        }
        Ok(set)
    }

    /// Substitute each placeholder by its value in `values` (quoted when it
    /// holds white space); `{{` and `}}` render as single braces.
    pub fn render(&self, values: &FieldMap) -> (r: Result<String, TemplateError>)
        ensures
            match render_from(self@, values@, 0) {
                Ok(s) => r matches Ok(out) && out@ == s,
                Err(e) => r matches Err(err) && err@ == e,
            },
    {
        let t = chars_of(self.template.as_str());
        let mut out: Vec<char> = Vec::new();
        let mut i: usize = 0;
        while i < t.len()
            invariant
                i <= t@.len() + 1,
                t@ == self@,
                render_from(t@, values@, 0) == prepend(out@, render_from(t@, values@, i as int)),
            decreases t@.len() + 1 - i,
        {
            let ghost before = out@;
            if t[i] == '{' {
                if i + 1 < t.len() && t[i + 1] == '{' {
                    out.push('{');
                    proof {
                        lemma_prepend_twice(before, seq!['{'], render_from(t@, values@, i + 2));
                        assert(before + seq!['{'] =~= out@);
                    }
                    i = i + 2;
                } else {
                    proof {
                        lemma_next_close(t@, i + 1);
                    }
                    let (name, next) = match read_placeholder(&t, i + 1) {
                        Ok(p) => p,
                        Err(e) => {
                            return Err(e);
                        },
                    };
                    let key = string_of(&name);
                    match values.get(key.as_str()) {
                        None => {
                            return Err(TemplateError::MissingValue(key));
                        },
                        Some(value) => {
                            let piece = if needs_shell_quote(value.as_str()) {
                                shell_quote(value.as_str())
                            } else {
                                value.clone()
                            };
                            let pv = chars_of(piece.as_str());
                            let mut k: usize = 0;
                            while k < pv.len()
                                invariant
                                    k <= pv@.len(),
                                    out@ == before + pv@.take(k as int),
                                decreases pv@.len() - k,
                            {
                                out.push(pv[k]);
                                proof {
                                    assert(pv@.take(k + 1) =~= pv@.take(k as int).push(pv@[k as int]));
                                }
                                k = k + 1;
                            }
                            proof {
                                assert(pv@.take(pv@.len() as int) =~= pv@);
                                lemma_prepend_twice(before, pv@, render_from(t@, values@, next as int));
                            }
                            i = next;
                        },
                    }
                }
            } else if t[i] == '}' && i + 1 < t.len() && t[i + 1] == '}' {
                out.push('}');
                proof {
                    lemma_prepend_twice(before, seq!['}'], render_from(t@, values@, i + 2));
                    assert(before + seq!['}'] =~= out@);
                }
                i = i + 2;
            } else {
                let c = t[i];
                out.push(c);
                proof {
                    lemma_prepend_twice(before, seq![c], render_from(t@, values@, i + 1));
                    assert(before + seq![c] =~= out@);
                }
                i = i + 1;
            }
        }
        proof {
            assert(out@ + Seq::<char>::empty() =~= out@);
        }
        Ok(string_of(&out))
    }

    /// The template with the flag segments of the `inactive` parameters
    /// removed, so that their placeholders never render. Both
    /// `--flag {name}` (two tokens) and `--flag={name}` (one token) go; each
    /// remaining token is shell-quoted and the tokens are joined by spaces.
    /// An inactive placeholder that is neither in a flag token nor right after
    /// one is an invalid conditional: it has no flag segment to strip.
    pub fn strip_inactive_flags(&self, inactive: &[String]) -> (r: Result<String, TemplateError>)
        ensures
            match stripped_template(self@, views(inactive@)) {
                Ok(s) => r matches Ok(out) && out@ == s,
                Err(e) => r matches Err(err) && err@ == e,
            },
            r matches Ok(out) ==> exists|ws: Seq<Seq<char>>|
                out@ == #[trigger] quoted_words(ws) && (forall|i: int, k: int|
                    0 <= i < ws.len() && 0 <= k < inactive@.len() ==> !has_infix(
                        #[trigger] ws[i],
                        placeholder_text(#[trigger] views(inactive@)[k]),
                    )),
    {
        let tokens = match shell_split(self.template.as_str()) {
            Ok(t) => t,
            Err(e) => {
                let a = chars_of("template tokenize failed: ");
                let b = chars_of(shell_parse_error_text(&e).as_str());
                let mut m = a.clone();
                let mut q: usize = 0;
                while q < b.len()
                    invariant
                        q <= b@.len(),
                        m@ == a@ + b@.take(q as int),
                    decreases b@.len() - q,
                {
                    m.push(b[q]);
                    proof {
                        assert(b@.take(q + 1) =~= b@.take(q as int).push(b@[q as int]));
                    }
                    q = q + 1;
                }
                proof {
                    assert(b@.take(b@.len() as int) =~= b@);
                }
                return Err(TemplateError::InvalidConditional(string_of(&m)));
            },
        };
        strip_tokens(&tokens, inactive)
    }

    /// JSON text made safe for a template: each `{` and `}` is doubled so the
    /// template reads them as literal braces.
    pub fn embed_json(json_text: &str) -> (r: String)
        ensures
            r@ == brace_escaped(json_text@),
    {
        let v = chars_of(json_text);
        let mut out: Vec<char> = Vec::new();
        let mut i: usize = 0;
        while i < v.len()
            invariant
                i <= v@.len(),
                out@ == brace_escaped(v@.take(i as int)),
            decreases v@.len() - i,
        {
            let c = v[i];
            if c == '{' {
                out.push('{');
                out.push('{');
            } else if c == '}' {
                out.push('}');
                out.push('}');
            } else {
                out.push(c);
            }
            proof {
                assert(v@.take(i + 1).drop_last() =~= v@.take(i as int));
                assert(out@ =~= brace_escaped(v@.take(i + 1)));
            }
            i = i + 1;
        }
        proof {
            assert(v@.take(v@.len() as int) =~= v@);
        }
        string_of(&out)
    }

    /// Like `embed_json`, and also each `"` becomes `\"` so the text can sit
    /// inside a TOML `"..."` string.
    pub fn embed_json_for_toml(json_text: &str) -> (r: String)
        ensures
            r@ == brace_escaped(quote_escaped(json_text@)),
    {
        let v = chars_of(json_text);
        let mut out: Vec<char> = Vec::new();
        let mut i: usize = 0;
        while i < v.len()
            invariant
                i <= v@.len(),
                out@ == quote_escaped(v@.take(i as int)),
            decreases v@.len() - i,
        {
            let c = v[i];
            if c == '"' {
                out.push('\\');
                out.push('"');
            } else {
                out.push(c);
            }
            proof {
                assert(v@.take(i + 1).drop_last() =~= v@.take(i as int));
                assert(out@ =~= quote_escaped(v@.take(i + 1)));
            }
            i = i + 1;
        }
        proof {
            assert(v@.take(v@.len() as int) =~= v@);
        }
        let q = string_of(&out);
        Self::embed_json(q.as_str())
    }
}

} // verus!
