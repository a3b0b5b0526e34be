//! The talkback line protocol: a trial's stdout lines that carry
//! `PREFIX{json}` messages.
//!
//! Each line is stripped of ANSI escapes; the first occurrence of the prefix
//! marks the message, whose trimmed remainder is a JSON document: an event
//! `{"type":"event","name":..,"fields":{..}}` or a flat result
//! `{"type":"result","fields":{..}}`, field values being strings.

use vstd::prelude::*;

use crate::fields::{entries_map, sorted_pairs, FieldMap};
use crate::json::{json_parsed, object_get, object_lookup, parse_json, JsonValue};
use crate::text::{
    chars_find, chars_of, chars_trim, first_occurrence, has_infix, lemma_find_from, occurs_at,
    string_of, trim,
};

verus! {

/// A parsed protocol item, as plain values.
pub enum ParsedView {
    Event(Seq<char>, Map<Seq<char>, Seq<char>>),
    Result(Seq<char>, Seq<char>),
}

/// One item of a protocol message.
#[derive(Debug)]
pub enum ParsedItem {
    /// A named event with its string fields.
    Event { name: String, fields: FieldMap },
    /// One field of a flat result message.
    Result { name: String, value: String },
}

impl View for ParsedItem {
    type V = ParsedView;

    open spec fn view(&self) -> ParsedView {
        match self {
            ParsedItem::Event { name, fields } => ParsedView::Event(name@, fields@),
            ParsedItem::Result { name, value } => ParsedView::Result(name@, value@),
        }
    }
}

/// The views of a list of items.
pub open spec fn item_views(v: Seq<ParsedItem>) -> Seq<ParsedView> {
    v.map_values(|x: ParsedItem| x@)
}

// ---------------------------------------------------------------------------
// ANSI escapes

/// First index at or after `k` holding a CSI final byte (`@`..=`~`).
pub open spec fn csi_final(s: Seq<char>, k: int) -> Option<int>
    decreases s.len() - k,
{
    if k < 0 || k >= s.len() {
        None
    } else if '@' <= s[k] && s[k] <= '~' {
        Some(k)
    } else {
        csi_final(s, k + 1)
    }
}

/// First index at or after `k` that ends an OSC sequence whose body starts at
/// `start`: a BEL, or a `\` right after an ESC of the body.
pub open spec fn osc_end(s: Seq<char>, start: int, k: int) -> Option<int>
    decreases s.len() - k,
{
    if k < 0 || k >= s.len() {
        None
    } else if s[k] == '\u{7}' || (k > start && s[k - 1] == '\u{1b}' && s[k] == '\\') {
        Some(k)
    } else {
        osc_end(s, start, k + 1)
    }
}

pub proof fn lemma_csi_final(s: Seq<char>, k: int)
    requires
        0 <= k,
    ensures
        csi_final(s, k) matches Some(j) ==> k <= j < s.len(),
    decreases s.len() - k,
{
    if k < s.len() && !('@' <= s[k] && s[k] <= '~') {
        lemma_csi_final(s, k + 1);
    }
}

pub proof fn lemma_osc_end(s: Seq<char>, start: int, k: int)
    requires
        0 <= k,
    ensures
        osc_end(s, start, k) matches Some(j) ==> k <= j < s.len(),
    decreases s.len() - k,
{
    if k < s.len() && !(s[k] == '\u{7}' || (k > start && s[k - 1] == '\u{1b}' && s[k] == '\\')) {
        lemma_osc_end(s, start, k + 1);
    }
}

/// `s` from position `i` on with CSI (`ESC [ .. final`) and OSC
/// (`ESC ] .. BEL` or `ESC ] .. ESC \`) sequences removed; an unterminated
/// sequence swallows the rest, and any other ESC is dropped alone.
pub open spec fn ansi_stripped_from(s: Seq<char>, i: int) -> Seq<char>
    decreases s.len() - i,
{
    if i < 0 || i >= s.len() {
        Seq::empty()
    } else if s[i] == '\u{1b}' {
        if i + 1 < s.len() && s[i + 1] == '[' {
            match csi_final(s, i + 2) {
                None => Seq::empty(),
                Some(j) => {
                    proof {
                        lemma_csi_final(s, i + 2);
                    }
                    ansi_stripped_from(s, j + 1)
                },
            }
        } else if i + 1 < s.len() && s[i + 1] == ']' {
            match osc_end(s, i + 2, i + 2) {
                None => Seq::empty(),
                Some(j) => {
                    proof {
                        lemma_osc_end(s, i + 2, i + 2);
                    }
                    ansi_stripped_from(s, j + 1)
                },
            }
        } else {
            ansi_stripped_from(s, i + 1)
        }
    } else {
        seq![s[i]] + ansi_stripped_from(s, i + 1)
    }
}

/// `s` without ANSI escape sequences.
pub open spec fn ansi_stripped(s: Seq<char>) -> Seq<char> {
    ansi_stripped_from(s, 0)
}

/// Remove ANSI escape sequences from a line.
pub fn strip_ansi(line: &str) -> (r: String)
    ensures
        r@ == ansi_stripped(line@),
{
    let s = chars_of(line);
    let mut out: Vec<char> = Vec::new();
    let mut i: usize = 0;
    while i < s.len()
        invariant
            i <= s@.len() + 1,
            s@ == line@,
            ansi_stripped(s@) == out@ + ansi_stripped_from(s@, i as int),
        decreases s@.len() + 1 - i,
    {
        if s[i] == '\u{1b}' {
            if i + 1 < s.len() && s[i + 1] == '[' {
                let mut k: usize = i + 2;
                while k < s.len() && !('@' <= s[k] && s[k] <= '~')
                    invariant
                        i + 2 <= k <= s@.len(),
                        csi_final(s@, i + 2) == csi_final(s@, k as int),
                    decreases s@.len() - k,
                {
                    k = k + 1;
                }
                if k >= s.len() {
                    proof {
                        assert(out@ + Seq::<char>::empty() =~= out@);
                    }
                    i = s.len();
                } else {
                    i = k + 1;
                }
            } else if i + 1 < s.len() && s[i + 1] == ']' {
                let start: usize = i + 2;
                let mut k: usize = start;
                while k < s.len() && !(s[k] == '\u{7}' || (k > start && s[k - 1] == '\u{1b}' && s[k]
                    == '\\'))
                    invariant
                        start <= k <= s@.len(),
                        start == i + 2,
                        osc_end(s@, start as int, start as int) == osc_end(s@, start as int, k as int),
                    decreases s@.len() - k,
                {
                    k = k + 1;
                }
                if k >= s.len() {
                    proof {
                        assert(out@ + Seq::<char>::empty() =~= out@);
                    }
                    i = s.len();
                } else {
                    i = k + 1;
                }
            } else {
                i = i + 1;
            }
        } else {
            let ghost before = out@;
            let c = s[i];
            out.push(c);
            proof {
                assert(before + (seq![c] + ansi_stripped_from(s@, i + 1)) =~= out@
                    + ansi_stripped_from(s@, i + 1));
            }
            i = i + 1;
        }
    }
    proof {
        assert(out@ + Seq::<char>::empty() =~= out@);
    }
    string_of(&out)
}

// ---------------------------------------------------------------------------
// Lines

/// First `\n` at or after `i`.
pub open spec fn next_newline(s: Seq<char>, i: int) -> Option<int>
    decreases s.len() - i,
{
    if i < 0 || i >= s.len() {
        None
    } else if s[i] == '\n' {
        Some(i)
    } else {
        next_newline(s, i + 1)
    }
}

pub proof fn lemma_next_newline(s: Seq<char>, i: int)
    requires
        0 <= i,
    ensures
        next_newline(s, i) matches Some(j) ==> i <= j < s.len(),
    decreases s.len() - i,
{
    if i < s.len() && s[i] != '\n' {
        lemma_next_newline(s, i + 1);
    }
}

/// A line ended by `\n` loses one trailing `\r`.
pub open spec fn chomp_cr(p: Seq<char>) -> Seq<char> {
    if p.len() > 0 && p.last() == '\r' {
        p.drop_last()
    } else {
        p
    }
}

/// The lines of `s` from position `i` on, as `str::lines` yields them.
pub open spec fn lines_from(s: Seq<char>, i: int) -> Seq<Seq<char>>
    decreases s.len() - i,
{
    if i < 0 || i >= s.len() {
        Seq::empty()
    } else {
        match next_newline(s, i) {
            None => seq![s.subrange(i, s.len() as int)],
            Some(j) => {
                proof {
                    lemma_next_newline(s, i);
                }
                seq![chomp_cr(s.subrange(i, j))] + lines_from(s, j + 1)
            },
        }
    }
}

/// The lines of `s` (`str::lines`).
pub open spec fn text_lines(s: Seq<char>) -> Seq<Seq<char>> {
    lines_from(s, 0)
}

/// Split `s` into lines the way `str::lines` does: at `\n` or `\r\n`, with
/// an optional final line ending.
pub fn split_lines(s: &str) -> (r: Vec<String>)
    ensures
        crate::text::views(r@) == text_lines(s@),
{
    let c = chars_of(s);
    let mut r: Vec<String> = Vec::new();
    let mut i: usize = 0;
    while i < c.len()
        invariant
            i <= c@.len(),
            c@ == s@,
            text_lines(c@) == crate::text::views(r@) + lines_from(c@, i as int),
        decreases c@.len() + 1 - i,
    {
        let mut j: usize = i;
        while j < c.len() && c[j] != '\n'
            invariant
                i <= j <= c@.len(),
                next_newline(c@, i as int) == next_newline(c@, j as int),
            decreases c@.len() - j,
        {
            j = j + 1;
        }
        let mut end: usize = j;
        if j < c.len() && j > i && c[j - 1] == '\r' {
            end = j - 1;
        }
        let mut piece: Vec<char> = Vec::new();
        let mut k: usize = i;
        while k < end
            invariant
                i <= k <= end <= c@.len(),
                piece@ == c@.subrange(i as int, k as int),
            decreases end - k,
        {
            piece.push(c[k]);
            k = k + 1;
        }
        let ghost before = crate::text::views(r@);
        r.push(string_of(&piece));
        proof {
            assert(crate::text::views(r@) =~= before.push(piece@));
            if j < c@.len() {
                assert(piece@ == chomp_cr(c@.subrange(i as int, j as int))) by {
                    if j > i && c@[j - 1] == '\r' {
                        assert(c@.subrange(i as int, j as int).drop_last() =~= c@.subrange(i as int, (j - 1) as int));
                    }
                }
                assert(before + (seq![piece@] + lines_from(c@, j + 1)) =~= before.push(piece@)
                    + lines_from(c@, j + 1));
            } else {
                assert(before + seq![piece@] =~= before.push(piece@) + lines_from(c@, j as int));
            }
        }
        if j < c.len() {
            i = j + 1;
        } else {
            i = j;
        }
    }
    proof {
        assert(crate::text::views(r@) + Seq::<Seq<char>>::empty() =~= crate::text::views(r@));
    }
    r
}

// ---------------------------------------------------------------------------
// Framing

/// The message a line carries: the trimmed text after the first prefix of the
/// ANSI-stripped line, when there is a prefix and the text is not empty.
pub open spec fn message_text(line: Seq<char>, prefix: Seq<char>) -> Option<Seq<char>> {
    let l = ansi_stripped(line);
    match first_occurrence(l, prefix) {
        None => None,
        Some(idx) => {
            let m = trim(l.subrange(idx + prefix.len(), l.len() as int));
            if m.len() == 0 {
                None
            } else {
                Some(m)
            }
        },
    }
}

/// The message text of a line, if it carries one.
pub fn line_message(line: &str, prefix: &str) -> (r: Option<String>)
    ensures
        match message_text(line@, prefix@) {
            Some(m) => r matches Some(x) && x@ == m,
            None => r is None,
        },
{
    let stripped = strip_ansi(line);
    let l = chars_of(stripped.as_str());
    let p = chars_of(prefix);
    let found = chars_find(&l, &p);
    if found.is_none() {
        return None;
    }
    let start = found.unwrap();
    proof {
        crate::text::lemma_find_from(l@, p@, 0);
    }
    assert(occurs_at(l@, p@, start as int));
    assert(start + p@.len() <= l@.len());
    assert(first_occurrence(l@, p@) == Some(start as int));
    let plen = p.len();
    let llen = l.len();
    assert(start + plen <= llen);
    let from = start + plen;
    let mut rest: Vec<char> = Vec::new();
    let mut k: usize = from;
    while k < l.len()
        invariant
            from <= k <= l@.len(),
            rest@ == l@.subrange(from as int, k as int),
        decreases l@.len() - k,
    {
        rest.push(l[k]);
        k = k + 1;
    }
    let m = chars_trim(&rest);
    assert(l@ == ansi_stripped(line@));
    assert(rest@ == l@.subrange(start + p@.len(), l@.len() as int));
    if m.len() == 0 {
        None
    } else {
        Some(string_of(&m))
    }
}

// ---------------------------------------------------------------------------
// Message documents

/// The shape of a well-formed message.
pub enum MessageShape {
    Event(Seq<char>, Map<Seq<char>, Seq<char>>),
    Result(Map<Seq<char>, Seq<char>>),
}

/// Every value of the object is a string.
pub open spec fn all_string_values(entries: Seq<(String, JsonValue)>) -> bool {
    forall|i: int| 0 <= i < entries.len() ==> #[trigger] entries[i].1 is Str
}

/// The string entries as a map (later entries win).
pub open spec fn string_map(entries: Seq<(String, JsonValue)>) -> Map<Seq<char>, Seq<char>>
    decreases entries.len(),
{
    if entries.len() == 0 {
        Map::empty()
    } else {
        let last = entries.last();
        let v = match last.1 {
            JsonValue::Str(s) => s@,
            _ => Seq::empty(),
        };
        string_map(entries.drop_last()).insert(last.0@, v)
    }
}

/// The `fields` member: absent means no fields; otherwise it must be an
/// object of strings.
pub open spec fn fields_member(entries: Seq<(String, JsonValue)>) -> Option<Map<Seq<char>, Seq<char>>> {
    match object_get(entries, "fields"@) {
        None => Some(Map::empty()),
        Some(JsonValue::Object(fs)) => if all_string_values(fs@) {
            Some(string_map(fs@))
        } else {
            None
        },
        Some(_) => None,
    }
}

/// What a message document says, or why it is not a message.
pub open spec fn message_shape(doc: JsonValue) -> Result<MessageShape, Seq<char>> {
    match doc {
        JsonValue::Object(entries) => match object_get(entries@, "type"@) {
            None => Err("missing field `type`"@),
            Some(JsonValue::Str(t)) => if t@ == "event"@ {
                match object_get(entries@, "name"@) {
                    None => Err("missing field `name`"@),
                    Some(JsonValue::Str(n)) => match fields_member(entries@) {
                        Some(m) => Ok(MessageShape::Event(n@, m)),
                        None => Err("invalid type: `fields` must map names to strings"@),
                    },
                    Some(_) => Err("invalid type: `name` must be a string"@),
                }
            } else if t@ == "result"@ {
                match fields_member(entries@) {
                    Some(m) => Ok(MessageShape::Result(m)),
                    None => Err("invalid type: `fields` must map names to strings"@),
                }
            } else {
                Err("unknown variant, expected `event` or `result`"@)
            },
            Some(_) => Err("unknown variant, expected `event` or `result`"@),
        },
        _ => Err("invalid type: expected a message object"@),
    }
}

/// The items of a message: one event, or one result item per field in
/// increasing field-name order.
pub open spec fn shape_items(shape: MessageShape) -> Seq<ParsedView> {
    match shape {
        MessageShape::Event(n, m) => seq![ParsedView::Event(n, m)],
        MessageShape::Result(m) => sorted_pairs(m).map_values(
            |p: (Seq<char>, Seq<char>)| ParsedView::Result(p.0, p.1),
        ),
    }
}

/// The items of a message text, or the error text.
pub open spec fn message_items_of(text: Seq<char>) -> Result<Seq<ParsedView>, Seq<char>> {
    match json_parsed(text) {
        Err(e) => Err("parse failed: "@ + e),
        Ok(doc) => match message_shape(doc) {
            Err(e) => Err("parse failed: "@ + e),
            Ok(shape) => Ok(shape_items(shape)),
        },
    }
}

/// The string fields of an object, or `None` when a value is not a string.
fn string_fields(fs: &Vec<(String, JsonValue)>) -> (r: Option<FieldMap>)
    ensures
        all_string_values(fs@) ==> (r matches Some(m) && m@ == string_map(fs@)),
        !all_string_values(fs@) ==> r is None,
{
    let mut m = FieldMap::new();
    let mut i: usize = 0;
    while i < fs.len()
        invariant
            i <= fs@.len(),
            forall|j: int| 0 <= j < i ==> #[trigger] fs@[j].1 is Str,
            m@ == string_map(fs@.take(i as int)),
        decreases fs@.len() - i,
    {
        match &fs[i].1 {
            JsonValue::Str(s) => {
                m.insert(fs[i].0.clone(), s.clone());
                proof {
                    assert(fs@.take(i + 1).drop_last() =~= fs@.take(i as int));
                }
            },
            _ => {
                return None;
            },
        }
        i = i + 1;
    }
    proof {
        assert(fs@.take(fs@.len() as int) =~= fs@);
    }
    Some(m)
}

/// The `fields` member of a message object.
fn message_fields(entries: &Vec<(String, JsonValue)>) -> (r: Option<FieldMap>)
    ensures
        match fields_member(entries@) {
            Some(m) => r matches Some(x) && x@ == m,
            None => r is None,
        },
{
    match object_lookup(entries, "fields") {
        None => Some(FieldMap::new()),
        Some(JsonValue::Object(fs)) => string_fields(fs),
        Some(_) => None,
    }
}

/// Result items, one per field, in increasing field-name order.
fn result_items(fields: &FieldMap) -> (r: Vec<ParsedItem>)
    ensures
        item_views(r@) == sorted_pairs(fields@).map_values(
            |p: (Seq<char>, Seq<char>)| ParsedView::Result(p.0, p.1),
        ),
{
    let pairs = fields.entries();
    let ghost sp = crate::fields::pair_views(pairs@);
    let mut r: Vec<ParsedItem> = Vec::new();
    let mut i: usize = 0;
    while i < pairs.len()
        invariant
            i <= pairs@.len(),
            sp == crate::fields::pair_views(pairs@),
            item_views(r@) == sp.take(i as int).map_values(
                |p: (Seq<char>, Seq<char>)| ParsedView::Result(p.0, p.1),
            ),
        decreases pairs@.len() - i,
    {
        let ghost before = item_views(r@);
        let ghost old_r = r@;
        let item = ParsedItem::Result { name: pairs[i].0.clone(), value: pairs[i].1.clone() };
        assert(item@ == ParsedView::Result(sp[i as int].0, sp[i as int].1));
        r.push(item);
        proof {
            assert(item_views(r@) =~= before.push(ParsedView::Result(sp[i as int].0, sp[i as int].1)));
            assert(sp.take(i + 1) =~= sp.take(i as int).push(sp[i as int]));
            assert(item_views(r@) =~= sp.take(i + 1).map_values(
                |p: (Seq<char>, Seq<char>)| ParsedView::Result(p.0, p.1),
            ));
        }
        i = i + 1;
    }
    proof {
        assert(sp.take(pairs@.len() as int) =~= sp);
    }
    r
}

/// The items a message document describes, or why it is not a message.
pub fn message_items(doc: &JsonValue) -> (r: Result<Vec<ParsedItem>, String>)
    ensures
        match message_shape(*doc) {
            Ok(shape) => r matches Ok(v) && item_views(v@) == shape_items(shape),
            Err(e) => r matches Err(x) && x@ == e,
        },
{
    let entries = match doc {
        JsonValue::Object(entries) => entries,
        _ => {
            return Err("invalid type: expected a message object".to_owned());
        },
    };
    let unknown = "unknown variant, expected `event` or `result`";
    let bad_fields = "invalid type: `fields` must map names to strings";
    match object_lookup(entries, "type") {
        None => Err("missing field `type`".to_owned()),
        Some(JsonValue::Str(t)) => {
            if crate::text::str_eq(t.as_str(), "event") {
                match object_lookup(entries, "name") {
                    None => Err("missing field `name`".to_owned()),
                    Some(JsonValue::Str(n)) => match message_fields(entries) {
                        Some(m) => {
                            let item = ParsedItem::Event { name: n.clone(), fields: m };
                            let v = vec![item];
                            proof {
                                assert(item_views(v@) =~= shape_items(message_shape(*doc)->Ok_0));
                            }
                            Ok(v)
                        },
                        None => Err(bad_fields.to_owned()),
                    },
                    Some(_) => Err("invalid type: `name` must be a string".to_owned()),
                }
            } else if crate::text::str_eq(t.as_str(), "result") {
                match message_fields(entries) {
                    Some(m) => Ok(result_items(&m)),
                    None => Err(bad_fields.to_owned()),
                }
            } else {
                Err(unknown.to_owned())
            }
        },
        Some(_) => Err(unknown.to_owned()),
    }
}

/// Parse one message text into its items.
pub fn parse_message(input: &str) -> (r: Result<Vec<ParsedItem>, String>)
    ensures
        match message_items_of(input@) {
            Ok(items) => r matches Ok(v) && item_views(v@) == items,
            Err(e) => r matches Err(x) && x@ == e,
        },
{
    let doc = match parse_json(input) {
        Ok(d) => d,
        Err(e) => {
            return Err(crate::text::concat_str("parse failed: ", e.as_str()));
        },
    };
    match message_items(&doc) {
        Ok(v) => Ok(v),
        Err(e) => Err(crate::text::concat_str("parse failed: ", e.as_str())),
    }
}

// ---------------------------------------------------------------------------
// Lines and whole outputs

/// The items of one output line: none when it carries no message.
pub open spec fn line_items(line: Seq<char>, prefix: Seq<char>) -> Result<Seq<ParsedView>, Seq<char>> {
    match message_text(line, prefix) {
        None => Ok(Seq::empty()),
        Some(m) => message_items_of(m),
    }
}

/// The items of the first `n` lines, in order; the first error wins.
pub open spec fn lines_items(lines: Seq<Seq<char>>, prefix: Seq<char>, n: int) -> Result<
    Seq<ParsedView>,
    Seq<char>,
>
    decreases n,
{
    if n <= 0 {
        Ok(Seq::empty())
    } else {
        match lines_items(lines, prefix, n - 1) {
            Err(e) => Err(e),
            Ok(acc) => match line_items(lines[n - 1], prefix) {
                Err(e) => Err(e),
                Ok(v) => Ok(acc + v),
            },
        }
    }
}

/// Once the fold has failed, it stays failed with the same error.
proof fn lemma_lines_items_err(lines: Seq<Seq<char>>, prefix: Seq<char>, k: int, n: int)
    requires
        0 <= k <= n,
        lines_items(lines, prefix, k) is Err,
    ensures
        lines_items(lines, prefix, n) == lines_items(lines, prefix, k),
    decreases n - k,
{
    if k < n {
        lemma_lines_items_err(lines, prefix, k + 1, n);
    }
}

/// The non-empty item lists of the first `n` lines, one per line; the first
/// error wins.
pub open spec fn grouped_items(lines: Seq<Seq<char>>, prefix: Seq<char>, n: int) -> Result<
    Seq<Seq<ParsedView>>,
    Seq<char>,
>
    decreases n,
{
    if n <= 0 {
        Ok(Seq::empty())
    } else {
        match grouped_items(lines, prefix, n - 1) {
            Err(e) => Err(e),
            Ok(acc) => match line_items(lines[n - 1], prefix) {
                Err(e) => Err(e),
                Ok(v) => if v.len() == 0 {
                    Ok(acc)
                } else {
                    Ok(acc.push(v))
                },
            },
        }
    }
}

proof fn lemma_grouped_items_err(lines: Seq<Seq<char>>, prefix: Seq<char>, k: int, n: int)
    requires
        0 <= k <= n,
        grouped_items(lines, prefix, k) is Err,
    ensures
        grouped_items(lines, prefix, n) == grouped_items(lines, prefix, k),
    decreases n - k,
{
    if k < n {
        lemma_grouped_items_err(lines, prefix, k + 1, n);
    }
}

/// A line whose ANSI-stripped text has no prefix carries no items.
pub proof fn lemma_plain_line_has_no_items(line: Seq<char>, prefix: Seq<char>)
    requires
        !has_infix(ansi_stripped(line), prefix),
    ensures
        line_items(line, prefix) == Ok::<Seq<ParsedView>, Seq<char>>(Seq::empty()),
{
    let l = ansi_stripped(line);
    lemma_find_from(l, prefix, 0);
    if let Some(k) = first_occurrence(l, prefix) {
        assert(occurs_at(l, prefix, k));
    }
}

/// The items of the first `n` lines depend on those lines only.
proof fn lemma_lines_items_prefix(a: Seq<Seq<char>>, b: Seq<Seq<char>>, prefix: Seq<char>, n: int)
    requires
        n <= a.len(),
        n <= b.len(),
        forall|j: int| 0 <= j < n ==> a[j] == b[j],
    ensures
        lines_items(a, prefix, n) == lines_items(b, prefix, n),
    decreases n,
{
    if n > 0 {
        lemma_lines_items_prefix(a, b, prefix, n - 1);
    }
}

/// The lines up to `n` of `ls` with the plain line `plain` inserted at `i`
/// give what the lines of `ls` up to `n - 1` give.
proof fn lemma_lines_items_insert_plain(
    ls: Seq<Seq<char>>,
    plain: Seq<char>,
    prefix: Seq<char>,
    i: int,
    n: int,
)
    requires
        0 <= i <= ls.len(),
        i < n <= ls.len() + 1,
        line_items(plain, prefix) == Ok::<Seq<ParsedView>, Seq<char>>(Seq::empty()),
    ensures
        lines_items(ls.insert(i, plain), prefix, n) == lines_items(ls, prefix, n - 1),
    decreases n,
{
    let ls2 = ls.insert(i, plain);
    if n == i + 1 {
        lemma_lines_items_prefix(ls2, ls, prefix, i);
        assert(ls2[i] == plain);
        match lines_items(ls, prefix, i) {
            Err(_) => {},
            Ok(acc) => {
                assert(acc + Seq::<ParsedView>::empty() =~= acc);
            },
        }
    } else {
        lemma_lines_items_insert_plain(ls, plain, prefix, i, n - 1);
        assert(ls2[n - 1] == ls[n - 2]);
    }
}

/// Output lines without the prefix are ignored: inserting such a line
/// anywhere in an output leaves the parsed items, or the error, unchanged.
pub proof fn lemma_plain_lines_ignored(
    ls: Seq<Seq<char>>,
    plain: Seq<char>,
    prefix: Seq<char>,
    i: int,
)
    requires
        0 <= i <= ls.len(),
        !has_infix(ansi_stripped(plain), prefix),
    ensures
        lines_items(ls.insert(i, plain), prefix, ls.len() + 1int) == lines_items(
            ls,
            prefix,
            ls.len() as int,
        ),
{
    lemma_plain_line_has_no_items(plain, prefix);
    lemma_lines_items_insert_plain(ls, plain, prefix, i, ls.len() + 1int);
}

/// The items a line gives when it parses (none when it does not).
pub open spec fn line_ok(line: Seq<char>, prefix: Seq<char>) -> Seq<ParsedView> {
    match line_items(line, prefix) {
        Ok(v) => v,
        Err(_) => Seq::empty(),
    }
}

/// The lists of `gs` that are not empty, in order.
pub open spec fn non_empty_lists(gs: Seq<Seq<ParsedView>>) -> Seq<Seq<ParsedView>>
    decreases gs.len(),
{
    if gs.len() == 0 {
        gs
    } else if gs.last().len() > 0 {
        non_empty_lists(gs.drop_last()).push(gs.last())
    } else {
        non_empty_lists(gs.drop_last())
    }
}

/// Some line among the first `n` fails to parse.
pub open spec fn some_line_fails(lines: Seq<Seq<char>>, prefix: Seq<char>, n: int) -> bool {
    exists|j: int| 0 <= j < n && #[trigger] line_items(lines[j], prefix) is Err
}

/// The items of each of the first `n` lines.
pub open spec fn each_line_items(lines: Seq<Seq<char>>, prefix: Seq<char>, n: int) -> Seq<
    Seq<ParsedView>,
> {
    lines.take(n).map_values(|l: Seq<char>| line_ok(l, prefix))
}

proof fn lemma_lines_items_shape(lines: Seq<Seq<char>>, prefix: Seq<char>, n: int)
    requires
        0 <= n <= lines.len(),
    ensures
        lines_items(lines, prefix, n) is Err <==> some_line_fails(lines, prefix, n),
        !some_line_fails(lines, prefix, n) ==> lines_items(lines, prefix, n) == Ok::<
            Seq<ParsedView>,
            Seq<char>,
        >(each_line_items(lines, prefix, n).flatten_alt()),
        grouped_items(lines, prefix, n) is Err <==> some_line_fails(lines, prefix, n),
        !some_line_fails(lines, prefix, n) ==> grouped_items(lines, prefix, n) == Ok::<
            Seq<Seq<ParsedView>>,
            Seq<char>,
        >(non_empty_lists(each_line_items(lines, prefix, n))),
        forall|j: int|
            0 <= j < n && #[trigger] line_items(lines[j], prefix) is Err && !some_line_fails(
                lines,
                prefix,
                j,
            ) ==> lines_items(lines, prefix, n) == line_items(lines[j], prefix) && match grouped_items(
                lines,
                prefix,
                n,
            ) {
                Err(e) => line_items(lines[j], prefix) == Err::<Seq<ParsedView>, Seq<char>>(e),
                Ok(_) => false,
            },
    decreases n,
{
    if n > 0 {
        lemma_lines_items_shape(lines, prefix, n - 1);
        let s = each_line_items(lines, prefix, n);
        assert(s.drop_last() =~= each_line_items(lines, prefix, n - 1));
        assert(s.last() == line_ok(lines[n - 1], prefix));
        if some_line_fails(lines, prefix, n) && !some_line_fails(lines, prefix, n - 1) {
            let j = choose|j: int| 0 <= j < n && #[trigger] line_items(lines[j], prefix) is Err;
            assert(j == n - 1);
        }
        if some_line_fails(lines, prefix, n - 1) {
            let j = choose|j: int| 0 <= j < n - 1 && #[trigger] line_items(lines[j], prefix) is Err;
            assert(some_line_fails(lines, prefix, n));
        }
        if line_items(lines[n - 1], prefix) is Err {
            assert(some_line_fails(lines, prefix, n));
        }
        assert forall|j: int|
            0 <= j < n && #[trigger] line_items(lines[j], prefix) is Err && !some_line_fails(
                lines,
                prefix,
                j,
            ) implies lines_items(lines, prefix, n) == line_items(lines[j], prefix) && match grouped_items(
                lines,
                prefix,
                n,
            ) {
                Err(e) => line_items(lines[j], prefix) == Err::<Seq<ParsedView>, Seq<char>>(e),
                Ok(_) => false,
            } by {
            if j < n - 1 {
                assert(some_line_fails(lines, prefix, n - 1));
            } else {
                assert forall|k: int| 0 <= k < n - 1 implies !(#[trigger] line_items(lines[k], prefix) is Err) by {
                    if line_items(lines[k], prefix) is Err {
                        assert(some_line_fails(lines, prefix, j));
                    }
                }
                assert(!some_line_fails(lines, prefix, n - 1));
            }
        }
    } else {
        assert(each_line_items(lines, prefix, 0) =~= Seq::<Seq<ParsedView>>::empty());
    }
}

/// The items of an output's lines: the whole fails exactly when some line
/// fails, with the error of the first line that fails; otherwise the items
/// are those of every line, concatenated in line order.
pub proof fn lemma_output_items(lines: Seq<Seq<char>>, prefix: Seq<char>)
    ensures
        lines_items(lines, prefix, lines.len() as int) is Err <==> exists|j: int|
            0 <= j < lines.len() && #[trigger] line_items(lines[j], prefix) is Err,
        forall|j: int|
            0 <= j < lines.len() && #[trigger] line_items(lines[j], prefix) is Err && (forall|k: int|
                0 <= k < j ==> line_items(lines[k], prefix) is Ok) ==> lines_items(
                lines,
                prefix,
                lines.len() as int,
            ) == line_items(lines[j], prefix),
        (forall|j: int| 0 <= j < lines.len() ==> #[trigger] line_items(lines[j], prefix) is Ok)
            ==> lines_items(lines, prefix, lines.len() as int) == Ok::<Seq<ParsedView>, Seq<char>>(
            lines.map_values(|l: Seq<char>| line_ok(l, prefix)).flatten(),
        ),
{
    let n = lines.len() as int;
    lemma_lines_items_shape(lines, prefix, n);
    assert(lines.take(n) =~= lines);
    assert(each_line_items(lines, prefix, n) =~= lines.map_values(|l: Seq<char>| line_ok(l, prefix)));
    lines.map_values(|l: Seq<char>| line_ok(l, prefix)).lemma_flatten_and_flatten_alt_are_equivalent();
    assert forall|j: int|
        0 <= j < lines.len() && #[trigger] line_items(lines[j], prefix) is Err && (forall|k: int|
            0 <= k < j ==> line_items(lines[k], prefix) is Ok) implies lines_items(
            lines,
            prefix,
            lines.len() as int,
        ) == line_items(lines[j], prefix) by {
        if some_line_fails(lines, prefix, j) {
            let k = choose|k: int| 0 <= k < j && #[trigger] line_items(lines[k], prefix) is Err;
        }
    }
}

/// The message lines of an output, one item list per line that carries
/// items: the whole fails exactly when some line fails, with the error of the
/// first line that fails; otherwise the lists are those of the lines, in line
/// order, without the empty ones.
pub proof fn lemma_output_groups(lines: Seq<Seq<char>>, prefix: Seq<char>)
    ensures
        grouped_items(lines, prefix, lines.len() as int) is Err <==> exists|j: int|
            0 <= j < lines.len() && #[trigger] line_items(lines[j], prefix) is Err,
        forall|j: int|
            0 <= j < lines.len() && #[trigger] line_items(lines[j], prefix) is Err && (forall|k: int|
                0 <= k < j ==> line_items(lines[k], prefix) is Ok) ==> match grouped_items(
                lines,
                prefix,
                lines.len() as int,
            ) {
                Err(e) => line_items(lines[j], prefix) == Err::<Seq<ParsedView>, Seq<char>>(e),
                Ok(_) => false,
            },
        (forall|j: int| 0 <= j < lines.len() ==> #[trigger] line_items(lines[j], prefix) is Ok)
            ==> grouped_items(lines, prefix, lines.len() as int) == Ok::<
            Seq<Seq<ParsedView>>,
            Seq<char>,
        >(
            non_empty_lists(lines.map_values(|l: Seq<char>| line_ok(l, prefix))),
        ),
{
    let n = lines.len() as int;
    lemma_lines_items_shape(lines, prefix, n);
    assert(lines.take(n) =~= lines);
    assert(each_line_items(lines, prefix, n) =~= lines.map_values(|l: Seq<char>| line_ok(l, prefix)));
    assert forall|j: int|
        0 <= j < lines.len() && #[trigger] line_items(lines[j], prefix) is Err && (forall|k: int|
            0 <= k < j ==> line_items(lines[k], prefix) is Ok) implies match grouped_items(
            lines,
            prefix,
            lines.len() as int,
        ) {
            Err(e) => line_items(lines[j], prefix) == Err::<Seq<ParsedView>, Seq<char>>(e),
            Ok(_) => false,
        } by {
        if some_line_fails(lines, prefix, j) {
            let k = choose|k: int| 0 <= k < j && #[trigger] line_items(lines[k], prefix) is Err;
        }
    }
}

/// Parse a single output line into its items. A line without a prefixed
/// message (plain log output, or a prefix with nothing after it) gives no
/// items. A trailing `\r` and a prefix glued mid-line after a progress-bar
/// fragment are tolerated.
pub fn parse_line(line: &str, prefix: &str) -> (r: Result<Vec<ParsedItem>, String>)
    ensures
        match line_items(line@, prefix@) {
            Ok(items) => r matches Ok(v) && item_views(v@) == items,
            Err(e) => r matches Err(x) && x@ == e,
        },
{
    match line_message(line, prefix) {
        None => {
            let v: Vec<ParsedItem> = Vec::new();
            proof {
                assert(item_views(v@) =~= Seq::<ParsedView>::empty());
            }
            Ok(v)
        },
        Some(m) => parse_message(m.as_str()),
    }
}

/// Parse every line of `output` and return the items of the lines that
/// carry a prefixed message, in order. The first malformed message fails the
/// whole output.
pub fn parse_output(output: &str, prefix: &str) -> (r: Result<Vec<ParsedItem>, String>)
    ensures
        match lines_items(text_lines(output@), prefix@, text_lines(output@).len() as int) {
            Ok(items) => r matches Ok(v) && item_views(v@) == items,
            Err(e) => r matches Err(x) && x@ == e,
        },
        r is Err <==> exists|j: int|
            0 <= j < text_lines(output@).len() && #[trigger] line_items(text_lines(output@)[j], prefix@) is Err,
        forall|j: int|
            0 <= j < text_lines(output@).len() && #[trigger] line_items(text_lines(output@)[j], prefix@) is Err
                && (forall|k: int| 0 <= k < j ==> line_items(text_lines(output@)[k], prefix@) is Ok)
                ==> (r matches Err(x) && line_items(text_lines(output@)[j], prefix@) == Err::<
                Seq<ParsedView>,
                Seq<char>,
            >(x@)),
        r matches Ok(v) ==> item_views(v@) == text_lines(output@).map_values(
            |l: Seq<char>| line_ok(l, prefix@),
        ).flatten(),
{
    proof {
        lemma_output_items(text_lines(output@), prefix@);
    }
    let lines = split_lines(output);
    let ghost ls = crate::text::views(lines@);
    let mut items: Vec<ParsedItem> = Vec::new();
    assert(item_views(items@) =~= Seq::<ParsedView>::empty());
    let mut i: usize = 0;
    while i < lines.len()
        invariant
            i <= lines@.len(),
            ls == crate::text::views(lines@),
            ls == text_lines(output@),
            lines_items(ls, prefix@, i as int) == Ok::<Seq<ParsedView>, Seq<char>>(item_views(items@)),
        decreases lines@.len() - i,
    {
        match parse_line(lines[i].as_str(), prefix) {
            Err(e) => {
                proof {
                    lemma_lines_items_err(ls, prefix@, i + 1, ls.len() as int);
                    lemma_output_items(ls, prefix@);
                }
                return Err(e);
            },
            Ok(v) => {
                let ghost before = item_views(items@);
                let mut k: usize = 0;
                while k < v.len()
                    invariant
                        k <= v@.len(),
                        item_views(items@) == before + item_views(v@).take(k as int),
                    decreases v@.len() - k,
                {
                    let it = v[k].clone_item();
                    let ghost prev = items@;
                    items.push(it);
                    proof {
                        assert(items@ == prev.push(it));
                        assert(item_views(items@) =~= item_views(prev).push(it@));
                        assert(item_views(v@).take(k + 1) =~= item_views(v@).take(k as int).push(
                            v@[k as int]@,
                        ));
                        assert(item_views(items@) =~= before + item_views(v@).take(k + 1));
                    }
                    k = k + 1;
                }
                proof {
                    assert(item_views(v@).take(v@.len() as int) =~= item_views(v@));
                }
            },
        }
        i = i + 1;
    }
    Ok(items)
}

/// Parse each line that carries a message into its own list of items; lines
/// whose message has no items are skipped. The first malformed message fails
/// the whole output.
pub fn parse_prefix_lines(output: &str, prefix: &str) -> (r: Result<Vec<Vec<ParsedItem>>, String>)
    ensures
        match grouped_items(text_lines(output@), prefix@, text_lines(output@).len() as int) {
            Ok(groups) => r matches Ok(v) && v@.map_values(|g: Vec<ParsedItem>| item_views(g@))
                == groups,
            Err(e) => r matches Err(x) && x@ == e,
        },
        r is Err <==> exists|j: int|
            0 <= j < text_lines(output@).len() && #[trigger] line_items(text_lines(output@)[j], prefix@) is Err,
        forall|j: int|
            0 <= j < text_lines(output@).len() && #[trigger] line_items(text_lines(output@)[j], prefix@) is Err
                && (forall|k: int| 0 <= k < j ==> line_items(text_lines(output@)[k], prefix@) is Ok)
                ==> (r matches Err(x) && line_items(text_lines(output@)[j], prefix@) == Err::<
                Seq<ParsedView>,
                Seq<char>,
            >(x@)),
        r matches Ok(v) ==> v@.map_values(|g: Vec<ParsedItem>| item_views(g@)) == non_empty_lists(
            text_lines(output@).map_values(|l: Seq<char>| line_ok(l, prefix@)),
        ),
{
    proof {
        lemma_output_groups(text_lines(output@), prefix@);
    }
    let lines = split_lines(output);
    let ghost ls = crate::text::views(lines@);
    let mut groups: Vec<Vec<ParsedItem>> = Vec::new();
    assert(groups@.map_values(|g: Vec<ParsedItem>| item_views(g@)) =~= Seq::<Seq<ParsedView>>::empty());
    let mut i: usize = 0;
    while i < lines.len()
        invariant
            i <= lines@.len(),
            ls == crate::text::views(lines@),
            ls == text_lines(output@),
            grouped_items(ls, prefix@, i as int) == Ok::<Seq<Seq<ParsedView>>, Seq<char>>(
                groups@.map_values(|g: Vec<ParsedItem>| item_views(g@)),
            ),
        decreases lines@.len() - i,
    {
        match parse_line(lines[i].as_str(), prefix) {
            Err(e) => {
                proof {
                    lemma_grouped_items_err(ls, prefix@, i + 1, ls.len() as int);
                    lemma_output_groups(ls, prefix@);
                }
                return Err(e);
            },
            Ok(v) => {
                if v.len() > 0 {
                    let ghost before = groups@.map_values(|g: Vec<ParsedItem>| item_views(g@));
                    let ghost vv = item_views(v@);
                    groups.push(v);
                    proof {
                        assert(groups@.map_values(|g: Vec<ParsedItem>| item_views(g@)) =~= before.push(
                            vv,
                        ));
                    }
                }
            },
        }
        i = i + 1;
    }
    Ok(groups)
}

impl ParsedItem {
    /// A copy of this item.
    pub fn clone_item(&self) -> (r: Self)
        ensures
            r@ == self@,
    {
        match self {
            ParsedItem::Event { name, fields } => ParsedItem::Event {
                name: name.clone(),
                fields: fields.clone(),
            },
            ParsedItem::Result { name, value } => ParsedItem::Result {
                name: name.clone(),
                value: value.clone(),
            },
        }
    }
}

} // verus!
