//! What a finished trial command reported: its captured output, and the
//! payload the tuner reads from the protocol messages in it.

use vstd::prelude::*;

use super::ipc::{item_views, text_lines, ParsedItem, ParsedView};
use super::talkback::{message_groups, parse_prefix_lines};
use crate::constants::{event_kind_of, EventKind};
use crate::fields::{entries_map, pair_views, sorted_pairs, FieldMap};
use crate::text::{chars_of, concat_str, has_prefix, parse_bool, parse_bool_spec, str_starts_with};

verus! {

/// The captured result of running a trial command.
#[derive(Debug)]
pub struct CommandOutput {
    pub stdout: String,
    pub _stderr: String,
    pub exit_code: i32,
}

/// The fields a trial reported, and one field set per epoch it finished.
#[derive(Debug)]
pub struct CommandResultPayload {
    pub data: FieldMap,
    pub epoch_results: Vec<FieldMap>,
}

/// The maps of a list of field maps.
pub open spec fn map_views(v: Seq<FieldMap>) -> Seq<Map<Seq<char>, Seq<char>>> {
    v.map_values(|m: FieldMap| m@)
}

/// `data` with `name.key -> value` for each of the pairs, in order.
pub open spec fn with_event_fields(
    data: Map<Seq<char>, Seq<char>>,
    name: Seq<char>,
    ps: Seq<(Seq<char>, Seq<char>)>,
) -> Map<Seq<char>, Seq<char>>
    decreases ps.len(),
{
    if ps.len() == 0 {
        data
    } else {
        with_event_fields(data, name, ps.drop_last()).insert(name + "."@ + ps.last().0, ps.last().1)
    }
}

/// The payload data after one item: an event sets `name -> "true"` and
/// `name.field -> value` for each of its fields; an invalid-config event also
/// records its `error` field under `error` unless `error` is already set.
pub open spec fn apply_item(data: Map<Seq<char>, Seq<char>>, it: ParsedView) -> Map<
    Seq<char>,
    Seq<char>,
> {
    match it {
        ParsedView::Event(name, fields) => {
            let d = with_event_fields(data.insert(name, "true"@), name, sorted_pairs(fields));
            if event_kind_of(name) == Some(EventKind::InvalidConfig) && fields.contains_key(
                "error"@,
            ) && !d.contains_key("error"@) {
                d.insert("error"@, fields["error"@])
            } else {
                d
            }
        },
        ParsedView::Result(_, _) => data,
    }
}

/// The data after the first `n` items of a group.
pub open spec fn items_data(data: Map<Seq<char>, Seq<char>>, g: Seq<ParsedView>, n: int) -> Map<
    Seq<char>,
    Seq<char>,
>
    decreases n,
{
    if n <= 0 {
        data
    } else {
        apply_item(items_data(data, g, n - 1), g[n - 1])
    }
}

/// The data after the first `n` groups.
pub open spec fn groups_data(gs: Seq<Seq<ParsedView>>, n: int) -> Map<Seq<char>, Seq<char>>
    decreases n,
{
    if n <= 0 {
        Map::empty()
    } else {
        items_data(groups_data(gs, n - 1), gs[n - 1], gs[n - 1].len() as int)
    }
}

/// The epoch entry of a group: the fields of its last epoch-end event among
/// the first `n` items, plus `name -> "true"`.
pub open spec fn group_epoch(g: Seq<ParsedView>, n: int) -> Option<Map<Seq<char>, Seq<char>>>
    decreases n,
{
    if n <= 0 {
        None
    } else {
        match g[n - 1] {
            ParsedView::Event(name, fields) => if event_kind_of(name) == Some(EventKind::EpochEnd) {
                Some(fields.insert(name, "true"@))
            } else {
                group_epoch(g, n - 1)
            },
            ParsedView::Result(_, _) => group_epoch(g, n - 1),
        }
    }
}

/// The epoch entries of the first `n` groups, in order.
pub open spec fn groups_epochs(gs: Seq<Seq<ParsedView>>, n: int) -> Seq<Map<Seq<char>, Seq<char>>>
    decreases n,
{
    if n <= 0 {
        Seq::empty()
    } else {
        match group_epoch(gs[n - 1], gs[n - 1].len() as int) {
            Some(e) => groups_epochs(gs, n - 1).push(e),
            None => groups_epochs(gs, n - 1),
        }
    }
}

/// The result items among the first `n` of a group, as a map (later wins).
pub open spec fn result_fields(g: Seq<ParsedView>, n: int) -> Map<Seq<char>, Seq<char>>
    decreases n,
{
    if n <= 0 {
        Map::empty()
    } else {
        match g[n - 1] {
            ParsedView::Result(k, v) => result_fields(g, n - 1).insert(k, v),
            ParsedView::Event(_, _) => result_fields(g, n - 1),
        }
    }
}

/// The group has a result item.
pub open spec fn has_result(g: Seq<ParsedView>) -> bool {
    exists|i: int| 0 <= i < g.len() && g[i] is Result
}

/// The result fields of the last of the first `n` groups that has any.
pub open spec fn last_result(gs: Seq<Seq<ParsedView>>, n: int) -> Option<Map<Seq<char>, Seq<char>>>
    decreases n,
{
    if n <= 0 {
        None
    } else if has_result(gs[n - 1]) {
        Some(result_fields(gs[n - 1], gs[n - 1].len() as int))
    } else {
        last_result(gs, n - 1)
    }
}

/// The payload data of a list of message groups: event data, then the last
/// epoch entry (or, without one, the last result line's fields) on top.
pub open spec fn payload_data(gs: Seq<Seq<ParsedView>>) -> Map<Seq<char>, Seq<char>> {
    let d = groups_data(gs, gs.len() as int);
    let epochs = groups_epochs(gs, gs.len() as int);
    let last = if epochs.len() > 0 {
        Some(epochs.last())
    } else {
        last_result(gs, gs.len() as int)
    };
    match last {
        Some(f) => d.union_prefer_right(f),
        None => d,
    }
}

/// Apply one event item to the data.
fn apply_event(map: &mut FieldMap, name: &String, fields: &FieldMap)
    ensures
        final(map)@ == apply_item(old(map)@, ParsedView::Event(name@, fields@)),
{
    map.insert(name.clone(), "true".to_owned());
    let ps = fields.entries();
    let ghost base = map@;
    let ghost pv = pair_views(ps@);
    let mut i: usize = 0;
    while i < ps.len()
        invariant
            i <= ps@.len(),
            pv == pair_views(ps@),
            pv == sorted_pairs(fields@),
            map@ == with_event_fields(base, name@, pv.take(i as int)),
        decreases ps@.len() - i,
    {
        let dotted = concat_str(name.as_str(), ".");
        let key = concat_str(dotted.as_str(), ps[i].0.as_str());
        map.insert(key, ps[i].1.clone());
        proof {
            assert(pv.take(i + 1).drop_last() =~= pv.take(i as int));
        }
        i = i + 1;
    }
    proof {
        assert(pv.take(ps@.len() as int) =~= pv);
    }
    match EventKind::from_name(name.as_str()) {
        Some(EventKind::InvalidConfig) => {
            match fields.get("error") {
                Some(err) => {
                    map.insert_if_absent("error".to_owned(), err.clone());
                },
                None => {},
            }
        },
        _ => {},
    }
}

/// The result items of a group as a map.
fn result_map(items: &Vec<ParsedItem>) -> (r: FieldMap)
    ensures
        r@ == result_fields(item_views(items@), items@.len() as int),
{
    let ghost g = item_views(items@);
    let mut m = FieldMap::new();
    let mut i: usize = 0;
    while i < items.len()
        invariant
            i <= items@.len(),
            g == item_views(items@),
            m@ == result_fields(g, i as int),
        decreases items@.len() - i,
    {
        match &items[i] {
            ParsedItem::Result { name, value } => {
                m.insert(name.clone(), value.clone());
            },
            ParsedItem::Event { .. } => {},
        }
        i = i + 1;
    }
    m
}

/// Whether a group has a result item.
fn group_has_result(items: &Vec<ParsedItem>) -> (r: bool)
    ensures
        r == has_result(item_views(items@)),
{
    let ghost g = item_views(items@);
    let mut i: usize = 0;
    while i < items.len()
        invariant
            i <= items@.len(),
            g == item_views(items@),
            forall|j: int| 0 <= j < i ==> !(#[trigger] g[j] is Result),
        decreases items@.len() - i,
    {
        match &items[i] {
            ParsedItem::Result { .. } => {
                assert(g[i as int] is Result);
                return true;
            },
            ParsedItem::Event { .. } => {},
        }
        i = i + 1;
    }
    false
}

impl CommandOutput {
    /// The payload of the protocol messages in stdout. Events from every
    /// message line contribute (`name -> "true"`, `name.field -> value`, and
    /// one epoch entry per line with an epoch-end event); the final fields are
    /// the last epoch entry, or else the result items of the last line that
    /// has any.
    pub fn parse_payload(&self, prefix: &str) -> (r: Result<CommandResultPayload, String>)
        ensures
            match message_groups(
                text_lines(self.stdout@),
                prefix@,
                text_lines(self.stdout@).len() as int,
            ) {
                Err(e) => r matches Err(x) && x@ == "parse error: "@ + e,
                Ok(gs) => r matches Ok(p) && p.data@ == payload_data(gs) && map_views(
                    p.epoch_results@,
                ) == groups_epochs(gs, gs.len() as int),
            },
    {
        let groups = match parse_prefix_lines(self.stdout.as_str(), prefix) {
            Ok(g) => g,
            Err(e) => {
                return Err(concat_str("parse error: ", e.as_str()));
            },
        };
        let ghost gs = groups@.map_values(|g: Vec<ParsedItem>| item_views(g@));
        let mut map = FieldMap::new();
        let mut epoch_results: Vec<FieldMap> = Vec::new();
        let mut gi: usize = 0;
        while gi < groups.len()
            invariant
                gi <= groups@.len(),
                gs == groups@.map_values(|g: Vec<ParsedItem>| item_views(g@)),
                map@ == groups_data(gs, gi as int),
                map_views(epoch_results@) == groups_epochs(gs, gi as int),
            decreases groups@.len() - gi,
        {
            let items = &groups[gi];
            let ghost g = item_views(items@);
            assert(g == gs[gi as int]);
            let ghost d0 = map@;
            let mut epoch: Option<FieldMap> = None;
            let mut ii: usize = 0;
            while ii < items.len()
                invariant
                    ii <= items@.len(),
                    g == item_views(items@),
                    map@ == items_data(d0, g, ii as int),
                    match epoch {
                        Some(e) => group_epoch(g, ii as int) == Some(e@),
                        None => group_epoch(g, ii as int) is None,
                    },
                decreases items@.len() - ii,
            {
                match &items[ii] {
                    ParsedItem::Event { name, fields } => {
                        apply_event(&mut map, name, fields);
                        match EventKind::from_name(name.as_str()) {
                            Some(EventKind::EpochEnd) => {
                                let mut e = fields.clone();
                                e.insert(name.clone(), "true".to_owned());
                                epoch = Some(e);
                            },
                            _ => {},
                        }
                    },
                    ParsedItem::Result { .. } => {},
                }
                ii = ii + 1;
            }
            match epoch {
                Some(e) => {
                    let ghost before = map_views(epoch_results@);
                    let ghost ev = e@;
                    epoch_results.push(e);
                    proof {
                        assert(map_views(epoch_results@) =~= before.push(ev));
                    }
                },
                None => {},
            }
            gi = gi + 1;
        }
        let ghost n = gs.len() as int;
        let mut last_result_fields: Option<FieldMap> = None;
        let mut j: usize = groups.len();
        while j > 0
            invariant_except_break
                last_result_fields is None,
                last_result(gs, n) == last_result(gs, j as int),
            invariant
                j <= groups@.len(),
                gs == groups@.map_values(|g: Vec<ParsedItem>| item_views(g@)),
            ensures
                match last_result(gs, n) {
                    Some(m) => last_result_fields matches Some(x) && x@ == m,
                    None => last_result_fields is None,
                },
            decreases j,
        {
            j = j - 1;
            assert(item_views(groups@[j as int]@) == gs[j as int]);
            if group_has_result(&groups[j]) {
                last_result_fields = Some(result_map(&groups[j]));
                break;
            }
        }
        let last_fields = if epoch_results.len() > 0 {
            let k = epoch_results.len() - 1;
            assert(map_views(epoch_results@).last() == epoch_results@[k as int]@);
            Some(epoch_results[k].clone())
        } else {
            last_result_fields
        };
        match last_fields {
            Some(f) => {
                map.extend_from(&f);
            },
            None => {},
        }
        Ok(CommandResultPayload { data: map, epoch_results })
    }
}

/// The payload key a data key is filed under: a key in the `tuner`, `model`
/// or `metric` namespace stays; any other key goes under `metric.`.
pub open spec fn payload_key(key: Seq<char>) -> Seq<char> {
    if has_prefix(key, "tuner."@) || has_prefix(key, "model."@) || has_prefix(key, "metric."@) {
        key
    } else {
        "metric."@ + key
    }
}

/// The payload fields of `ps`, in order (later entries win).
pub open spec fn payload_fields_of(ps: Seq<(Seq<char>, Seq<char>)>) -> Map<Seq<char>, Seq<char>>
    decreases ps.len(),
{
    if ps.len() == 0 {
        Map::empty()
    } else {
        payload_fields_of(ps.drop_last()).insert(payload_key(ps.last().0), ps.last().1)
    }
}

/// The payload key of one data key.
fn payload_key_of(key: &str) -> (r: String)
    ensures
        r@ == payload_key(key@),
{
    if str_starts_with(key, "tuner.") || str_starts_with(key, "model.") || str_starts_with(
        key,
        "metric.",
    ) {
        key.to_owned()
    } else {
        concat_str("metric.", key)
    }
}

/// Fields of the data namespaced for a trial record, taking the data in
/// increasing key order.
pub fn payload_fields_from(data: &FieldMap) -> (r: FieldMap)
    ensures
        r@ == payload_fields_of(sorted_pairs(data@)),
{
    let ps = data.entries();
    let ghost pv = pair_views(ps@);
    let mut out = FieldMap::new();
    let mut i: usize = 0;
    while i < ps.len()
        invariant
            i <= ps@.len(),
            pv == pair_views(ps@),
            out@ == payload_fields_of(pv.take(i as int)),
        decreases ps@.len() - i,
    {
        let k = payload_key_of(ps[i].0.as_str());
        out.insert(k, ps[i].1.clone());
        proof {
            assert(pv.take(i + 1).drop_last() =~= pv.take(i as int));
        }
        i = i + 1;
    }
    proof {
        assert(pv.take(ps@.len() as int) =~= pv);
    }
    out
}

impl CommandResultPayload {
    /// The data value under `key` read as a `bool`; `false` when absent or
    /// not `true`/`false`.
    pub fn get_bool(&self, key: &str) -> (r: bool)
        ensures
            r == (self.data@.contains_key(key@) && parse_bool_spec(self.data@[key@])
                == Some(true)),
    {
        match self.data.get(key) {
            Some(v) => match parse_bool(v.as_str()) {
                Some(b) => b,
                None => false,
            },
            None => false,
        }
    }

    /// The data as trial fields.
    pub fn to_fields(&self) -> (r: FieldMap)
        ensures
            r@ == payload_fields_of(sorted_pairs(self.data@)),
    {
        payload_fields_from(&self.data)
    }

    /// Each epoch's fields as trial fields.
    pub fn epoch_fields(&self) -> (r: Vec<FieldMap>)
        ensures
            r@.len() == self.epoch_results@.len(),
            forall|i: int| 0 <= i < r@.len() ==> #[trigger] r@[i]@ == payload_fields_of(
                sorted_pairs(self.epoch_results@[i]@),
            ),
    {
        let mut r: Vec<FieldMap> = Vec::new();
        let mut i: usize = 0;
        while i < self.epoch_results.len()
            invariant
                i <= self.epoch_results@.len(),
                r@.len() == i,
                forall|j: int| 0 <= j < i ==> #[trigger] r@[j]@ == payload_fields_of(
                    sorted_pairs(self.epoch_results@[j]@),
                ),
            decreases self.epoch_results@.len() - i,
        {
            r.push(payload_fields_from(&self.epoch_results[i]));
            i = i + 1;
        }
        r
    }
}


/// How far splitting a command line Windows-style has got: the words done,
/// the word being read, and the quote character of an open quotation.
pub type SplitState = (Seq<Seq<char>>, Seq<char>, Option<char>);

/// One character of a Windows-style split: inside quotes everything but
/// the closing quote is part of the word; outside, `"` or `'` opens a
/// quotation and whitespace ends a non-empty word.
pub open spec fn split_step(st: SplitState, ch: char) -> SplitState {
    match st.2 {
        Some(q) => if ch == q {
            (st.0, st.1, None)
        } else {
            (st.0, st.1.push(ch), Some(q))
        },
        None => if ch == '"' || ch == '\'' {
            (st.0, st.1, Some(ch))
        } else if crate::text::is_ws(ch) {
            if st.1.len() > 0 {
                (st.0.push(st.1), Seq::empty(), None)
            } else {
                st
            }
        } else {
            (st.0, st.1.push(ch), None)
        },
    }
}

/// The state after the first `n` characters of `s`.
pub open spec fn split_state(s: Seq<char>, n: nat) -> SplitState
    decreases n,
{
    if n == 0 {
        (Seq::empty(), Seq::empty(), None)
    } else {
        split_step(split_state(s, (n - 1) as nat), s[n - 1])
    }
}

/// The words of a Windows command line, or the error for a quotation that
/// is never closed.
pub open spec fn windows_words(s: Seq<char>) -> Result<Seq<Seq<char>>, Seq<char>> {
    let st = split_state(s, s.len());
    if st.2 is Some {
        Err("unterminated quote"@)
    } else if st.1.len() > 0 {
        Ok(st.0.push(st.1))
    } else {
        Ok(st.0)
    }
}

/// Split a command line into words the way Windows runs it: whitespace
/// separates words, and `"` or `'` quote a stretch of it (the quotes are
/// dropped); an unclosed quotation is an error.
pub fn split_command_windows(command: &str) -> (r: Result<Vec<String>, String>)
    ensures
        match (r, windows_words(command@)) {
            (Ok(words), Ok(w)) => crate::text::views(words@) == w,
            (Err(e), Err(m)) => e@ == m,
            _ => false,
        },
{
    let chars = chars_of(command);
    let mut args: Vec<String> = Vec::new();
    let mut current: Vec<char> = Vec::new();
    let mut in_quotes: Option<char> = None;
    let mut i: usize = 0;
    while i < chars.len()
        invariant
            i <= chars@.len(),
            chars@ == command@,
            (crate::text::views(args@), current@, in_quotes) == split_state(chars@, i as nat),
        decreases chars@.len() - i,
    {
        let ch = chars[i];
        let ghost before = split_state(chars@, i as nat);
        match in_quotes {
            Some(q) => {
                if ch == q {
                    in_quotes = None;
                } else {
                    current.push(ch);
                }
            },
            None => {
                if ch == '"' || ch == '\'' {
                    in_quotes = Some(ch);
                } else if crate::text::char_is_whitespace(ch) {
                    if current.len() > 0 {
                        let word = crate::text::string_of(&current);
                        let ghost prev = args@;
                        args.push(word);
                        current = Vec::new();
                        proof {
                            assert(crate::text::views(args@) =~= crate::text::views(prev).push(
                                before.1,
                            ));
                        }
                    }
                } else {
                    current.push(ch);
                }
            },
        }
        proof {
            assert(current@ =~= split_state(chars@, (i + 1) as nat).1);
        }
        i = i + 1;
    }
    if in_quotes.is_some() {
        return Err(crate::text::owned("unterminated quote"));
    }
    if current.len() > 0 {
        let ghost prev = args@;
        args.push(crate::text::string_of(&current));
        proof {
            assert(crate::text::views(args@) =~= crate::text::views(prev).push(current@));
        }
    }
    Ok(args)
}

} // verus!
