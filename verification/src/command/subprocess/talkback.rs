//! The talkback reading of a subprocess's output: the same line protocol as
//! `ipc`, where every line that carries a message yields its own group, even
//! a result message without fields.

use vstd::prelude::*;

pub use super::ipc::ParsedItem;
use super::ipc::{
    item_views, line_message, lines_items, message_items_of, message_text, parse_message,
    split_lines, text_lines, ParsedView,
};

verus! {

/// The item groups of the first `n` lines: one per line that carries a
/// message; the first error wins.
pub open spec fn message_groups(lines: Seq<Seq<char>>, prefix: Seq<char>, n: int) -> Result<
    Seq<Seq<ParsedView>>,
    Seq<char>,
>
    decreases n,
{
    if n <= 0 {
        Ok(Seq::empty())
    } else {
        match message_groups(lines, prefix, n - 1) {
            Err(e) => Err(e),
            Ok(acc) => match message_text(lines[n - 1], prefix) {
                None => Ok(acc),
                Some(m) => match message_items_of(m) {
                    Err(e) => Err(e),
                    Ok(v) => Ok(acc.push(v)),
                },
            },
        }
    }
}

proof fn lemma_message_groups_err(lines: Seq<Seq<char>>, prefix: Seq<char>, k: int, n: int)
    requires
        0 <= k <= n,
        message_groups(lines, prefix, k) is Err,
    ensures
        message_groups(lines, prefix, n) == message_groups(lines, prefix, k),
    decreases n - k,
{
    if k < n {
        lemma_message_groups_err(lines, prefix, k + 1, n);
    }
}

/// Parse every line of `output` and return the items of the lines that
/// carry a prefixed message, in order; the first malformed message fails the
/// whole output.
pub fn parse_output(output: &str, prefix: &str) -> (r: Result<Vec<ParsedItem>, String>)
    ensures
        match lines_items(text_lines(output@), prefix@, text_lines(output@).len() as int) {
            Ok(items) => r matches Ok(v) && item_views(v@) == items,
            Err(e) => r matches Err(x) && x@ == e,
        },
{
    super::ipc::parse_output(output, prefix)
}

/// Parse each line that carries a message into its own list of items, in
/// order; the first malformed message fails the whole output.
pub fn parse_prefix_lines(output: &str, prefix: &str) -> (r: Result<Vec<Vec<ParsedItem>>, String>)
    ensures
        match message_groups(text_lines(output@), prefix@, text_lines(output@).len() as int) {
            Ok(groups) => r matches Ok(v) && v@.map_values(|g: Vec<ParsedItem>| item_views(g@))
                == groups,
            Err(e) => r matches Err(x) && x@ == e,
        },
{
    let lines = split_lines(output);
    let ghost ls = crate::text::views(lines@);
    let mut groups: Vec<Vec<ParsedItem>> = Vec::new();
    assert(groups@.map_values(|g: Vec<ParsedItem>| item_views(g@)) =~= Seq::<Seq<ParsedView>>::empty());
    let mut i: usize = 0;
    while i < lines.len()
        invariant
            i <= lines@.len(),
            ls == crate::text::views(lines@),
            ls == text_lines(output@),
            message_groups(ls, prefix@, i as int) == Ok::<Seq<Seq<ParsedView>>, Seq<char>>(
                groups@.map_values(|g: Vec<ParsedItem>| item_views(g@)),
            ),
        decreases lines@.len() - i,
    {
        match line_message(lines[i].as_str(), prefix) {
            None => {},
            Some(m) => match parse_message(m.as_str()) {
                Err(e) => {
                    proof {
                        lemma_message_groups_err(ls, prefix@, i + 1, ls.len() as int);
                    }
                    return Err(e);
                },
                Ok(v) => {
                    let ghost before = groups@.map_values(|g: Vec<ParsedItem>| item_views(g@));
                    let ghost vv = item_views(v@);
                    groups.push(v);
                    proof {
                        assert(groups@.map_values(|g: Vec<ParsedItem>| item_views(g@)) =~= before.push(
                            vv,
                        ));
                    }
                },
            },
        }
        i = i + 1;
    }
    Ok(groups)
}

} // verus!
