//! The pool of unused discrete configurations that the random sampler falls
//! back on once it keeps proposing configurations that already ran.

use vstd::prelude::*;

use crate::constants::HP_PREFIX;
use crate::fields::FieldMap;
use crate::text::{concat_str, str_eq, views};
use crate::trial::TrialOverrides;

verus! {

/// A copy of a list of strings.
pub fn copy_strings(v: &Vec<String>) -> (r: Vec<String>)
    ensures
        views(r@) == views(v@),
{
    let mut r: Vec<String> = Vec::new();
    let mut i: usize = 0;
    while i < v.len()
        invariant
            i <= v.len(),
            r@.len() == i,
            forall|j: int| 0 <= j < i ==> #[trigger] r@[j]@ == v@[j]@,
        decreases v.len() - i,
    {
        r.push(v[i].clone());
        i = i + 1;
    }
    proof {
        assert(views(r@) =~= views(v@));
    }
    r
}

/// The overrides after writing the first `n` parameter values: each
/// non-empty value becomes the parameter's value and its `hp.` field; an
/// empty value (an inactive conditional parameter) is left out.
pub open spec fn applied(
    values: Map<Seq<char>, Seq<char>>,
    fields: Map<Seq<char>, Seq<char>>,
    params: Seq<Seq<char>>,
    vals: Seq<Seq<char>>,
    n: nat,
) -> (Map<Seq<char>, Seq<char>>, Map<Seq<char>, Seq<char>>)
    decreases n,
{
    if n == 0 {
        (values, fields)
    } else {
        let prev = applied(values, fields, params, vals, (n - 1) as nat);
        let name = params[n - 1];
        let val = vals[n - 1];
        if val.len() == 0 {
            prev
        } else {
            (prev.0.insert(name, val), prev.1.insert(HP_PREFIX@ + name, val))
        }
    }
}

/// The value lists handed out so far, by configuration id.
pub open spec fn assigned_map(s: Seq<(usize, Vec<String>)>) -> Map<usize, Seq<Seq<char>>>
    decreases s.len(),
{
    if s.len() == 0 {
        Map::empty()
    } else {
        assigned_map(s.drop_last()).insert(s.last().0, views(s.last().1@))
    }
}

/// The discrete configurations that no trial has used yet, and which of
/// them each configuration id was given.
#[derive(Debug)]
pub struct DiscreteConfigPool {
    params: Vec<String>,
    available: Vec<Vec<String>>,
    assigned: Vec<(usize, Vec<String>)>,
}

impl DiscreteConfigPool {
    /// The parameter names, in the order of each value list.
    pub closed spec fn params(&self) -> Seq<Seq<char>> {
        views(self.params@)
    }

    /// The value lists still free, the next one handed out last.
    pub closed spec fn available(&self) -> Seq<Seq<Seq<char>>> {
        self.available@.map_values(|v: Vec<String>| views(v@))
    }

    /// The value list each configuration id was given.
    pub closed spec fn assigned(&self) -> Map<usize, Seq<Seq<char>>> {
        assigned_map(self.assigned@)
    }

    /// A pool over `params` holding the unused value lists `available`,
    /// with nothing handed out yet.
    pub fn from_parts(params: Vec<String>, available: Vec<Vec<String>>) -> (r: Self)
        ensures
            r.params() == views(params@),
            r.available() == available@.map_values(|v: Vec<String>| views(v@)),
            r.assigned() == Map::<usize, Seq<Seq<char>>>::empty(),
    {
        DiscreteConfigPool { params, available, assigned: Vec::new() }
    }

    /// The value list of `config_id`: the one it was given before, else
    /// the last free one, which is then its own; `None` when none is free.
    pub fn assign_values(&mut self, config_id: usize) -> (r: Option<Vec<String>>)
        ensures
            final(self).params() == old(self).params(),
            old(self).assigned().contains_key(config_id) ==> {
                &&& r matches Some(v) && views(v@) == old(self).assigned()[config_id]
                &&& final(self).available() == old(self).available()
                &&& final(self).assigned() == old(self).assigned()
            },
            !old(self).assigned().contains_key(config_id) && old(self).available().len() == 0
                ==> {
                &&& r is None
                &&& final(self).available() == old(self).available()
                &&& final(self).assigned() == old(self).assigned()
            },
            !old(self).assigned().contains_key(config_id) && old(self).available().len() > 0
                ==> {
                &&& r matches Some(v) && views(v@) == old(self).available().last()
                &&& final(self).available() == old(self).available().drop_last()
                &&& final(self).assigned() == old(self).assigned().insert(
                    config_id,
                    old(self).available().last(),
                )
            },
    {
        let mut i: usize = self.assigned.len();
        while i > 0
            invariant
                i <= self.assigned@.len(),
                forall|j: int|
                    i <= j < self.assigned@.len() ==> #[trigger] self.assigned@[j].0 != config_id,
            decreases i,
        {
            if self.assigned[i - 1].0 == config_id {
                proof {
                    lemma_assigned_latest(self.assigned@, (i - 1) as int);
                }
                return Some(copy_strings(&self.assigned[i - 1].1));
            }
            i = i - 1;
        }
        proof {
            lemma_assigned_absent(self.assigned@, config_id);
        }
        match self.available.pop() {
            None => None,
            Some(values) => {
                let kept = copy_strings(&values);
                let ghost before = self.assigned@;
                self.assigned.push((config_id, values));
                proof {
                    assert(self.assigned@.drop_last() =~= before);
                    assert(self.available() =~= old(self).available().drop_last());
                }
                Some(kept)
            },
        }
    }

    /// Write `values` into `overrides` under the pool's parameter names,
    /// pairing them in order; empty values are skipped.
    pub fn apply_to_overrides(&self, values: &[String], overrides: &mut TrialOverrides)
        ensures
            ({
                let n = if self.params().len() <= values@.len() {
                    self.params().len()
                } else {
                    values@.len()
                };
                (final(overrides).values@, final(overrides).fields@) == applied(
                    old(overrides).values@,
                    old(overrides).fields@,
                    self.params(),
                    views(values@),
                    n,
                )
            }),
            final(overrides).env@ == old(overrides).env@,
    {
        let n: usize = if self.params.len() <= values.len() {
            self.params.len()
        } else {
            values.len()
        };
        let ghost params = self.params();
        let ghost vals = views(values@);
        let mut i: usize = 0;
        while i < n
            invariant
                i <= n,
                n <= self.params@.len(),
                n <= values@.len(),
                params == views(self.params@),
                vals == views(values@),
                (overrides.values@, overrides.fields@) == applied(
                    old(overrides).values@,
                    old(overrides).fields@,
                    params,
                    vals,
                    i as nat,
                ),
                overrides.env@ == old(overrides).env@,
            decreases n - i,
        {
            let value = &values[i];
            if value.as_str().unicode_len() > 0 {
                let name = &self.params[i];
                overrides.values.insert(name.clone(), value.clone());
                let field = concat_str(HP_PREFIX, name.as_str());
                overrides.fields.insert(field, value.clone());
            } else {
                proof {
                    assert(vals[i as int] == values@[i as int]@);
                }
            }
            i = i + 1;
        }
    }

    /// Take back the value list of `config_id`, which is then free for
    /// nobody: it is neither handed out again nor returned to the pool.
    pub fn forget_config(&mut self, config_id: usize)
        ensures
            final(self).params() == old(self).params(),
            final(self).available() == old(self).available(),
            final(self).assigned() == old(self).assigned().remove(config_id),
    {
        let mut kept: Vec<(usize, Vec<String>)> = Vec::new();
        let mut i: usize = 0;
        let ghost old_entries = self.assigned@;
        while i < self.assigned.len()
            invariant
                i <= self.assigned@.len(),
                self.assigned@ == old_entries,
                assigned_map(kept@) == assigned_map(old_entries.subrange(0, i as int)).remove(
                    config_id,
                ),
            decreases self.assigned@.len() - i,
        {
            let ghost prev = kept@;
            if self.assigned[i].0 != config_id {
                let v = copy_strings(&self.assigned[i].1);
                kept.push((self.assigned[i].0, v));
                proof {
                    assert(kept@.drop_last() =~= prev);
                }
            }
            proof {
                assert(old_entries.subrange(0, i + 1).drop_last() =~= old_entries.subrange(
                    0,
                    i as int,
                ));
                assert(assigned_map(kept@) =~= assigned_map(
                    old_entries.subrange(0, i + 1),
                ).remove(config_id));
            }
            i = i + 1;
        }
        proof {
            assert(old_entries.subrange(0, old_entries.len() as int) =~= old_entries);
        }
        self.assigned = kept;
    }
}

/// The map holds the latest entry under each key: the last entry with key
/// `k` gives its value.
proof fn lemma_assigned_latest(s: Seq<(usize, Vec<String>)>, i: int)
    requires
        0 <= i < s.len(),
        forall|j: int| i < j < s.len() ==> #[trigger] s[j].0 != s[i].0,
    ensures
        assigned_map(s).contains_key(s[i].0),
        assigned_map(s)[s[i].0] == views(s[i].1@),
    decreases s.len(),
{
    if i < s.len() - 1 {
        lemma_assigned_latest(s.drop_last(), i);
    }
}

/// A key that no entry has is not in the map.
proof fn lemma_assigned_absent(s: Seq<(usize, Vec<String>)>, k: usize)
    requires
        forall|j: int| 0 <= j < s.len() ==> #[trigger] s[j].0 != k,
    ensures
        !assigned_map(s).contains_key(k),
    decreases s.len(),
{
    if s.len() > 0 {
        lemma_assigned_absent(s.drop_last(), k);
    }
}

/// The value list a recorded row gives for the first `n` parameters: each
/// parameter's `hp.` field, or an empty value for a conditional parameter
/// the row leaves out; `None` when another parameter is missing.
pub open spec fn row_config(
    row: Map<Seq<char>, Seq<char>>,
    params: Seq<Seq<char>>,
    conditional: Seq<Seq<char>>,
    n: int,
) -> Option<Seq<Seq<char>>>
    decreases n,
{
    if n <= 0 {
        Some(Seq::empty())
    } else {
        match row_config(row, params, conditional, n - 1) {
            None => None,
            Some(c) => {
                let key = HP_PREFIX@ + params[n - 1];
                if row.contains_key(key) {
                    Some(c.push(row[key]))
                } else if conditional.contains(params[n - 1]) {
                    Some(c.push(Seq::empty()))
                } else {
                    None
                }
            },
        }
    }
}

/// Once a parameter is missing, no longer prefix has a configuration.
proof fn lemma_row_config_none_stays(
    row: Map<Seq<char>, Seq<char>>,
    params: Seq<Seq<char>>,
    conditional: Seq<Seq<char>>,
    i: int,
    n: int,
)
    requires
        i <= n,
        row_config(row, params, conditional, i) is None,
    ensures
        row_config(row, params, conditional, n) is None,
    decreases n - i,
{
    if i < n {
        lemma_row_config_none_stays(row, params, conditional, i, n - 1);
    }
}

/// Whether `name` is one of `list`.
pub fn list_contains(list: &[String], name: &str) -> (r: bool)
    ensures
        r == views(list@).contains(name@),
{
    let mut i: usize = 0;
    while i < list.len()
        invariant
            i <= list@.len(),
            forall|j: int| 0 <= j < i ==> #[trigger] list@[j]@ != name@,
        decreases list@.len() - i,
    {
        if str_eq(list[i].as_str(), name) {
            proof {
                assert(views(list@)[i as int] == name@);
            }
            return true;
        }
        i = i + 1;
    }
    proof {
        if views(list@).contains(name@) {
            let j = choose|j: int| 0 <= j < views(list@).len() && views(list@)[j] == name@;
            assert(list@[j]@ == name@);
        }
    }
    false
}

/// The configuration a recorded row used, as one value per parameter (see
/// `row_config`); rows that miss a required parameter used none.
pub fn used_config(row: &FieldMap, params: &[String], conditional: &[String]) -> (r: Option<
    Vec<String>,
>)
    ensures
        match row_config(row@, views(params@), views(conditional@), params@.len() as int) {
            Some(c) => r matches Some(v) && views(v@) == c,
            None => r is None,
        },
{
    let ghost ps = views(params@);
    let ghost cs = views(conditional@);
    let mut config: Vec<String> = Vec::new();
    let mut i: usize = 0;
    while i < params.len()
        invariant
            i <= params@.len(),
            ps == views(params@),
            cs == views(conditional@),
            row_config(row@, ps, cs, i as int) == Some(views(config@)),
        decreases params@.len() - i,
    {
        let name = &params[i];
        let key = concat_str(HP_PREFIX, name.as_str());
        let ghost before = views(config@);
        proof {
            assert(ps[i as int] == name@);
        }
        match row.get(key.as_str()) {
            Some(value) => {
                config.push(value.clone());
                proof {
                    assert(views(config@) =~= before.push(value@));
                }
            },
            None => {
                if list_contains(conditional, name.as_str()) {
                    config.push(String::new());
                    proof {
                        assert(views(config@) =~= before.push(Seq::<char>::empty()));
                    }
                } else {
                    proof {
                        lemma_row_config_none_stays(row@, ps, cs, i + 1, params@.len() as int);
                    }
                    return None;
                }
            },
        }
        i = i + 1;
    }
    Some(config)
}

/// Each of `prefixes`, in order, extended by each of `vals`, in order.
pub open spec fn extend_all(prefixes: Seq<Seq<Seq<char>>>, vals: Seq<Seq<char>>) -> Seq<Seq<Seq<char>>>
    decreases prefixes.len(),
{
    if prefixes.len() == 0 {
        Seq::empty()
    } else {
        extend_all(prefixes.drop_last(), vals) + vals.map_values(
            |v: Seq<char>| prefixes.last().push(v),
        )
    }
}

/// Every choice of one value from each of the first `n` lists, the first
/// list varying slowest.
pub open spec fn product(lists: Seq<Seq<Seq<char>>>, n: int) -> Seq<Seq<Seq<char>>>
    decreases n,
{
    if n <= 0 {
        seq![Seq::empty()]
    } else {
        extend_all(product(lists, n - 1), lists[n - 1])
    }
}

/// The configurations of `cs` that `used` does not hold, in order.
pub open spec fn unused(cs: Seq<Seq<Seq<char>>>, used: Seq<Seq<Seq<char>>>) -> Seq<Seq<Seq<char>>>
    decreases cs.len(),
{
    if cs.len() == 0 {
        Seq::empty()
    } else if used.contains(cs.last()) {
        unused(cs.drop_last(), used)
    } else {
        unused(cs.drop_last(), used).push(cs.last())
    }
}

/// The value lists of some configurations.
pub open spec fn configs_view(v: Seq<Vec<String>>) -> Seq<Seq<Seq<char>>> {
    v.map_values(|c: Vec<String>| views(c@))
}

/// Whether two value lists are equal.
pub fn strings_eq(a: &[String], b: &[String]) -> (r: bool)
    ensures
        r == (views(a@) == views(b@)),
{
    if a.len() != b.len() {
        proof {
            assert(views(a@).len() != views(b@).len());
        }
        return false;
    }
    let mut i: usize = 0;
    while i < a.len()
        invariant
            a@.len() == b@.len(),
            i <= a@.len(),
            forall|j: int| 0 <= j < i ==> #[trigger] a@[j]@ == b@[j]@,
        decreases a@.len() - i,
    {
        if !str_eq(a[i].as_str(), b[i].as_str()) {
            proof {
                assert(views(a@)[i as int] != views(b@)[i as int]);
            }
            return false;
        }
        i = i + 1;
    }
    proof {
        assert(views(a@) =~= views(b@));
    }
    true
}

/// Whether `used` holds the value list `c`.
pub fn configs_contain(used: &Vec<Vec<String>>, c: &[String]) -> (r: bool)
    ensures
        r == configs_view(used@).contains(views(c@)),
{
    let ghost us = configs_view(used@);
    let mut i: usize = 0;
    while i < used.len()
        invariant
            i <= used@.len(),
            us == configs_view(used@),
            forall|j: int| 0 <= j < i ==> #[trigger] us[j] != views(c@),
        decreases used@.len() - i,
    {
        if strings_eq(used[i].as_slice(), c) {
            proof {
                assert(us[i as int] == views(used@[i as int]@));
            }
            return true;
        }
        proof {
            assert(us[i as int] == views(used@[i as int]@));
        }
        i = i + 1;
    }
    proof {
        if us.contains(views(c@)) {
            let j = choose|j: int| 0 <= j < us.len() && us[j] == views(c@);
        }
    }
    false
}

/// The discrete configurations no recorded trial used: every choice of one
/// value per parameter from `lists` (the first parameter varying slowest),
/// without those in `used`, in that order.
pub fn available_configs(lists: &Vec<Vec<String>>, used: &Vec<Vec<String>>) -> (r: Vec<Vec<String>>)
    ensures
        configs_view(r@) == unused(product(configs_view(lists@), lists@.len() as int), configs_view(used@)),
{
    let ghost ls = configs_view(lists@);
    let mut all: Vec<Vec<String>> = Vec::new();
    all.push(Vec::new());
    proof {
        assert(views(all@[0]@) =~= Seq::<Seq<char>>::empty());
        assert(configs_view(all@) =~= product(ls, 0));
    }
    let mut k: usize = 0;
    while k < lists.len()
        invariant
            k <= lists@.len(),
            ls == configs_view(lists@),
            configs_view(all@) == product(ls, k as int),
        decreases lists@.len() - k,
    {
        let vals = &lists[k];
        proof {
            assert(ls[k as int] == views(vals@));
        }
        let mut next: Vec<Vec<String>> = Vec::new();
        let mut p: usize = 0;
        while p < all.len()
            invariant
                p <= all@.len(),
                ls == configs_view(lists@),
                k < lists@.len(),
                vals == &lists@[k as int],
                configs_view(next@) == extend_all(configs_view(all@).take(p as int), views(vals@)),
            decreases all@.len() - p,
        {
            let ghost before = configs_view(next@);
            let ghost pre = configs_view(all@)[p as int];
            let mut q: usize = 0;
            while q < vals.len()
                invariant
                    q <= vals@.len(),
                    p < all@.len(),
                    pre == configs_view(all@)[p as int],
                    configs_view(next@) == before + views(vals@).take(q as int).map_values(
                        |v: Seq<char>| pre.push(v),
                    ),
                decreases vals@.len() - q,
            {
                let mut c = copy_strings(&all[p]);
                c.push(vals[q].clone());
                let ghost prev = configs_view(next@);
                next.push(c);
                proof {
                    assert(views(all@[p as int]@) == pre);
                    assert(views(c@) =~= pre.push(vals@[q as int]@));
                    assert(configs_view(next@) =~= prev.push(views(c@)));
                    assert(views(vals@).take(q + 1).map_values(|v: Seq<char>| pre.push(v))
                        =~= views(vals@).take(q as int).map_values(|v: Seq<char>| pre.push(v)).push(
                        pre.push(vals@[q as int]@),
                    ));
                }
                q = q + 1;
            }
            proof {
                assert(views(vals@).take(vals@.len() as int) =~= views(vals@));
                let t = configs_view(all@).take(p + 1);
                assert(t.drop_last() =~= configs_view(all@).take(p as int));
                assert(t.last() == pre);
            }
            p = p + 1;
        }
        proof {
            assert(configs_view(all@).take(all@.len() as int) =~= configs_view(all@));
        }
        all = next;
        k = k + 1;
    }
    let ghost cs = configs_view(all@);
    let mut out: Vec<Vec<String>> = Vec::new();
    let mut i: usize = 0;
    while i < all.len()
        invariant
            i <= all@.len(),
            cs == configs_view(all@),
            configs_view(out@) == unused(cs.take(i as int), configs_view(used@)),
        decreases all@.len() - i,
    {
        let ghost prev = configs_view(out@);
        proof {
            let t = cs.take(i + 1);
            assert(t.drop_last() =~= cs.take(i as int));
            assert(t.last() == views(all@[i as int]@));
        }
        if !configs_contain(used, all[i].as_slice()) {
            let c = copy_strings(&all[i]);
            out.push(c);
            proof {
                assert(configs_view(out@) =~= prev.push(views(c@)));
            }
        }
        i = i + 1;
    }
    proof {
        assert(cs.take(cs.len() as int) =~= cs);
    }
    out
}

} // verus!
