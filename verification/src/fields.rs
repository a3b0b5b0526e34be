//! String-keyed field maps: the flat `key -> value` records that trials,
//! payloads and CSV rows are made of.

use vstd::prelude::*;

use crate::text::{chars_lt, chars_of, lemma_seq_lt_irreflexive, lemma_seq_lt_total, lemma_seq_lt_transitive, seq_lt};

verus! {

/// The map denoted by a list of `(key, value)` entries (later entries win).
pub open spec fn entries_map(s: Seq<(String, String)>) -> Map<Seq<char>, Seq<char>>
    decreases s.len(),
{
    if s.len() == 0 {
        Map::empty()
    } else {
        entries_map(s.drop_last()).insert(s.last().0@, s.last().1@)
    }
}

/// No key occurs twice among the entries.
pub open spec fn keys_distinct(s: Seq<(String, String)>) -> bool {
    forall|i: int, j: int| 0 <= i < j < s.len() ==> s[i].0@ != s[j].0@
}

/// Keys strictly increase in `String` order.
pub open spec fn keys_sorted(s: Seq<(String, String)>) -> bool {
    forall|i: int, j: int| 0 <= i < j < s.len() ==> seq_lt(#[trigger] s[i].0@, #[trigger] s[j].0@)
}

/// Sorted keys are distinct.
pub proof fn lemma_sorted_distinct(s: Seq<(String, String)>)
    requires
        keys_sorted(s),
    ensures
        keys_distinct(s),
{
    assert forall|i: int, j: int| 0 <= i < j < s.len() implies s[i].0@ != s[j].0@ by {
        lemma_seq_lt_irreflexive(s[i].0@);
    }
}

/// What the entry list says about its map.
pub proof fn lemma_entries_map(s: Seq<(String, String)>)
    requires
        keys_distinct(s),
    ensures
        forall|k: Seq<char>| #[trigger]
            entries_map(s).contains_key(k) <==> exists|i: int| 0 <= i < s.len() && s[i].0@ == k,
        forall|i: int| 0 <= i < s.len() ==> #[trigger] entries_map(s)[s[i].0@] == s[i].1@,
        entries_map(s).dom().finite(),
        entries_map(s).dom().len() == s.len(),
    decreases s.len(),
{
    if s.len() > 0 {
        let t = s.drop_last();
        assert(keys_distinct(t));
        lemma_entries_map(t);
        assert forall|k: Seq<char>| #[trigger]
            entries_map(s).contains_key(k) <==> exists|i: int| 0 <= i < s.len() && s[i].0@ == k by {
            if entries_map(s).contains_key(k) && k != s.last().0@ {
                let i = choose|i: int| 0 <= i < t.len() && t[i].0@ == k;
                assert(s[i].0@ == k);
            }
            if exists|i: int| 0 <= i < s.len() && s[i].0@ == k {
                let i = choose|i: int| 0 <= i < s.len() && s[i].0@ == k;
                if i < t.len() {
                    assert(t[i].0@ == k);
                }
            }
        }
        assert forall|i: int| 0 <= i < s.len() implies #[trigger] entries_map(s)[s[i].0@] == s[i].1@ by {
            if i < t.len() {
                assert(t[i] == s[i]);
                assert(s[i].0@ != s.last().0@);
            }
        }
        assert(!entries_map(t).contains_key(s.last().0@)) by {
            if entries_map(t).contains_key(s.last().0@) {
                let i = choose|i: int| 0 <= i < t.len() && t[i].0@ == s.last().0@;
                assert(s[i].0@ == s[s.len() - 1].0@);
            }
        }
    }
}

/// Entry lists with the same key and value texts denote the same map.
pub proof fn lemma_entries_map_views(a: Seq<(String, String)>, b: Seq<(String, String)>)
    requires
        a.map_values(|e: (String, String)| (e.0@, e.1@)) == b.map_values(|e: (String, String)| (e.0@, e.1@)),
    ensures
        entries_map(a) == entries_map(b),
        keys_sorted(a) == keys_sorted(b),
        keys_distinct(a) == keys_distinct(b),
    decreases a.len(),
{
    let fa = a.map_values(|e: (String, String)| (e.0@, e.1@));
    let fb = b.map_values(|e: (String, String)| (e.0@, e.1@));
    assert(a.len() == fa.len() && b.len() == fb.len());
    assert forall|i: int| 0 <= i < a.len() implies a[i].0@ == b[i].0@ && a[i].1@ == b[i].1@ by {
        assert(fa[i] == fb[i]);
    }
    if a.len() > 0 {
        assert(a.drop_last().map_values(|e: (String, String)| (e.0@, e.1@)) =~= b.drop_last().map_values(|e: (String, String)| (e.0@, e.1@)));
        lemma_entries_map_views(a.drop_last(), b.drop_last());
    }
}

/// The key and value texts of an entry list.
pub open spec fn pair_views(s: Seq<(String, String)>) -> Seq<(Seq<char>, Seq<char>)> {
    s.map_values(|e: (String, String)| (e.0@, e.1@))
}

/// Keys strictly increase.
pub open spec fn pairs_sorted(s: Seq<(Seq<char>, Seq<char>)>) -> bool {
    forall|i: int, j: int| 0 <= i < j < s.len() ==> seq_lt(#[trigger] s[i].0, #[trigger] s[j].0)
}

/// The pairs are exactly the entries of `m`.
pub open spec fn pairs_represent(s: Seq<(Seq<char>, Seq<char>)>, m: Map<Seq<char>, Seq<char>>) -> bool {
    &&& forall|i: int| 0 <= i < s.len() ==> m.contains_key(#[trigger] s[i].0) && m[s[i].0] == s[i].1
    &&& forall|k: Seq<char>| #[trigger] m.contains_key(k) ==> exists|i: int| 0 <= i < s.len() && s[i].0 == k
}

/// The entries of `m` in increasing key order (when `m` is finite).
pub open spec fn sorted_pairs(m: Map<Seq<char>, Seq<char>>) -> Seq<(Seq<char>, Seq<char>)> {
    choose|s: Seq<(Seq<char>, Seq<char>)>| pairs_sorted(s) && pairs_represent(s, m)
}

/// A map has only one sorted list of its entries.
pub proof fn lemma_sorted_pairs_unique(
    a: Seq<(Seq<char>, Seq<char>)>,
    b: Seq<(Seq<char>, Seq<char>)>,
    m: Map<Seq<char>, Seq<char>>,
)
    requires
        pairs_sorted(a),
        pairs_represent(a, m),
        pairs_sorted(b),
        pairs_represent(b, m),
    ensures
        a == b,
    decreases a.len() + b.len(),
{
    if a.len() == 0 {
        if b.len() > 0 {
            assert(m.contains_key(b[0].0));
        }
        assert(a =~= b);
    } else if b.len() == 0 {
        assert(m.contains_key(a[0].0));
    } else {
        let ka = a[0].0;
        let kb = b[0].0;
        assert(m.contains_key(ka));
        assert(m.contains_key(kb));
        let j = choose|j: int| 0 <= j < b.len() && b[j].0 == ka;
        let i = choose|i: int| 0 <= i < a.len() && a[i].0 == kb;
        if ka != kb {
            assert(j > 0 && i > 0);
            assert(seq_lt(kb, ka));
            assert(seq_lt(ka, kb));
            lemma_seq_lt_total(ka, kb);
        }
        assert(a[0] == b[0]);
        let ra = a.drop_first();
        let rb = b.drop_first();
        let m2 = m.remove(ka);
        assert(pairs_represent(ra, m2)) by {
            assert forall|q: int| 0 <= q < ra.len() implies m2.contains_key(#[trigger] ra[q].0) && m2[ra[q].0] == ra[q].1 by {
                assert(seq_lt(a[0].0, a[q + 1].0));
                lemma_seq_lt_irreflexive(a[0].0);
            }
            assert forall|k: Seq<char>| #[trigger] m2.contains_key(k) implies exists|q: int| 0 <= q < ra.len() && ra[q].0 == k by {
                let q = choose|q: int| 0 <= q < a.len() && a[q].0 == k;
                assert(q > 0);
                assert(ra[q - 1].0 == k);
            }
        }
        assert(pairs_represent(rb, m2)) by {
            assert forall|q: int| 0 <= q < rb.len() implies m2.contains_key(#[trigger] rb[q].0) && m2[rb[q].0] == rb[q].1 by {
                assert(seq_lt(b[0].0, b[q + 1].0));
                lemma_seq_lt_irreflexive(b[0].0);
            }
            assert forall|k: Seq<char>| #[trigger] m2.contains_key(k) implies exists|q: int| 0 <= q < rb.len() && rb[q].0 == k by {
                let q = choose|q: int| 0 <= q < b.len() && b[q].0 == k;
                assert(q > 0);
                assert(rb[q - 1].0 == k);
            }
        }
        assert(pairs_sorted(ra)) by {
            assert forall|x: int, y: int| 0 <= x < y < ra.len() implies seq_lt(#[trigger] ra[x].0, #[trigger] ra[y].0) by {
                assert(seq_lt(a[x + 1].0, a[y + 1].0));
            }
        }
        assert(pairs_sorted(rb)) by {
            assert forall|x: int, y: int| 0 <= x < y < rb.len() implies seq_lt(#[trigger] rb[x].0, #[trigger] rb[y].0) by {
                assert(seq_lt(b[x + 1].0, b[y + 1].0));
            }
        }
        lemma_sorted_pairs_unique(ra, rb, m2);
        assert(a =~= seq![a[0]] + ra);
        assert(b =~= seq![b[0]] + rb);
    }
}

/// A sorted list that represents `m` is `sorted_pairs(m)`.
pub proof fn lemma_sorted_pairs_is(s: Seq<(Seq<char>, Seq<char>)>, m: Map<Seq<char>, Seq<char>>)
    requires
        pairs_sorted(s),
        pairs_represent(s, m),
    ensures
        sorted_pairs(m) == s,
{
    let t = sorted_pairs(m);
    assert(pairs_sorted(t) && pairs_represent(t, m));
    lemma_sorted_pairs_unique(t, s, m);
}

/// A flat `key -> value` record of string fields.
///
/// Keys are unique; the view is the map from key text to value text.
#[derive(Debug)]
pub struct FieldMap {
    entries: Vec<(String, String)>,
}

impl View for FieldMap {
    type V = Map<Seq<char>, Seq<char>>;

    closed spec fn view(&self) -> Map<Seq<char>, Seq<char>> {
        entries_map(self.entries@)
    }
}

impl FieldMap {
    #[verifier::type_invariant]
    closed spec fn inv(&self) -> bool {
        keys_distinct(self.entries@) && keys_sorted(self.entries@)
    }

    /// An empty map.
    pub fn new() -> (m: Self)
        ensures
            m@ == Map::<Seq<char>, Seq<char>>::empty(),
    {
        FieldMap { entries: Vec::new() }
    }

    fn index_of(&self, key: &str) -> (r: Option<usize>)
        ensures
            match r {
                Some(i) => i < self.entries@.len() && self.entries@[i as int].0@ == key@,
                None => forall|i: int| 0 <= i < self.entries@.len() ==> self.entries@[i].0@ != key@,
            },
    {
        let k = crate::text::owned(key);
        let mut i: usize = 0;
        while i < self.entries.len()
            invariant
                i <= self.entries@.len(),
                k@ == key@,
                forall|j: int| 0 <= j < i ==> self.entries@[j].0@ != key@,
            decreases self.entries@.len() - i,
        {
            if self.entries[i].0 == k {
                return Some(i);
            }
            i = i + 1;
        }
        None
    }

    /// The value stored under `key`.
    pub fn get(&self, key: &str) -> (r: Option<&String>)
        ensures
            match r {
                Some(v) => self@.contains_key(key@) && self@[key@] == v@,
                None => !self@.contains_key(key@),
            },
    {
        proof {
            use_type_invariant(self);
            lemma_entries_map(self.entries@);
        }
        match self.index_of(key) {
            Some(i) => Some(&self.entries[i].1),
            None => None,
        }
    }

    /// Whether `key` is present.
    pub fn contains_key(&self, key: &str) -> (r: bool)
        ensures
            r == self@.contains_key(key@),
    {
        proof {
            use_type_invariant(self);
            lemma_entries_map(self.entries@);
        }
        self.index_of(key).is_some()
    }

    /// Number of entries.
    pub fn len(&self) -> (r: usize)
        ensures
            r == self@.len(),
            self@.dom().finite(),
    {
        proof {
            use_type_invariant(self);
            lemma_entries_map(self.entries@);
        }
        self.entries.len()
    }

    /// Whether the map has no entries.
    pub fn is_empty(&self) -> (r: bool)
        ensures
            r == (self@.len() == 0),
            r == (self@ == Map::<Seq<char>, Seq<char>>::empty()),
    {
        proof {
            use_type_invariant(self);
            lemma_entries_map(self.entries@);
            if self.entries@.len() > 0 {
                assert(self@.contains_key(self.entries@[0].0@));
            } else {
                assert(self@ =~= Map::<Seq<char>, Seq<char>>::empty());
            }
        }
        self.entries.len() == 0
    }

    /// Set `key` to `value`, replacing any earlier value.
    pub fn insert(&mut self, key: String, value: String)
        ensures
            final(self)@ == old(self)@.insert(key@, value@),
    {
        proof {
            use_type_invariant(&*self);
            lemma_entries_map(self.entries@);
        }
        let ghost old_map = self@;
        let ghost ov = self.entries@;
        match self.index_of(key.as_str()) {
            Some(i) => {
                let ghost k = key@;
                let ghost vv = value@;
                let mut entries: Vec<(String, String)> = Vec::new();
                core::mem::swap(&mut entries, &mut self.entries);
                let ghost before = entries@;
                entries.set(i, (key, value));
                let ghost after = entries@;
                proof {
                    assert(keys_distinct(after)) by {
                        assert forall|a: int, b: int| 0 <= a < b < after.len() implies after[a].0@ != after[b].0@ by {
                            if a == i {
                                assert(before[i as int].0@ == k);
                            } else if b == i {
                                assert(before[i as int].0@ == k);
                            }
                        }
                    }
                    lemma_entries_map(after);
                    assert(entries_map(after) =~= old_map.insert(k, vv)) by {
                        assert forall|x: Seq<char>| entries_map(after).contains_key(x)
                            <==> old_map.insert(k, vv).contains_key(x) by {
                            if entries_map(after).contains_key(x) {
                                let j = choose|j: int| 0 <= j < after.len() && after[j].0@ == x;
                                if j != i {
                                    assert(before[j].0@ == x);
                                }
                            }
                            if old_map.contains_key(x) {
                                let j = choose|j: int| 0 <= j < before.len() && before[j].0@ == x;
                                if j != i {
                                    assert(after[j].0@ == x);
                                } else {
                                    assert(after[i as int].0@ == x);
                                }
                            }
                            if x == k {
                                assert(after[i as int].0@ == x);
                            }
                        }
                        assert forall|x: Seq<char>| #[trigger] entries_map(after).contains_key(x)
                            implies entries_map(after)[x] == old_map.insert(k, vv)[x] by {
                            let j = choose|j: int| 0 <= j < after.len() && after[j].0@ == x;
                            assert(entries_map(after)[after[j].0@] == after[j].1@);
                            if j != i {
                                assert(before[j] == after[j]);
                                assert(entries_map(before)[before[j].0@] == before[j].1@);
                            }
                        }
                    }
                }
                self.entries = entries;
            },
            None => {
                let ghost k = key@;
                let ghost vv = value@;
                let kc = chars_of(key.as_str());
                let mut p: usize = 0;
                while p < self.entries.len()
                    invariant
                        p <= ov.len(),
                        self.entries@ == ov,
                        kc@ == k,
                        forall|q: int| 0 <= q < p ==> seq_lt(#[trigger] ov[q].0@, k),
                    ensures
                        p < ov.len() ==> !seq_lt(ov[p as int].0@, k),
                    decreases ov.len() - p,
                {
                    let cur = chars_of(self.entries[p].0.as_str());
                    if !chars_lt(&cur, &kc) {
                        break;
                    }
                    p = p + 1;
                }
                proof {
                    if p < ov.len() {
                        lemma_seq_lt_total(ov[p as int].0@, k);
                    }
                }
                let mut entries: Vec<(String, String)> = Vec::new();
                core::mem::swap(&mut entries, &mut self.entries);
                entries.insert(p, (key, value));
                proof {
                    let after = entries@;
                    assert(after =~= ov.insert(p as int, (after[p as int].0, after[p as int].1)));
                    assert(keys_sorted(after)) by {
                        assert forall|a: int, b: int| 0 <= a < b < after.len() implies seq_lt(
                            #[trigger] after[a].0@,
                            #[trigger] after[b].0@,
                        ) by {
                            if b > p + 1 {
                                lemma_seq_lt_transitive(k, ov[p as int].0@, ov[b - 1].0@);
                            }
                            if a < p && b > p {
                                lemma_seq_lt_transitive(after[a].0@, k, after[b].0@);
                            }
                            if a > p {
                                assert(after[a] == ov[a - 1]);
                                assert(after[b] == ov[b - 1]);
                            }
                        }
                    }
                    lemma_sorted_distinct(after);
                    lemma_entries_map(after);
                    assert(entries_map(after) =~= old_map.insert(k, vv)) by {
                        assert forall|x: Seq<char>| entries_map(after).contains_key(x)
                            <==> old_map.insert(k, vv).contains_key(x) by {
                            if entries_map(after).contains_key(x) {
                                let j = choose|j: int| 0 <= j < after.len() && after[j].0@ == x;
                                if j < p {
                                    assert(ov[j].0@ == x);
                                } else if j > p {
                                    assert(ov[j - 1].0@ == x);
                                }
                            }
                            if old_map.contains_key(x) {
                                let j = choose|j: int| 0 <= j < ov.len() && ov[j].0@ == x;
                                if j < p {
                                    assert(after[j].0@ == x);
                                } else {
                                    assert(after[j + 1].0@ == x);
                                }
                            }
                            if x == k {
                                assert(after[p as int].0@ == x);
                            }
                        }
                        assert forall|x: Seq<char>| #[trigger] entries_map(after).contains_key(x)
                            implies entries_map(after)[x] == old_map.insert(k, vv)[x] by {
                            let j = choose|j: int| 0 <= j < after.len() && after[j].0@ == x;
                            assert(entries_map(after)[after[j].0@] == after[j].1@);
                            if j < p {
                                assert(after[j] == ov[j]);
                                assert(entries_map(ov)[ov[j].0@] == ov[j].1@);
                            } else if j > p {
                                assert(after[j] == ov[j - 1]);
                                assert(entries_map(ov)[ov[j - 1].0@] == ov[j - 1].1@);
                            }
                        }
                    }
                }
                self.entries = entries;
            },
        }
    }

    /// Set `key` to `value` unless `key` is already present
    /// (`entry(key).or_insert(value)`).
    pub fn insert_if_absent(&mut self, key: String, value: String)
        ensures
            final(self)@ == (if old(self)@.contains_key(key@) {
                old(self)@
            } else {
                old(self)@.insert(key@, value@)
            }),
    {
        if !self.contains_key(key.as_str()) {
            self.insert(key, value);
        }
    }

    /// Remove `key` if present.
    pub fn remove(&mut self, key: &str)
        ensures
            final(self)@ == old(self)@.remove(key@),
    {
        proof {
            use_type_invariant(&*self);
            lemma_entries_map(self.entries@);
        }
        let ghost old_map = self@;
        match self.index_of(key) {
            Some(i) => {
                let mut entries: Vec<(String, String)> = Vec::new();
                core::mem::swap(&mut entries, &mut self.entries);
                let ghost before = entries@;
                let _ = entries.remove(i);
                let ghost after = entries@;
                proof {
                    assert(after =~= before.remove(i as int));
                    assert(keys_distinct(after)) by {
                        assert forall|a: int, b: int| 0 <= a < b < after.len() implies after[a].0@ != after[b].0@ by {
                            let a2 = if a < i { a } else { a + 1 };
                            let b2 = if b < i { b } else { b + 1 };
                            assert(after[a] == before[a2]);
                            assert(after[b] == before[b2]);
                        }
                    }
                    lemma_entries_map(after);
                    assert(entries_map(after) =~= old_map.remove(key@)) by {
                        assert forall|x: Seq<char>| entries_map(after).contains_key(x)
                            <==> old_map.remove(key@).contains_key(x) by {
                            if entries_map(after).contains_key(x) {
                                let j = choose|j: int| 0 <= j < after.len() && after[j].0@ == x;
                                let j2 = if j < i { j } else { j + 1 };
                                assert(before[j2].0@ == x);
                                assert(j2 != i);
                            }
                            if old_map.remove(key@).contains_key(x) {
                                let j = choose|j: int| 0 <= j < before.len() && before[j].0@ == x;
                                assert(j != i);
                                let j3 = if j < i { j } else { j - 1 };
                                assert(after[j3] == before[j]);
                            }
                        }
                        assert forall|x: Seq<char>| #[trigger] entries_map(after).contains_key(x)
                            implies entries_map(after)[x] == old_map.remove(key@)[x] by {
                            let j = choose|j: int| 0 <= j < after.len() && after[j].0@ == x;
                            let j2 = if j < i { j } else { j + 1 };
                            assert(after[j] == before[j2]);
                            assert(entries_map(after)[after[j].0@] == after[j].1@);
                            assert(entries_map(before)[before[j2].0@] == before[j2].1@);
                        }
                    }
                }
                self.entries = entries;
            },
            None => {
                proof {
                    assert(old_map.remove(key@) =~= old_map) by {
                        if old_map.contains_key(key@) {
                            let j = choose|j: int| 0 <= j < self.entries@.len() && self.entries@[j].0@ == key@;
                        }
                    }
                }
            },
        }
    }

    /// The keys, each once, in insertion order.
    pub fn keys(&self) -> (r: Vec<String>)
        ensures
            forall|i: int, j: int| 0 <= i < j < r@.len() ==> r@[i]@ != r@[j]@,
            forall|k: Seq<char>| self@.contains_key(k) <==> exists|i: int| 0 <= i < r@.len() && r@[i]@ == k,
            r@.len() == self@.len(),
            self@.dom().finite(),
    {
        proof {
            use_type_invariant(self);
            lemma_entries_map(self.entries@);
        }
        let mut r: Vec<String> = Vec::new();
        let mut i: usize = 0;
        while i < self.entries.len()
            invariant
                i <= self.entries@.len(),
                r@.len() == i,
                keys_distinct(self.entries@),
                forall|j: int| 0 <= j < i ==> r@[j]@ == self.entries@[j].0@,
            decreases self.entries@.len() - i,
        {
            r.push(self.entries[i].0.clone());
            i = i + 1;
        }
        proof {
            assert forall|k: Seq<char>| self@.contains_key(k) <==> exists|i: int| 0 <= i < r@.len() && r@[i]@ == k by {
                if self@.contains_key(k) {
                    let j = choose|j: int| 0 <= j < self.entries@.len() && self.entries@[j].0@ == k;
                    assert(r@[j]@ == k);
                }
                if exists|i: int| 0 <= i < r@.len() && r@[i]@ == k {
                    let j = choose|j: int| 0 <= j < r@.len() && r@[j]@ == k;
                    assert(self.entries@[j].0@ == k);
                }
            }
        }
        r
    }


    /// Insert every entry of `other`, its values replacing earlier ones.
    pub fn extend_from(&mut self, other: &FieldMap)
        ensures
            final(self)@ == old(self)@.union_prefer_right(other@),
    {
        let ps = other.entries();
        let ghost base = self@;
        let mut i: usize = 0;
        while i < ps.len()
            invariant
                i <= ps@.len(),
                entries_map(ps@) == other@,
                self@ == base.union_prefer_right(entries_map(ps@.take(i as int))),
            decreases ps@.len() - i,
        {
            let k = ps[i].0.clone();
            let v = ps[i].1.clone();
            self.insert(k, v);
            proof {
                assert(ps@.take(i + 1).drop_last() =~= ps@.take(i as int));
                assert(self@ =~= base.union_prefer_right(entries_map(ps@.take(i + 1))));
            }
            i = i + 1;
        }
        proof {
            assert(ps@.take(ps@.len() as int) =~= ps@);
        }
    }


    /// Insert the entries of `other` whose keys are absent; present keys
    /// keep their values.
    pub fn fill_from(&mut self, other: &FieldMap)
        ensures
            final(self)@ == other@.union_prefer_right(old(self)@),
    {
        let ps = other.entries();
        let ghost base = self@;
        let mut i: usize = 0;
        while i < ps.len()
            invariant
                i <= ps@.len(),
                entries_map(ps@) == other@,
                keys_distinct(ps@),
                self@ == entries_map(ps@.take(i as int)).union_prefer_right(base),
            decreases ps@.len() - i,
        {
            let k = ps[i].0.clone();
            let v = ps[i].1.clone();
            let ghost before = self@;
            self.insert_if_absent(k, v);
            proof {
                let t = ps@.take(i + 1);
                assert(t.drop_last() =~= ps@.take(i as int));
                assert(keys_distinct(ps@.take(i as int)));
                lemma_entries_map(ps@.take(i as int));
                assert(!entries_map(ps@.take(i as int)).contains_key(ps@[i as int].0@)) by {
                    if entries_map(ps@.take(i as int)).contains_key(ps@[i as int].0@) {
                        let j = choose|j: int| 0 <= j < ps@.take(i as int).len() && ps@.take(i as int)[j].0@ == ps@[i as int].0@;
                        assert(ps@[j].0@ == ps@[i as int].0@);
                    }
                }
                assert(self@ =~= entries_map(t).union_prefer_right(base));
            }
            i = i + 1;
        }
        proof {
            assert(ps@.take(ps@.len() as int) =~= ps@);
        }
    }


    /// Whether both maps hold the same entries.
    pub fn same_as(&self, other: &FieldMap) -> (r: bool)
        ensures
            r == (self@ == other@),
    {
        let a = self.entries();
        let b = other.entries();
        proof {
            lemma_entries_map(a@);
            lemma_entries_map(b@);
        }
        let mut i: usize = 0;
        while i < a.len()
            invariant
                i <= a@.len(),
                entries_map(a@) == self@,
                keys_distinct(a@),
                forall|j: int| 0 <= j < i ==> other@.contains_key(#[trigger] a@[j].0@) && other@[a@[j].0@] == a@[j].1@,
            decreases a@.len() - i,
        {
            match other.get(a[i].0.as_str()) {
                Some(v) => {
                    if !crate::text::str_eq(v.as_str(), a[i].1.as_str()) {
                        proof {
                            lemma_entries_map(a@);
                            assert(self@[a@[i as int].0@] == a@[i as int].1@);
                        }
                        return false;
                    }
                },
                None => {
                    proof {
                        lemma_entries_map(a@);
                        assert(self@.contains_key(a@[i as int].0@));
                    }
                    return false;
                },
            }
            i = i + 1;
        }
        let mut j: usize = 0;
        while j < b.len()
            invariant
                j <= b@.len(),
                entries_map(b@) == other@,
                keys_distinct(b@),
                forall|q: int| 0 <= q < j ==> self@.contains_key(#[trigger] b@[q].0@),
            decreases b@.len() - j,
        {
            if !self.contains_key(b[j].0.as_str()) {
                proof {
                    lemma_entries_map(b@);
                    assert(other@.contains_key(b@[j as int].0@));
                }
                return false;
            }
            j = j + 1;
        }
        proof {
            lemma_entries_map(a@);
            lemma_entries_map(b@);
            assert forall|k: Seq<char>| self@.contains_key(k) <==> other@.contains_key(k) by {
                if self@.contains_key(k) {
                    let q = choose|q: int| 0 <= q < a@.len() && a@[q].0@ == k;
                    assert(other@.contains_key(a@[q].0@));
                }
                if other@.contains_key(k) {
                    let q = choose|q: int| 0 <= q < b@.len() && b@[q].0@ == k;
                    assert(self@.contains_key(b@[q].0@));
                }
            }
            assert forall|k: Seq<char>| #[trigger] self@.contains_key(k) implies self@[k] == other@[k] by {
                let q = choose|q: int| 0 <= q < a@.len() && a@[q].0@ == k;
                assert(self@[a@[q].0@] == a@[q].1@);
            }
            assert(self@ =~= other@);
        }
        true
    }

    /// The entries in increasing key order (the iteration order of a
    /// `BTreeMap<String, String>`).
    pub fn entries(&self) -> (r: Vec<(String, String)>)
        ensures
            pair_views(r@) == sorted_pairs(self@),
            keys_sorted(r@),
            keys_distinct(r@),
            entries_map(r@) == self@,
            r@.len() == self@.len(),
    {
        proof {
            use_type_invariant(self);
            lemma_entries_map(self.entries@);
        }
        let mut r: Vec<(String, String)> = Vec::new();
        let mut i: usize = 0;
        while i < self.entries.len()
            invariant
                i <= self.entries@.len(),
                r@.len() == i,
                forall|j: int| 0 <= j < i ==> #[trigger] r@[j].0@ == self.entries@[j].0@ && r@[j].1@ == self.entries@[j].1@,
            decreases self.entries@.len() - i,
        {
            let k = self.entries[i].0.clone();
            let v = self.entries[i].1.clone();
            r.push((k, v));
            i = i + 1;
        }
        proof {
            assert(r@.map_values(|e: (String, String)| (e.0@, e.1@)) =~= self.entries@.map_values(|e: (String, String)| (e.0@, e.1@)));
            lemma_entries_map_views(r@, self.entries@);
            lemma_entries_map(r@);
            let pv = pair_views(r@);
            assert(pairs_sorted(pv));
            assert(pairs_represent(pv, self@)) by {
                assert forall|k: Seq<char>| #[trigger] self@.contains_key(k) implies exists|i: int| 0 <= i < pv.len() && pv[i].0 == k by {
                    let i = choose|i: int| 0 <= i < r@.len() && r@[i].0@ == k;
                    assert(pv[i].0 == k);
                }
            }
            lemma_sorted_pairs_is(pv, self@);
        }
        r
    }
}


impl Clone for FieldMap {
    fn clone(&self) -> (r: Self)
        ensures
            r@ == self@,
    {
        proof {
            use_type_invariant(self);
        }
        let e = self.entries();
        FieldMap { entries: e }
    }
}

} // verus!

