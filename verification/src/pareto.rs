//! Pareto dominance for multi-objective runs.
//!
//! Score vectors come as order keys: each objective's score (lower is
//! better) as a `u64` that sorts as the score does, so dominance compares
//! keys exactly as it would compare the scores.

use vstd::prelude::*;

verus! {

/// The number of objectives two score vectors share.
pub open spec fn shared_len(a: Seq<u64>, b: Seq<u64>) -> int {
    if a.len() <= b.len() {
        a.len() as int
    } else {
        b.len() as int
    }
}

/// `a` Pareto-dominates `b`: on every shared objective `a` is no worse, and
/// on at least one it is strictly better.
pub open spec fn dominates_spec(a: Seq<u64>, b: Seq<u64>) -> bool {
    &&& forall|i: int| 0 <= i < shared_len(a, b) ==> a[i] <= b[i]
    &&& exists|i: int| 0 <= i < shared_len(a, b) && a[i] < b[i]
}

/// Whether `a` Pareto-dominates `b` (see `dominates_spec`).
pub fn dominates(a: &[u64], b: &[u64]) -> (r: bool)
    ensures
        r == dominates_spec(a@, b@),
{
    let n: usize = if a.len() <= b.len() {
        a.len()
    } else {
        b.len()
    };
    let mut strictly_better = false;
    let mut i: usize = 0;
    while i < n
        invariant
            n as int == shared_len(a@, b@),
            i <= n,
            forall|j: int| 0 <= j < i ==> a@[j] <= b@[j],
            strictly_better == exists|j: int| 0 <= j < i && a@[j] < b@[j],
        decreases n - i,
    {
        if a[i] > b[i] {
            return false;
        }
        if a[i] < b[i] {
            strictly_better = true;
        }
        i = i + 1;
    }
    strictly_better
}

/// The score vectors of a list.
pub open spec fn vectors(v: Seq<Vec<u64>>) -> Seq<Seq<u64>> {
    v.map_values(|x: Vec<u64>| x@)
}

/// Place `i` of `rem` is dominated by another place of `rem`.
pub open spec fn dominated_in(vs: Seq<Seq<u64>>, rem: Seq<usize>, i: usize) -> bool {
    exists|k: int| 0 <= k < rem.len() && rem[k] != i && dominates_spec(vs[rem[k] as int], vs[i as int])
}

/// The places among the first `n` of `rem` that no place of `rem`
/// dominates, in order.
pub open spec fn undominated_upto(vs: Seq<Seq<u64>>, rem: Seq<usize>, n: int) -> Seq<usize>
    decreases n,
{
    if n <= 0 {
        Seq::empty()
    } else if dominated_in(vs, rem, rem[n - 1]) {
        undominated_upto(vs, rem, n - 1)
    } else {
        undominated_upto(vs, rem, n - 1).push(rem[n - 1])
    }
}

/// The places of `rem` that no place of `rem` dominates, in order.
pub open spec fn undominated(vs: Seq<Seq<u64>>, rem: Seq<usize>) -> Seq<usize> {
    undominated_upto(vs, rem, rem.len() as int)
}

/// The places among the first `n` of `rem` that `f` lacks, in order.
pub open spec fn without_upto(rem: Seq<usize>, f: Seq<usize>, n: int) -> Seq<usize>
    decreases n,
{
    if n <= 0 {
        Seq::empty()
    } else if f.contains(rem[n - 1]) {
        without_upto(rem, f, n - 1)
    } else {
        without_upto(rem, f, n - 1).push(rem[n - 1])
    }
}

/// The fronts of `rem`, best first: the undominated places, then the
/// undominated places of the rest, and so on, for at most `rounds` rounds
/// and until no place is left or none is undominated.
pub open spec fn fronts_from(vs: Seq<Seq<u64>>, rem: Seq<usize>, rounds: nat) -> Seq<Seq<usize>>
    decreases rounds,
{
    let f = undominated(vs, rem);
    if rounds == 0 || rem.len() == 0 || f.len() == 0 {
        Seq::empty()
    } else {
        seq![f] + fronts_from(vs, without_upto(rem, f, rem.len() as int), (rounds - 1) as nat)
    }
}

/// All places of `n` vectors, in order.
pub open spec fn all_places(n: nat) -> Seq<usize> {
    Seq::new(n, |i: int| i as usize)
}

fn vec_contains(v: &Vec<usize>, x: usize) -> (r: bool)
    ensures
        r == v@.contains(x),
{
    let mut i: usize = 0;
    while i < v.len()
        invariant
            i <= v@.len(),
            forall|j: int| 0 <= j < i ==> v@[j] != x,
        decreases v@.len() - i,
    {
        if v[i] == x {
            return true;
        }
        i = i + 1;
    }
    false
}

/// Whether a place of `rem` other than `i` dominates place `i`.
fn is_dominated_in(normalized: &Vec<Vec<u64>>, rem: &Vec<usize>, i: usize) -> (r: bool)
    requires
        i < normalized@.len(),
        forall|k: int| 0 <= k < rem@.len() ==> rem@[k] < normalized@.len(),
    ensures
        r == dominated_in(vectors(normalized@), rem@, i),
{
    let ghost vs = vectors(normalized@);
    let mut k: usize = 0;
    while k < rem.len()
        invariant
            i < normalized@.len(),
            forall|m: int| 0 <= m < rem@.len() ==> rem@[m] < normalized@.len(),
            vs == vectors(normalized@),
            k <= rem@.len(),
            forall|m: int|
                0 <= m < k ==> !(rem@[m] != i && dominates_spec(vs[rem@[m] as int], vs[i as int])),
        decreases rem@.len() - k,
    {
        let j = rem[k];
        if j != i && dominates(normalized[j].as_slice(), normalized[i].as_slice()) {
            return true;
        }
        k = k + 1;
    }
    false
}

/// The fronts of a set of score vectors (indices into `normalized`), best
/// first: front 0 holds the vectors no other vector dominates, in index
/// order; each later front holds, in index order, the vectors no remaining
/// vector dominates once the earlier fronts are taken away.
pub fn fast_nondominated_sort(normalized: &Vec<Vec<u64>>) -> (r: Vec<Vec<usize>>)
    ensures
        r@.map_values(|f: Vec<usize>| f@) == fronts_from(
            vectors(normalized@),
            all_places(normalized@.len()),
            normalized@.len(),
        ),
{
    let ghost vs = vectors(normalized@);
    let n = normalized.len();
    let mut rem: Vec<usize> = Vec::new();
    let mut i: usize = 0;
    while i < n
        invariant
            n == normalized@.len(),
            i <= n,
            rem@ == all_places(n as nat).take(i as int),
        decreases n - i,
    {
        rem.push(i);
        proof {
            assert(all_places(n as nat).take(i + 1) =~= all_places(n as nat).take(i as int).push(
                i,
            ));
        }
        i = i + 1;
    }
    proof {
        assert(all_places(n as nat).take(n as int) =~= all_places(n as nat));
    }
    let mut fronts: Vec<Vec<usize>> = Vec::new();
    let mut rounds: usize = n;
    loop
        invariant
            n == normalized@.len(),
            vs == vectors(normalized@),
            forall|k: int| 0 <= k < rem@.len() ==> rem@[k] < n,
            rounds <= n,
            fronts@.map_values(|f: Vec<usize>| f@) + fronts_from(vs, rem@, rounds as nat)
                == fronts_from(vs, all_places(n as nat), n as nat),
        ensures
            fronts@.map_values(|f: Vec<usize>| f@) == fronts_from(
                vs,
                all_places(n as nat),
                n as nat,
            ),
        decreases rounds,
    {
        if rounds == 0 || rem.len() == 0 {
            proof {
                assert(fronts_from(vs, rem@, rounds as nat) =~= Seq::<Seq<usize>>::empty());
                assert(fronts@.map_values(|f: Vec<usize>| f@) + Seq::<Seq<usize>>::empty()
                    =~= fronts@.map_values(|f: Vec<usize>| f@));
            }
            break;
        }
        let mut front: Vec<usize> = Vec::new();
        let mut k: usize = 0;
        while k < rem.len()
            invariant
                n == normalized@.len(),
                vs == vectors(normalized@),
                forall|m: int| 0 <= m < rem@.len() ==> rem@[m] < n,
                k <= rem@.len(),
                front@ == undominated_upto(vs, rem@, k as int),
            decreases rem@.len() - k,
        {
            let p = rem[k];
            if !is_dominated_in(normalized, &rem, p) {
                front.push(p);
            }
            k = k + 1;
        }
        if front.len() == 0 {
            proof {
                assert(fronts_from(vs, rem@, rounds as nat) =~= Seq::<Seq<usize>>::empty());
                assert(fronts@.map_values(|f: Vec<usize>| f@) + Seq::<Seq<usize>>::empty()
                    =~= fronts@.map_values(|f: Vec<usize>| f@));
            }
            break;
        }
        let mut rest: Vec<usize> = Vec::new();
        let mut m: usize = 0;
        while m < rem.len()
            invariant
                n == normalized@.len(),
                forall|q: int| 0 <= q < rem@.len() ==> rem@[q] < n,
                forall|q: int| 0 <= q < rest@.len() ==> rest@[q] < n,
                m <= rem@.len(),
                rest@ == without_upto(rem@, front@, m as int),
            decreases rem@.len() - m,
        {
            let p = rem[m];
            if !vec_contains(&front, p) {
                rest.push(p);
            }
            m = m + 1;
        }
        let ghost before = fronts@.map_values(|f: Vec<usize>| f@);
        let ghost f = front@;
        fronts.push(front);
        proof {
            assert(fronts@.map_values(|f: Vec<usize>| f@) =~= before.push(f));
            assert(fronts_from(vs, rem@, rounds as nat) == seq![f] + fronts_from(
                vs,
                rest@,
                (rounds - 1) as nat,
            ));
            assert(before.push(f) + fronts_from(vs, rest@, (rounds - 1) as nat) =~= before + (seq![f]
                + fronts_from(vs, rest@, (rounds - 1) as nat)));
        }
        rem = rest;
        rounds = rounds - 1;
    }
    fronts
}

/// A trial on the front, with its score vector.
pub open spec fn entry_view(e: (usize, Vec<u64>)) -> (usize, Seq<u64>) {
    (e.0, e.1@)
}

/// The entries of the first `n` of `es` that `scores` does not dominate,
/// in order, and the ids of those it does.
pub open spec fn split_dominated(es: Seq<(usize, Seq<u64>)>, scores: Seq<u64>, n: int) -> (
    Seq<(usize, Seq<u64>)>,
    Seq<usize>,
)
    decreases n,
{
    if n <= 0 {
        (Seq::empty(), Seq::empty())
    } else {
        let (kept, removed) = split_dominated(es, scores, n - 1);
        if dominates_spec(scores, es[n - 1].1) {
            (kept, removed.push(es[n - 1].0))
        } else {
            (kept.push(es[n - 1]), removed)
        }
    }
}

/// The front after a new trial: the entries it dominates leave, and it
/// joins at the end unless a remaining entry dominates it.
pub open spec fn front_after(es: Seq<(usize, Seq<u64>)>, trial_id: usize, scores: Seq<u64>) -> Seq<
    (usize, Seq<u64>),
> {
    let kept = split_dominated(es, scores, es.len() as int).0;
    if exists|k: int| 0 <= k < kept.len() && dominates_spec(kept[k].1, scores) {
        kept
    } else {
        kept.push((trial_id, scores))
    }
}

/// The non-dominated trials seen so far, in the order they joined.
#[derive(Debug)]
pub struct ParetoFront {
    entries: Vec<(usize, Vec<u64>)>,
}

impl View for ParetoFront {
    type V = Seq<(usize, Seq<u64>)>;

    closed spec fn view(&self) -> Seq<(usize, Seq<u64>)> {
        self.entries@.map_values(|e: (usize, Vec<u64>)| entry_view(e))
    }
}

impl ParetoFront {
    /// An empty front.
    pub fn new() -> (r: Self)
        ensures
            r@ == Seq::<(usize, Seq<u64>)>::empty(),
    {
        let r = ParetoFront { entries: Vec::new() };
        proof {
            assert(r@ =~= Seq::<(usize, Seq<u64>)>::empty());
        }
        r
    }

    /// The number of trials on the front.
    pub fn len(&self) -> (r: usize)
        ensures
            r == self@.len(),
    {
        self.entries.len()
    }

    /// Whether the front is empty.
    pub fn is_empty(&self) -> (r: bool)
        ensures
            r == (self@.len() == 0),
    {
        self.entries.len() == 0
    }

    /// Add a trial's score vector: every trial it dominates leaves the front
    /// (their ids are returned, in front order), and it joins at the end
    /// unless a remaining trial dominates it.
    pub fn update(&mut self, trial_id: usize, scores: Vec<u64>) -> (removed: Vec<usize>)
        ensures
            final(self)@ == front_after(old(self)@, trial_id, scores@),
            removed@ == split_dominated(old(self)@, scores@, old(self)@.len() as int).1,
    {
        let ghost es = self@;
        let mut kept: Vec<(usize, Vec<u64>)> = Vec::new();
        let mut removed: Vec<usize> = Vec::new();
        let mut i: usize = 0;
        while i < self.entries.len()
            invariant
                es == self@,
                es == self.entries@.map_values(|e: (usize, Vec<u64>)| entry_view(e)),
                i <= self.entries@.len(),
                (kept@.map_values(|e: (usize, Vec<u64>)| entry_view(e)), removed@) == split_dominated(
                    es,
                    scores@,
                    i as int,
                ),
            decreases self.entries@.len() - i,
        {
            let ghost kv = kept@.map_values(|e: (usize, Vec<u64>)| entry_view(e));
            proof {
                assert(es[i as int] == entry_view(self.entries@[i as int]));
            }
            if dominates(scores.as_slice(), self.entries[i].1.as_slice()) {
                removed.push(self.entries[i].0);
            } else {
                let v = self.entries[i].1.clone();
                kept.push((self.entries[i].0, v));
                proof {
                    assert(kept@.map_values(|e: (usize, Vec<u64>)| entry_view(e)) =~= kv.push(
                        es[i as int],
                    ));
                }
            }
            i = i + 1;
        }
        let ghost kv = kept@.map_values(|e: (usize, Vec<u64>)| entry_view(e));
        let mut beaten = false;
        let mut j: usize = 0;
        while j < kept.len()
            invariant
                kv == kept@.map_values(|e: (usize, Vec<u64>)| entry_view(e)),
                j <= kept@.len(),
                beaten == exists|k: int| 0 <= k < j && dominates_spec(kv[k].1, scores@),
            decreases kept@.len() - j,
        {
            proof {
                assert(kv[j as int] == entry_view(kept@[j as int]));
            }
            if dominates(kept[j].1.as_slice(), scores.as_slice()) {
                beaten = true;
            }
            j = j + 1;
        }
        if !beaten {
            kept.push((trial_id, scores));
            proof {
                assert(kept@.map_values(|e: (usize, Vec<u64>)| entry_view(e)) =~= kv.push(
                    (trial_id, scores@),
                ));
            }
        }
        self.entries = kept;
        removed
    }

    /// The ids of the trials on the front, in the order they joined.
    pub fn trial_ids(&self) -> (r: Vec<usize>)
        ensures
            r@ == self@.map_values(|e: (usize, Seq<u64>)| e.0),
    {
        let mut r: Vec<usize> = Vec::new();
        let mut i: usize = 0;
        while i < self.entries.len()
            invariant
                i <= self.entries@.len(),
                r@ == self@.map_values(|e: (usize, Seq<u64>)| e.0).take(i as int),
            decreases self.entries@.len() - i,
        {
            r.push(self.entries[i].0);
            proof {
                assert(self@.map_values(|e: (usize, Seq<u64>)| e.0).take(i + 1) =~= self@.map_values(
                    |e: (usize, Seq<u64>)| e.0,
                ).take(i as int).push(self.entries@[i as int].0));
            }
            i = i + 1;
        }
        proof {
            assert(self@.map_values(|e: (usize, Seq<u64>)| e.0).take(self@.len() as int)
                =~= self@.map_values(|e: (usize, Seq<u64>)| e.0));
        }
        r
    }
}

impl Default for ParetoFront {
    fn default() -> (r: Self)
        ensures
            r@ == Seq::<(usize, Seq<u64>)>::empty(),
    {
        ParetoFront::new()
    }
}

/// The first `n` places of `rem` that are undominated in `rem` are those
/// the filter keeps.
proof fn lemma_undominated_upto(vs: Seq<Seq<u64>>, rem: Seq<usize>, n: int, x: usize)
    requires
        0 <= n <= rem.len(),
    ensures
        undominated_upto(vs, rem, n).contains(x) <==> (exists|k: int|
            0 <= k < n && rem[k] == x) && !dominated_in(vs, rem, x),
    decreases n,
{
    if n > 0 {
        lemma_undominated_upto(vs, rem, n - 1, x);
        let prev = undominated_upto(vs, rem, n - 1);
        if !dominated_in(vs, rem, rem[n - 1]) {
            let cur = prev.push(rem[n - 1]);
            assert(cur[prev.len() as int] == rem[n - 1]);
            if cur.contains(x) && x != rem[n - 1] {
                let k = choose|k: int| 0 <= k < cur.len() && cur[k] == x;
                assert(prev[k] == x);
            }
            if prev.contains(x) {
                let k = choose|k: int| 0 <= k < prev.len() && prev[k] == x;
                assert(cur[k] == x);
            }
        }
        if (exists|k: int| 0 <= k < n && rem[k] == x) && x != rem[n - 1] {
            let k = choose|k: int| 0 <= k < n && rem[k] == x;
            assert(k < n - 1);
        }
    }
}

/// The first front holds exactly the vectors that no other vector
/// dominates, in index order.
pub proof fn lemma_first_front_is_undominated(vs: Seq<Seq<u64>>)
    requires
        vs.len() <= usize::MAX,
    ensures
        forall|i: int|
            0 <= i < vs.len() ==> (#[trigger] undominated(vs, all_places(vs.len())).contains(i as usize)
                <==> !exists|j: int| 0 <= j < vs.len() && j != i && dominates_spec(vs[j], vs[i])),
        vs.len() > 0 && undominated(vs, all_places(vs.len())).len() > 0 ==> fronts_from(
            vs,
            all_places(vs.len()),
            vs.len(),
        )[0] == undominated(vs, all_places(vs.len())),
{
    let all = all_places(vs.len());
    assert forall|i: int|
        0 <= i < vs.len() implies (#[trigger] undominated(vs, all).contains(i as usize)
            <==> !exists|j: int| 0 <= j < vs.len() && j != i && dominates_spec(vs[j], vs[i])) by {
        lemma_undominated_upto(vs, all, all.len() as int, i as usize);
        assert(all[i] == i as usize);
        if dominated_in(vs, all, i as usize) {
            let k = choose|k: int|
                0 <= k < all.len() && all[k] != i as usize && dominates_spec(
                    vs[all[k] as int],
                    vs[i as usize as int],
                );
            assert(all[k] as int == k);
        }
        if exists|j: int| 0 <= j < vs.len() && j != i && dominates_spec(vs[j], vs[i]) {
            let j = choose|j: int| 0 <= j < vs.len() && j != i && dominates_spec(vs[j], vs[i]);
            assert(all[j] as int == j);
            assert(dominated_in(vs, all, i as usize));
        }
    }
}

/// No entry of the front dominates another.
pub open spec fn mutually_undominated(es: Seq<(usize, Seq<u64>)>) -> bool {
    forall|a: int, b: int|
        0 <= a < es.len() && 0 <= b < es.len() && a != b ==> !dominates_spec(
            #[trigger] es[a].1,
            #[trigger] es[b].1,
        )
}

/// The entries kept are entries of the first `n`, in order, none of them
/// dominated by `scores`, and of mutually undominated entries they stay so.
proof fn lemma_split_kept(es: Seq<(usize, Seq<u64>)>, scores: Seq<u64>, n: int)
    requires
        0 <= n <= es.len(),
        mutually_undominated(es),
    ensures
        mutually_undominated(split_dominated(es, scores, n).0),
        forall|k: int|
            0 <= k < split_dominated(es, scores, n).0.len() ==> !dominates_spec(
                scores,
                #[trigger] split_dominated(es, scores, n).0[k].1,
            ),
        forall|k: int|
            0 <= k < split_dominated(es, scores, n).0.len() ==> exists|m: int|
                0 <= m < n && #[trigger] split_dominated(es, scores, n).0[k] == es[m],
    decreases n,
{
    if n > 0 {
        lemma_split_kept(es, scores, n - 1);
        let prev = split_dominated(es, scores, n - 1).0;
        if !dominates_spec(scores, es[n - 1].1) {
            let cur = prev.push(es[n - 1]);
            assert(split_dominated(es, scores, n).0 == cur);
            assert forall|k: int| 0 <= k < cur.len() implies exists|m: int|
                0 <= m < n && #[trigger] cur[k] == es[m] by {
                if k < prev.len() {
                    assert(cur[k] == prev[k]);
                    let m = choose|m: int| 0 <= m < n - 1 && prev[k] == es[m];
                    assert(cur[k] == es[m]);
                } else {
                    assert(cur[k] == es[n - 1]);
                }
            }
            assert forall|a: int, b: int|
                0 <= a < cur.len() && 0 <= b < cur.len() && a != b implies !dominates_spec(
                #[trigger] cur[a].1,
                #[trigger] cur[b].1,
            ) by {
                if a < prev.len() && b < prev.len() {
                    assert(cur[a] == prev[a] && cur[b] == prev[b]);
                } else if a < prev.len() {
                    let m = choose|m: int| 0 <= m < n - 1 && prev[a] == es[m];
                    assert(cur[a] == es[m]);
                    assert(cur[b] == es[n - 1]);
                    assert(m != n - 1);
                } else {
                    let m = choose|m: int| 0 <= m < n - 1 && prev[b] == es[m];
                    assert(cur[b] == es[m]);
                    assert(cur[a] == es[n - 1]);
                    assert(m != n - 1);
                }
            }
            assert forall|k: int| 0 <= k < cur.len() implies !dominates_spec(
                scores,
                #[trigger] cur[k].1,
            ) by {
                if k < prev.len() {
                    assert(cur[k] == prev[k]);
                }
            }
        }
    }
}

/// The front stays a front: if no entry dominated another before a trial
/// is added, none does after.
pub proof fn lemma_front_stays_undominated(
    es: Seq<(usize, Seq<u64>)>,
    trial_id: usize,
    scores: Seq<u64>,
)
    requires
        mutually_undominated(es),
    ensures
        mutually_undominated(front_after(es, trial_id, scores)),
{
    lemma_split_kept(es, scores, es.len() as int);
    let kept = split_dominated(es, scores, es.len() as int).0;
    if !exists|k: int| 0 <= k < kept.len() && dominates_spec(kept[k].1, scores) {
        let cur = kept.push((trial_id, scores));
        assert(front_after(es, trial_id, scores) == cur);
        assert forall|a: int, b: int|
            0 <= a < cur.len() && 0 <= b < cur.len() && a != b implies !dominates_spec(
            #[trigger] cur[a].1,
            #[trigger] cur[b].1,
        ) by {
            if a < kept.len() && b < kept.len() {
                assert(cur[a] == kept[a] && cur[b] == kept[b]);
            } else if a < kept.len() {
                assert(cur[a] == kept[a]);
                assert(cur[b].1 == scores);
                assert(!dominates_spec(kept[a].1, scores));
            } else {
                assert(cur[b] == kept[b]);
                assert(cur[a].1 == scores);
                assert(!dominates_spec(scores, kept[b].1));
            }
        }
    }
}

} // verus!
