use vstd::prelude::*;

verus! {

/// The paths held by a list of strings.
pub open spec fn paths(v: Seq<String>) -> Seq<Seq<char>> {
    v.map_values(|s: String| s@)
}

/// The paths of a list of `(old, new)` string pairs.
pub open spec fn pair_paths(r: Seq<(String, String)>) -> Seq<(Seq<char>, Seq<char>)> {
    r.map_values(|p: (String, String)| (p.0@, p.1@))
}

/// Positions as mathematical integers.
pub open spec fn ints(s: Seq<usize>) -> Seq<int> {
    s.map_values(|u: usize| u as int)
}

/// Some pair of the batch renames onto the source of pair `x`.
pub open spec fn has_incoming(o: Seq<Seq<char>>, n: Seq<Seq<char>>, x: int) -> bool {
    exists|j: int| 0 <= j < n.len() && #[trigger] n[j] == o[x]
}

/// Pair `x` must wait: some pair lands on its source, and none of the pairs
/// landing there has been resolved yet (`pend[i]` is false once pair `i` is).
pub open spec fn blocked(o: Seq<Seq<char>>, n: Seq<Seq<char>>, pend: Seq<bool>, x: int) -> bool {
    has_incoming(o, n, x) && !(exists|i: int|
        0 <= i < n.len() && !pend[i] && #[trigger] n[i] == o[x])
}

/// Pair `x` is pending and nothing waits on its source any more.
pub open spec fn ready(o: Seq<Seq<char>>, n: Seq<Seq<char>>, pend: Seq<bool>, x: int) -> bool {
    pend[x] && !blocked(o, n, pend, x)
}

/// The ready pairs below position `k`, in input order.
pub open spec fn ready_below(o: Seq<Seq<char>>, n: Seq<Seq<char>>, pend: Seq<bool>, k: int) -> Seq<
    int,
>
    decreases k,
{
    if k <= 0 {
        Seq::empty()
    } else if ready(o, n, pend, k - 1) {
        ready_below(o, n, pend, k - 1).push(k - 1)
    } else {
        ready_below(o, n, pend, k - 1)
    }
}

/// The pending pairs below position `k`, in input order.
pub open spec fn pending_below(pend: Seq<bool>, k: int) -> Seq<int>
    decreases k,
{
    if k <= 0 {
        Seq::empty()
    } else if pend[k - 1] {
        pending_below(pend, k - 1).push(k - 1)
    } else {
        pending_below(pend, k - 1)
    }
}

/// How many pairs are pending.
pub open spec fn count_pending(pend: Seq<bool>) -> nat
    decreases pend.len(),
{
    if pend.len() == 0 {
        0
    } else {
        count_pending(pend.drop_last()) + if pend.last() {
            1nat
        } else {
            0nat
        }
    }
}

/// The pending set once every pair that is ready now has been resolved.
pub open spec fn after_round(o: Seq<Seq<char>>, n: Seq<Seq<char>>, pend: Seq<bool>) -> Seq<bool> {
    Seq::new(pend.len(), |i: int| pend[i] && !ready(o, n, pend, i))
}

/// Resolves the pending pairs round by round. Each round takes every pair that
/// is ready at its start. Execution runs the rounds backwards (the last round
/// first), each round in input order: this is the list of discovery, with each
/// round taken in reverse input order, reversed. The first component holds the
/// resolved pairs in that order; the second the pairs left pending when a round
/// finds nothing ready (a cycle), in input order.
pub open spec fn rounds(o: Seq<Seq<char>>, n: Seq<Seq<char>>, pend: Seq<bool>) -> (Seq<int>, Seq<int>)
    decreases count_pending(pend),
    via rounds_decreases
{
    let r = ready_below(o, n, pend, pend.len() as int);
    if r.len() == 0 {
        (Seq::empty(), pending_below(pend, pend.len() as int))
    } else {
        let rest = rounds(o, n, after_round(o, n, pend));
        (rest.0 + r, rest.1)
    }
}

#[via_fn]
proof fn rounds_decreases(o: Seq<Seq<char>>, n: Seq<Seq<char>>, pend: Seq<bool>) {
    let r = ready_below(o, n, pend, pend.len() as int);
    if r.len() != 0 {
        lemma_ready_below(o, n, pend, pend.len() as int);
        let x = r[0];
        lemma_count_lt(pend, after_round(o, n, pend), x);
    }
}

/// All pairs pending.
pub open spec fn all_pending(len: nat) -> Seq<bool> {
    Seq::new(len, |i: int| true)
}

/// The execution order of the batch `o[i] -> n[i]`, as positions in the input:
/// the resolved pairs, then the cyclic remainder in input order.
pub open spec fn schedule(o: Seq<Seq<char>>, n: Seq<Seq<char>>) -> Seq<int> {
    let r = rounds(o, n, all_pending(o.len()));
    r.0 + r.1
}

/// The pairs at the given positions.
pub open spec fn pairs_at(o: Seq<Seq<char>>, n: Seq<Seq<char>>, idx: Seq<int>) -> Seq<
    (Seq<char>, Seq<char>),
> {
    idx.map_values(|i: int| (o[i], n[i]))
}

/// The batch `o[i] -> n[i]` in execution order.
pub open spec fn scheduled_pairs(o: Seq<Seq<char>>, n: Seq<Seq<char>>) -> Seq<(Seq<char>, Seq<char>)> {
    pairs_at(o, n, schedule(o, n))
}

pub proof fn lemma_ready_below(o: Seq<Seq<char>>, n: Seq<Seq<char>>, pend: Seq<bool>, k: int)
    ensures
        forall|t: int|
            0 <= t < ready_below(o, n, pend, k).len() ==> 0 <= #[trigger] ready_below(
                o,
                n,
                pend,
                k,
            )[t] < k && ready(o, n, pend, ready_below(o, n, pend, k)[t]),
        forall|y: int| 0 <= y < k && ready(o, n, pend, y) ==> ready_below(o, n, pend, k).contains(y),
        forall|a: int, b: int|
            0 <= a < b < ready_below(o, n, pend, k).len() ==> ready_below(o, n, pend, k)[a]
                < ready_below(o, n, pend, k)[b],
    decreases k,
{
    if k > 0 {
        lemma_ready_below(o, n, pend, k - 1);
        let r = ready_below(o, n, pend, k - 1);
        if ready(o, n, pend, k - 1) {
            assert(r.push(k - 1)[r.len() as int] == k - 1);
            assert forall|y: int| 0 <= y < k && ready(o, n, pend, y) implies r.push(k - 1).contains(
                y,
            ) by {
                if y < k - 1 {
                    let t = choose|t: int| 0 <= t < r.len() && r[t] == y;
                    assert(r.push(k - 1)[t] == y);
                }
            }
        }
    }
}

pub proof fn lemma_pending_below(pend: Seq<bool>, k: int)
    ensures
        forall|t: int|
            0 <= t < pending_below(pend, k).len() ==> 0 <= #[trigger] pending_below(pend, k)[t] < k
                && pend[pending_below(pend, k)[t]],
        forall|y: int| 0 <= y < k && pend[y] ==> pending_below(pend, k).contains(y),
        forall|a: int, b: int|
            0 <= a < b < pending_below(pend, k).len() ==> pending_below(pend, k)[a] < pending_below(
                pend,
                k,
            )[b],
    decreases k,
{
    if k > 0 {
        lemma_pending_below(pend, k - 1);
        let r = pending_below(pend, k - 1);
        if pend[k - 1] {
            assert(r.push(k - 1)[r.len() as int] == k - 1);
            assert forall|y: int| 0 <= y < k && pend[y] implies r.push(k - 1).contains(y) by {
                if y < k - 1 {
                    let t = choose|t: int| 0 <= t < r.len() && r[t] == y;
                    assert(r.push(k - 1)[t] == y);
                }
            }
        }
    }
}

pub proof fn lemma_count_lt(p: Seq<bool>, q: Seq<bool>, x: int)
    requires
        p.len() == q.len(),
        forall|i: int| 0 <= i < q.len() && q[i] ==> p[i],
        0 <= x < p.len(),
        p[x],
        !q[x],
    ensures
        count_pending(q) < count_pending(p),
    decreases p.len(),
{
    lemma_count_le(p.drop_last(), q.drop_last());
    if x < p.len() - 1 {
        lemma_count_lt(p.drop_last(), q.drop_last(), x);
    }
}

pub proof fn lemma_count_le(p: Seq<bool>, q: Seq<bool>)
    requires
        p.len() == q.len(),
        forall|i: int| 0 <= i < q.len() && q[i] ==> p[i],
    ensures
        count_pending(q) <= count_pending(p),
    decreases p.len(),
{
    if p.len() > 0 {
        lemma_count_le(p.drop_last(), q.drop_last());
    }
}

proof fn lemma_rounds_cover(o: Seq<Seq<char>>, n: Seq<Seq<char>>, pend: Seq<bool>)
    ensures
        forall|y: int|
            #![trigger rounds(o, n, pend).0.contains(y)]
            #![trigger rounds(o, n, pend).1.contains(y)]
            #![trigger pend[y]]
            rounds(o, n, pend).0.contains(y) || rounds(o, n, pend).1.contains(y) <==> 0 <= y
                < pend.len() && pend[y],
        forall|y: int| !(rounds(o, n, pend).0.contains(y) && rounds(o, n, pend).1.contains(y)),
        rounds(o, n, pend).0.no_duplicates(),
        rounds(o, n, pend).1.no_duplicates(),
    decreases count_pending(pend),
{
    let len = pend.len() as int;
    let r = ready_below(o, n, pend, len);
    lemma_ready_below(o, n, pend, len);
    lemma_pending_below(pend, len);
    if r.len() == 0 {
        let pb = pending_below(pend, len);
        assert(rounds(o, n, pend) == (Seq::<int>::empty(), pb));
        assert forall|a: int, b: int| 0 <= a < pb.len() && 0 <= b < pb.len() && a != b implies pb[a]
            != pb[b] by {
            if a < b {
                assert(pb[a] < pb[b]);
            } else {
                assert(pb[b] < pb[a]);
            }
        }
    } else {
        let later = after_round(o, n, pend);
        lemma_count_lt(pend, later, r[0]);
        lemma_rounds_cover(o, n, later);
        let rest = rounds(o, n, later);
        let c = rest.0 + r;
        assert(rounds(o, n, pend) == (c, rest.1));
        assert forall|y: int| c.contains(y) <==> rest.0.contains(y) || r.contains(y) by {
            if c.contains(y) {
                let t = choose|t: int| 0 <= t < c.len() && c[t] == y;
                if t >= rest.0.len() {
                    assert(r[t - rest.0.len()] == y);
                }
            }
            if rest.0.contains(y) {
                let t = choose|t: int| 0 <= t < rest.0.len() && rest.0[t] == y;
                assert(c[t] == y);
            }
            if r.contains(y) {
                let t = choose|t: int| 0 <= t < r.len() && r[t] == y;
                assert(c[t + rest.0.len()] == y);
            }
        }
        assert forall|y: int| rest.0.contains(y) || rest.1.contains(y) implies !r.contains(y) by {
            assert(0 <= y < len && later[y]);
        }
        assert forall|y: int| c.contains(y) || rest.1.contains(y) <==> 0 <= y < len && pend[y] by {
            if 0 <= y < len && pend[y] && !ready(o, n, pend, y) {
                assert(later[y]);
            }
            if 0 <= y < len && later[y] {
                assert(pend[y]);
            }
            if r.contains(y) {
                let t = choose|t: int| 0 <= t < r.len() && r[t] == y;
                assert(ready(o, n, pend, r[t]));
            }
        }
        assert forall|a: int, b: int| 0 <= a < r.len() && 0 <= b < r.len() && a != b implies r[a]
            != r[b] by {
            if a < b {
                assert(r[a] < r[b]);
            } else {
                assert(r[b] < r[a]);
            }
        }
        assert forall|a: int, b: int| 0 <= a < c.len() && 0 <= b < c.len() && a != b implies c[a]
            != c[b] by {
            if a < rest.0.len() && b >= rest.0.len() {
                assert(rest.0.contains(c[a]));
                assert(r.contains(c[b]));
            } else if b < rest.0.len() && a >= rest.0.len() {
                assert(rest.0.contains(c[b]));
                assert(r.contains(c[a]));
            }
        }
    }
}

/// A set of pairs each of which lands on the source of a pair of the set: no
/// order empties every destination of the set before it is landed on.
pub open spec fn is_cycle(o: Seq<Seq<char>>, n: Seq<Seq<char>>, s: Set<int>) -> bool {
    &&& s !== Set::empty()
    &&& forall|x: int| s.contains(x) ==> 0 <= x < o.len()
    &&& forall|x: int|
        s.contains(x) ==> exists|j: int| s.contains(j) && #[trigger] n[j] == o[x]
}

/// The batch holds no dependency cycle.
pub open spec fn acyclic(o: Seq<Seq<char>>, n: Seq<Seq<char>>) -> bool {
    forall|s: Set<int>| !is_cycle(o, n, s)
}

/// Positions `a` and `b` of `idx` both hold pairs, and the pair at `b` lands
/// on the source of the other pair at `a`: then `a` comes first.
pub open spec fn vacates_first(o: Seq<Seq<char>>, n: Seq<Seq<char>>, idx: Seq<int>) -> bool {
    forall|a: int, b: int|
        0 <= a < idx.len() && 0 <= b < idx.len() && idx[a] != idx[b] && o[idx[a]]
            == n[idx[b]] ==> a < b
}

proof fn lemma_rounds_safe(o: Seq<Seq<char>>, n: Seq<Seq<char>>, pend: Seq<bool>)
    requires
        o.len() == n.len(),
        pend.len() == o.len(),
        n.no_duplicates(),
        acyclic(o, n),
    ensures
        rounds(o, n, pend).1.len() == 0,
        vacates_first(o, n, rounds(o, n, pend).0),
    decreases count_pending(pend),
{
    let len = pend.len() as int;
    let r = ready_below(o, n, pend, len);
    lemma_ready_below(o, n, pend, len);
    lemma_pending_below(pend, len);
    lemma_rounds_cover(o, n, pend);
    if r.len() == 0 {
        let pb = pending_below(pend, len);
        if pb.len() != 0 {
            let s = Set::new(|x: int| 0 <= x < len && pend[x]);
            assert(s.contains(pb[0]));
            assert forall|x: int| s.contains(x) implies exists|j: int|
                s.contains(j) && #[trigger] n[j] == o[x] by {
                if ready(o, n, pend, x) {
                    assert(r.contains(x));
                }
                let j = choose|j: int| 0 <= j < n.len() && #[trigger] n[j] == o[x];
                assert(pend[j]);
                assert(s.contains(j));
            }
            assert(is_cycle(o, n, s));
        }
    } else {
        let later = after_round(o, n, pend);
        lemma_count_lt(pend, later, r[0]);
        lemma_rounds_safe(o, n, later);
        lemma_rounds_cover(o, n, later);
        let rest = rounds(o, n, later);
        let c = rest.0 + r;
        assert(rounds(o, n, pend) == (c, rest.1));
        assert forall|a: int, b: int|
            0 <= a < c.len() && 0 <= b < c.len() && c[a] != c[b] && o[c[a]] == n[c[b]] implies a
            < b by {
            if a >= rest.0.len() {
                let j = c[a];
                let i = c[b];
                assert(r[a - rest.0.len()] == j);
                assert(ready(o, n, pend, j));
                if b < rest.0.len() {
                    assert(rest.0.contains(i));
                    assert(later[i]);
                } else {
                    assert(r[b - rest.0.len()] == i);
                }
                assert(pend[i]);
                assert(has_incoming(o, n, j));
                let k = choose|k: int| 0 <= k < n.len() && !pend[k] && #[trigger] n[k] == o[j];
                assert(n[k] == n[i]);
            } else if b < rest.0.len() {
                assert(rest.0[a] == c[a] && rest.0[b] == c[b]);
            }
        }
    }
}

/// Every pair of the batch runs exactly once, whether or not the batch holds a
/// cycle.
pub proof fn lemma_schedule_is_permutation(o: Seq<Seq<char>>, n: Seq<Seq<char>>)
    requires
        o.len() == n.len(),
    ensures
        schedule(o, n).len() == o.len(),
        schedule(o, n).no_duplicates(),
        forall|y: int| 0 <= y < o.len() <==> schedule(o, n).contains(y),
{
    let all = all_pending(o.len());
    lemma_rounds_cover(o, n, all);
    let r = rounds(o, n, all);
    let c = r.0 + r.1;
    assert forall|y: int| c.contains(y) <==> r.0.contains(y) || r.1.contains(y) by {
        if c.contains(y) {
            let t = choose|t: int| 0 <= t < c.len() && c[t] == y;
            if t >= r.0.len() {
                assert(r.1[t - r.0.len()] == y);
            }
        }
        if r.0.contains(y) {
            let t = choose|t: int| 0 <= t < r.0.len() && r.0[t] == y;
            assert(c[t] == y);
        }
        if r.1.contains(y) {
            let t = choose|t: int| 0 <= t < r.1.len() && r.1[t] == y;
            assert(c[t + r.0.len()] == y);
        }
    }
    assert forall|a: int, b: int| 0 <= a < c.len() && 0 <= b < c.len() && a != b implies c[a]
        != c[b] by {
        if a < r.0.len() && b >= r.0.len() {
            assert(r.0.contains(c[a]) && r.1.contains(c[b]));
        } else if b < r.0.len() && a >= r.0.len() {
            assert(r.0.contains(c[b]) && r.1.contains(c[a]));
        }
    }
    assert forall|y: int| 0 <= y < o.len() <==> c.contains(y) by {
        if 0 <= y < o.len() {
            assert(all[y]);
        }
    }
    c.unique_seq_to_set();
    vstd::set_lib::lemma_int_range(0, o.len() as int);
    assert(c.to_set() =~= vstd::set_lib::set_int_range(0, o.len() as int));
}

/// Where the batch holds no dependency cycle and no two pairs land on the same
/// path, every pair runs after the pair that moves away from its destination.
pub proof fn lemma_acyclic_order_is_safe(o: Seq<Seq<char>>, n: Seq<Seq<char>>)
    requires
        o.len() == n.len(),
        n.no_duplicates(),
        acyclic(o, n),
    ensures
        forall|a: int, b: int|
            0 <= a < o.len() && 0 <= b < o.len() && a != b && #[trigger] scheduled_pairs(
                o,
                n,
            )[a].0 == #[trigger] scheduled_pairs(o, n)[b].1 ==> a < b,
{
    let all = all_pending(o.len());
    lemma_rounds_safe(o, n, all);
    lemma_schedule_is_permutation(o, n);
    let r = rounds(o, n, all);
    assert(schedule(o, n) =~= r.0);
    let sch = schedule(o, n);
    assert forall|a: int, b: int|
        0 <= a < o.len() && 0 <= b < o.len() && a != b && #[trigger] scheduled_pairs(o, n)[a].0
            == #[trigger] scheduled_pairs(o, n)[b].1 implies a < b by {
        assert(sch[a] != sch[b]);
        assert(o[sch[a]] == n[sch[b]]);
    }
}

/// Sorting one batch twice gives the same order.
pub proof fn lemma_sort_is_deterministic(
    old: Seq<String>,
    new: Seq<String>,
    r1: Seq<(String, String)>,
    r2: Seq<(String, String)>,
)
    requires
        pair_paths(r1) == scheduled_pairs(paths(old), paths(new)),
        pair_paths(r2) == scheduled_pairs(paths(old), paths(new)),
    ensures
        pair_paths(r1) == pair_paths(r2),
{
}

/// Where pair `j` lands: `Some(k)` when it lands on the source of pair `k`,
/// `None` when it lands on no source of the batch.
pub open spec fn lands_on(o: Seq<Seq<char>>, n: Seq<Seq<char>>, j: int, t: Option<usize>) -> bool {
    match t {
        Some(k) => k < o.len() && n[j] == o[k as int],
        None => forall|x: int| 0 <= x < o.len() ==> n[j] != #[trigger] o[x],
    }
}

/// The first position of `v` that holds `s`.
fn position(v: &Vec<String>, s: &String) -> (r: Option<usize>)
    ensures
        match r {
            Some(k) => k < v@.len() && v@[k as int]@ == s@,
            None => forall|x: int| 0 <= x < v@.len() ==> v@[x]@ != s@,
        },
{
    let mut k: usize = 0;
    while k < v.len()
        invariant
            k <= v@.len(),
            forall|x: int| 0 <= x < k ==> v@[x]@ != s@,
        decreases v@.len() - k,
    {
        if v[k] == *s {
            return Some(k);
        }
        k += 1;
    }
    None
}

/// Whether two entries of `v` hold the same path.
pub fn has_duplicates(v: &Vec<String>) -> (r: bool)
    ensures
        r == !paths(v@).no_duplicates(),
{
    let mut i: usize = 0;
    while i < v.len()
        invariant
            i <= v@.len(),
            forall|a: int, b: int| 0 <= a < i && 0 <= b < v@.len() && a != b ==> v@[a]@ != v@[b]@,
        decreases v@.len() - i,
    {
        let mut j: usize = 0;
        while j < v.len()
            invariant
                i < v@.len(),
                j <= v@.len(),
                forall|a: int, b: int| 0 <= a < i && 0 <= b < v@.len() && a != b ==> v@[a]@ != v@[b]@,
                forall|b: int| 0 <= b < j && b != i ==> v@[i as int]@ != v@[b]@,
            decreases v@.len() - j,
        {
            if j != i && v[i] == v[j] {
                assert(paths(v@)[i as int] == paths(v@)[j as int]);
                return true;
            }
            j += 1;
        }
        i += 1;
    }
    assert forall|a: int, b: int| 0 <= a < paths(v@).len() && 0 <= b < paths(v@).len() && a != b implies paths(v@)[a] != paths(v@)[b] by {
        assert(v@[a]@ != v@[b]@);
    }
    false
}

/// The file manager, as far as bulk renaming goes.
pub struct Manager;

impl Manager {
    /// Orders the renames `old[i] -> new[i]` so that a file leaves a path
    /// before another lands on it, as far as the batch has no cycle. Pairs that
    /// are ready together run in input order; the latest round of resolution
    /// runs first. Where a cycle leaves pairs unresolved, they follow the
    /// resolved ones in input order.
    pub fn sort(old: Vec<String>, new: Vec<String>) -> (r: Vec<(String, String)>)
        requires
            old@.len() == new@.len(),
            paths(old@).no_duplicates(),
        ensures
            pair_paths(r@) == scheduled_pairs(paths(old@), paths(new@)),
    {
        let len = old.len();
        let ghost o = paths(old@);
        let ghost n = paths(new@);

        // The arena: for each pair, the pair whose source it lands on.
        let mut target: Vec<Option<usize>> = Vec::new();
        let mut i: usize = 0;
        while i < len
            invariant
                len == old@.len(),
                len == new@.len(),
                o == paths(old@),
                n == paths(new@),
                i <= len,
                target@.len() == i,
                forall|j: int| 0 <= j < i ==> lands_on(o, n, j, #[trigger] target@[j]),
            decreases len - i,
        {
            let t = position(&old, &new[i]);
            target.push(t);
            i += 1;
        }

        // Which sources some pair lands on.
        let mut incoming: Vec<bool> = Vec::new();
        let mut pend: Vec<bool> = Vec::new();
        i = 0;
        while i < len
            invariant
                i <= len,
                incoming@.len() == i,
                pend@.len() == i,
                forall|x: int| 0 <= x < i ==> !incoming@[x] && pend@[x],
            decreases len - i,
        {
            incoming.push(false);
            pend.push(true);
            i += 1;
        }
        i = 0;
        while i < len
            invariant
                len == old@.len(),
                len == new@.len(),
                o == paths(old@),
                n == paths(new@),
                o.no_duplicates(),
                i <= len,
                target@.len() == len,
                incoming@.len() == len,
                forall|j: int| 0 <= j < len ==> lands_on(o, n, j, #[trigger] target@[j]),
                forall|x: int|
                    0 <= x < len ==> #[trigger] incoming@[x] == exists|j: int|
                        0 <= j < i && #[trigger] n[j] == o[x],
            decreases len - i,
        {
            assert(lands_on(o, n, i as int, target@[i as int]));
            if let Some(k) = target[i] {
                incoming.set(k, true);
                assert forall|x: int| 0 <= x < len && x != k implies n[i as int] != o[x] by {
                    assert(o[x] != o[k as int]);
                }
            }
            i += 1;
        }
        assert(pend@ =~= all_pending(len as nat));
        assert forall|x: int| 0 <= x < len implies #[trigger] incoming@[x] == blocked(o, n, pend@, x) by {
            if incoming@[x] {
                let j = choose|j: int| 0 <= j < len && #[trigger] n[j] == o[x];
                assert(has_incoming(o, n, x));
            }
        }

        let mut acc: Vec<usize> = Vec::new();
        loop
            invariant
                len == old@.len(),
                len == new@.len(),
                o == paths(old@),
                n == paths(new@),
                o.no_duplicates(),
                target@.len() == len,
                incoming@.len() == len,
                pend@.len() == len,
                forall|j: int| 0 <= j < len ==> lands_on(o, n, j, #[trigger] target@[j]),
                forall|x: int| 0 <= x < len ==> #[trigger] incoming@[x] == blocked(o, n, pend@, x),
                forall|t: int| 0 <= t < acc@.len() ==> #[trigger] acc@[t] < len,
                rounds(o, n, all_pending(len as nat)).0 == rounds(o, n, pend@).0 + ints(acc@),
                rounds(o, n, all_pending(len as nat)).1 == rounds(o, n, pend@).1,
            ensures
                ready_below(o, n, pend@, len as int).len() == 0,
            decreases count_pending(pend@),
        {
            // The pairs that are ready at the start of this round.
            let mut now: Vec<usize> = Vec::new();
            let mut x: usize = 0;
            while x < len
                invariant
                    x <= len,
                    incoming@.len() == len,
                    pend@.len() == len,
                    forall|y: int| 0 <= y < len ==> #[trigger] incoming@[y] == blocked(o, n, pend@, y),
                    ints(now@) == ready_below(o, n, pend@, x as int),
                decreases len - x,
            {
                if pend[x] && !incoming[x] {
                    now.push(x);
                }
                assert(ints(now@) =~= ready_below(o, n, pend@, x + 1));
                x += 1;
            }
            proof {
                lemma_ready_below(o, n, pend@, len as int);
            }
            if now.len() == 0 {
                break;
            }
            let ghost at_start = pend@;
            let ghost acc0 = ints(acc@);
            let ghost r = ready_below(o, n, at_start, len as int);
            assert(acc0.len() == acc@.len());
            assert forall|t: int| 0 <= t < now@.len() implies #[trigger] now@[t] < len by {
                assert(r[t] == now@[t] as int);
            }
            let mut j: usize = 0;
            while j < now.len()
                invariant
                    len == old@.len(),
                    len == new@.len(),
                    o.no_duplicates(),
                    o.len() == len,
                    n.len() == len,
                    ints(now@) == r,
                    at_start.len() == len,
                    j <= now@.len(),
                    target@.len() == len,
                    incoming@.len() == len,
                    pend@.len() == len,
                    forall|t: int| 0 <= t < now@.len() ==> #[trigger] now@[t] < len,
                    forall|t: int| 0 <= t < len ==> lands_on(o, n, t, #[trigger] target@[t]),
                    forall|y: int| 0 <= y < len ==> #[trigger] incoming@[y] == blocked(o, n, pend@, y),
                    forall|y: int|
                        0 <= y < len ==> #[trigger] pend@[y] == (at_start[y] && !(exists|t: int|
                            0 <= t < j && #[trigger] now@[t] == y)),
                    forall|t: int| 0 <= t < acc@.len() ==> #[trigger] acc@[t] < len,
                    ints(acc@) == r.subrange(0, j as int) + acc0,
                    acc@.len() == j + acc0.len(),
                decreases now@.len() - j,
            {
                let x = now[j];
                let ghost before = pend@;
                pend.set(x, false);
                assert(lands_on(o, n, x as int, target@[x as int]));
                match target[x] {
                    Some(k) => {
                        incoming.set(k, false);
                        assert forall|y: int| 0 <= y < len implies #[trigger] incoming@[y] == blocked(
                            o,
                            n,
                            pend@,
                            y,
                        ) by {
                            if y == k {
                                assert(!pend@[x as int] && n[x as int] == o[y]);
                            } else {
                                assert(o[y] != o[k as int]);
                                assert(n[x as int] != o[y]);
                                if blocked(o, n, before, y) != blocked(o, n, pend@, y) {
                                    let i = choose|i: int|
                                        0 <= i < len && !pend@[i] && #[trigger] n[i] == o[y];
                                    assert(!before[i]);
                                }
                            }
                        }
                    },
                    None => {
                        assert forall|y: int| 0 <= y < len implies #[trigger] incoming@[y] == blocked(
                            o,
                            n,
                            pend@,
                            y,
                        ) by {
                            assert(n[x as int] != o[y]);
                            if blocked(o, n, before, y) != blocked(o, n, pend@, y) {
                                let i = choose|i: int|
                                    0 <= i < len && !pend@[i] && #[trigger] n[i] == o[y];
                                assert(!before[i]);
                            }
                        }
                    },
                }
                assert forall|y: int|
                    0 <= y < len implies #[trigger] pend@[y] == (at_start[y] && !(exists|t: int|
                        0 <= t < j + 1 && #[trigger] now@[t] == y)) by {
                    if y == x {
                        assert(now@[j as int] == y);
                    } else if exists|t: int| 0 <= t < j + 1 && #[trigger] now@[t] == y {
                        let t = choose|t: int| 0 <= t < j + 1 && #[trigger] now@[t] == y;
                        assert(t < j);
                    }
                }
                let ghost acc_before = ints(acc@);
                acc.insert(j, x);
                assert(r[j as int] == x as int);
                assert(ints(acc@) =~= acc_before.insert(j as int, x as int));
                assert(r.subrange(0, j + 1) + acc0 =~= (r.subrange(0, j as int) + acc0).insert(
                    j as int,
                    r[j as int],
                ));
                j += 1;
            }
            proof {
                assert forall|y: int| 0 <= y < len implies #[trigger] pend@[y] == after_round(
                    o,
                    n,
                    at_start,
                )[y] by {
                    if ready(o, n, at_start, y) {
                        let t = choose|t: int| 0 <= t < r.len() && r[t] == y;
                        assert(now@[t] == y);
                    }
                    if exists|t: int| 0 <= t < now@.len() && #[trigger] now@[t] == y {
                        let t = choose|t: int| 0 <= t < now@.len() && #[trigger] now@[t] == y;
                        assert(r[t] == y);
                    }
                }
                assert(pend@ =~= after_round(o, n, at_start));
                assert(r.subrange(0, r.len() as int) =~= r);
                assert(rounds(o, n, at_start).0 == rounds(o, n, pend@).0 + r);
                assert(rounds(o, n, pend@).0 + ints(acc@) =~= rounds(o, n, at_start).0 + acc0);
                lemma_count_lt(at_start, pend@, r[0]);
            }
        }

        // Resolved pairs first, then whatever a cycle left, in input order.
        proof {
            lemma_pending_below(pend@, len as int);
        }
        let ghost order = schedule(o, n);
        let ghost rem = pending_below(pend@, len as int);
        assert(rounds(o, n, pend@) == (Seq::<int>::empty(), rem));
        assert(order =~= ints(acc@) + rem);
        let mut res: Vec<(String, String)> = Vec::new();
        let mut t: usize = 0;
        while t < acc.len()
            invariant
                len == old@.len(),
                len == new@.len(),
                o == paths(old@),
                n == paths(new@),
                t <= acc@.len(),
                forall|u: int| 0 <= u < acc@.len() ==> #[trigger] acc@[u] < len,
                pair_paths(res@) == pairs_at(o, n, ints(acc@).subrange(0, t as int)),
            decreases acc@.len() - t,
        {
            let k = acc[t];
            let a = old[k].clone();
            let b = new[k].clone();
            assert(a@ == o[k as int] && b@ == n[k as int]);
            let ghost res_before = pair_paths(res@);
            res.push((a, b));
            assert(ints(acc@)[t as int] == k as int);
            assert(pair_paths(res@) =~= res_before.push((a@, b@)));
            assert(ints(acc@).subrange(0, t + 1) =~= ints(acc@).subrange(0, t as int).push(k as int));
            assert(pair_paths(res@) =~= pairs_at(o, n, ints(acc@).subrange(0, t + 1)));
            t += 1;
        }
        assert(ints(acc@).subrange(0, acc@.len() as int) =~= ints(acc@));
        let mut x: usize = 0;
        while x < len
            invariant
                len == old@.len(),
                len == new@.len(),
                o == paths(old@),
                n == paths(new@),
                x <= len,
                pend@.len() == len,
                pair_paths(res@) == pairs_at(o, n, ints(acc@) + pending_below(pend@, x as int)),
            decreases len - x,
        {
            if pend[x] {
                let a = old[x].clone();
                let b = new[x].clone();
                assert(a@ == o[x as int] && b@ == n[x as int]);
                let ghost res_before = pair_paths(res@);
                res.push((a, b));
                assert(pair_paths(res@) =~= res_before.push((a@, b@)));
                assert(ints(acc@) + pending_below(pend@, x + 1) =~= (ints(acc@) + pending_below(
                    pend@,
                    x as int,
                )).push(x as int));
            } else {
                assert(ints(acc@) + pending_below(pend@, x + 1) =~= ints(acc@) + pending_below(
                    pend@,
                    x as int,
                ));
            }
            assert(pair_paths(res@) =~= pairs_at(o, n, ints(acc@) + pending_below(pend@, x + 1)));
            x += 1;
        }
        res
    }
}

} // verus!
