use vstd::prelude::*;
use vstd::multiset::Multiset;
use crate::water_sort::game::{pour_ok, poured, pour_amount, solved, top_run, run_len, sorted_lex};
use crate::water_sort::solver::{Move, replay, solves, pour_before};

verus! {

/// Two sets of bottles hold the same bottles, in any order.
pub open spec fn same_bottles(a: Seq<Seq<u8>>, b: Seq<Seq<u8>>) -> bool {
    a.to_multiset() == b.to_multiset()
}

/// Writing `v` at index `i` replaces one copy of the old element by `v`.
pub proof fn lemma_update_multiset<A>(m: Seq<A>, i: int, v: A)
    requires
        0 <= i < m.len(),
    ensures
        m.update(i, v).to_multiset() == m.to_multiset().remove(m[i]).insert(v),
{
    broadcast use vstd::seq_lib::group_to_multiset_ensures;
    broadcast use vstd::multiset::group_multiset_properties;

    let x = m.update(i, v);
    assert(x.remove(i) =~= m.remove(i));
    assert(x.remove(i).to_multiset() == x.to_multiset().remove(v));
    assert(m.remove(i).to_multiset() == m.to_multiset().remove(m[i]));
    assert(x.contains(v)) by {
        assert(x[i] == v);
    }
    assert(x.to_multiset().count(v) > 0);
    assert(x.to_multiset() =~= x.to_multiset().remove(v).insert(v));
}

/// A value that occurs at index `i` and once more lies at another index.
pub proof fn lemma_other_index<A>(m: Seq<A>, i: int, u: A, w: A)
    requires
        0 <= i < m.len(),
        m.to_multiset().count(u) >= 1 + (if m[i] == u { 1int } else { 0int }),
        w != u,
    ensures
        exists|j: int| 0 <= j < m.len() && j != i && m[j] == u,
{
    broadcast use vstd::seq_lib::group_to_multiset_ensures;
    broadcast use vstd::multiset::group_multiset_properties;

    lemma_update_multiset(m, i, w);
    let x = m.update(i, w);
    assert(x.to_multiset().count(u) >= 1);
    assert(x.contains(u));
    let j = choose|j: int| 0 <= j < x.len() && x[j] == u;
    assert(j != i);
    assert(m[j] == u);
}

/// A value at two different indices is counted at least twice; in general
/// the count is at least one more than whether index `i` holds it.
pub proof fn lemma_count_two<A>(m: Seq<A>, i: int, d: int, w: A)
    requires
        0 <= i < m.len(),
        0 <= d < m.len(),
        i != d,
        w != m[d],
    ensures
        m.to_multiset().count(m[d]) >= 1 + (if m[i] == m[d] { 1int } else { 0int }),
{
    broadcast use vstd::seq_lib::group_to_multiset_ensures;
    broadcast use vstd::multiset::group_multiset_properties;

    lemma_update_multiset(m, i, w);
    let x = m.update(i, w);
    assert(x[d] == m[d]);
    assert(x.contains(m[d]));
    assert(x.to_multiset().count(m[d]) >= 1);
}

/// A bottle different from `v`.
pub open spec fn other_than(v: Seq<u8>) -> Seq<u8> {
    if v.len() == 0 {
        seq![0u8]
    } else {
        Seq::empty()
    }
}

/// Holding the same bottles keeps a solved set solved.
pub proof fn lemma_same_solved(a: Seq<Seq<u8>>, b: Seq<Seq<u8>>)
    requires
        same_bottles(a, b),
        solved(a),
    ensures
        solved(b),
{
    broadcast use vstd::seq_lib::group_to_multiset_ensures;

    assert forall|i: int| 0 <= i < b.len() implies #[trigger] b[i].len() == 0 || crate::water_sort::game::complete_bottle(b[i]) by {
        assert(b.contains(b[i]));
        assert(a.to_multiset().count(b[i]) > 0);
        assert(a.contains(b[i]));
        let j = choose|j: int| 0 <= j < a.len() && a[j] == b[i];
    }
}

/// A pour changes a bottle list by replacing its source and destination
/// with what they become, which depends on those two bottles alone.
pub proof fn lemma_poured_multiset(m: Seq<Seq<u8>>, s: int, d: int)
    requires
        pour_ok(m, s, d),
    ensures
        poured(m, s, d).to_multiset() == m.to_multiset().remove(m[s]).insert(poured(m, s, d)[s]).remove(m[d]).insert(
            poured(m, s, d)[d],
        ),
        poured(m, s, d)[s].len() < m[s].len(),
{
    let n = pour_amount(m, s, d);
    let c = m[s].last();
    let m1 = m.update(s, m[s].subrange(0, m[s].len() - n));
    lemma_update_multiset(m, s, m[s].subrange(0, m[s].len() - n));
    lemma_update_multiset(m1, d, m[d] + Seq::new(n as nat, |i: int| c));
    assert(m1[d] == m[d]);
    assert(top_run(m[s]) >= 1) by {
        assert(m[s][m[s].len() - 1] == m[s].last());
        reveal_with_fuel(run_len, 2);
    }
    lemma_run_len_bound(m[s], c, m[s].len() as int);
    assert(n >= 1 && n <= m[s].len());
    assert(poured(m, s, d)[s] == m1[s]);
}

/// A run ending at position `n` is at most `n` long.
proof fn lemma_run_len_bound(u: Seq<u8>, c: u8, n: int)
    ensures
        run_len(u, c, n) <= if n < 0 { 0 } else { n },
    decreases n,
{
    if n > 0 {
        lemma_run_len_bound(u, c, n - 1);
    }
}

/// A pour allowed on one bottle list has a counterpart on any list with the
/// same bottles, giving again the same bottles.
pub proof fn lemma_pour_counterpart(a: Seq<Seq<u8>>, b: Seq<Seq<u8>>, s: int, d: int) -> (sd: (int, int))
    requires
        same_bottles(a, b),
        pour_ok(a, s, d),
    ensures
        pour_ok(b, sd.0, sd.1),
        same_bottles(poured(a, s, d), poured(b, sd.0, sd.1)),
{
    broadcast use vstd::seq_lib::group_to_multiset_ensures;

    let v = a[s];
    let u = a[d];
    assert(a.contains(v));
    assert(b.to_multiset().count(v) > 0);
    assert(b.contains(v));
    let s2 = choose|j: int| 0 <= j < b.len() && b[j] == v;
    lemma_count_two(a, s, d, other_than(u));
    assert(b.to_multiset().count(u) == a.to_multiset().count(u));
    lemma_other_index(b, s2, u, other_than(u));
    let d2 = choose|j: int| 0 <= j < b.len() && j != s2 && b[j] == u;
    assert(pour_ok(b, s2, d2));
    assert(pour_amount(b, s2, d2) == pour_amount(a, s, d));
    lemma_poured_multiset(a, s, d);
    lemma_poured_multiset(b, s2, d2);
    assert(poured(b, s2, d2)[s2] == poured(a, s, d)[s]);
    assert(poured(b, s2, d2)[d2] == poured(a, s, d)[d]);
    (s2, d2)
}

/// Pouring into either of two empty bottles gives the same bottles.
pub proof fn lemma_empty_choice(m: Seq<Seq<u8>>, s: int, d: int, k: int)
    requires
        pour_ok(m, s, d),
        0 <= k < m.len(),
        k != s,
        m[d].len() == 0,
        m[k].len() == 0,
    ensures
        pour_ok(m, s, k),
        same_bottles(poured(m, s, d), poured(m, s, k)),
{
    assert(m[d] =~= m[k]);
    assert(pour_amount(m, s, d) == pour_amount(m, s, k));
    lemma_poured_multiset(m, s, d);
    lemma_poured_multiset(m, s, k);
    assert(poured(m, s, d)[s] == poured(m, s, k)[s]);
    assert(poured(m, s, d)[d] == poured(m, s, k)[k]);
}

/// The pours of `ms` up to `i` can be played whenever all of them can, and
/// pour `i` is played on the bottles they leave.
pub proof fn lemma_replay_prefix(m0: Seq<Seq<u8>>, ms: Seq<Move>, i: int)
    requires
        replay(m0, ms) is Some,
        0 <= i <= ms.len(),
    ensures
        replay(m0, ms.take(i)) is Some,
        i < ms.len() ==> pour_ok(replay(m0, ms.take(i)).unwrap(), ms[i].src as int, ms[i].dst as int)
            && replay(m0, ms.take(i + 1)) == Some(
            poured(replay(m0, ms.take(i)).unwrap(), ms[i].src as int, ms[i].dst as int),
        ),
    decreases ms.len() - i,
{
    if i == ms.len() {
        assert(ms.take(i) =~= ms);
    } else {
        lemma_replay_prefix(m0, ms, i + 1);
        assert(ms.take(i + 1).drop_last() =~= ms.take(i));
        assert(ms.take(i + 1).last() == ms[i]);
    }
}

/// A pour from entry `i` of the search is accounted for: it does not solve
/// the puzzle, and some entry holds the same bottles, reached in at most one
/// pour more.
pub open spec fn covered(enq: Seq<(Seq<Seq<u8>>, Seq<Move>)>, i: int, s: int, d: int) -> bool {
    &&& !solved(poured(enq[i].0, s, d))
    &&& exists|j: int|
        0 <= j < enq.len() && same_bottles(#[trigger] enq[j].0, poured(enq[i].0, s, d)) && enq[j].1.len() <= enq[i].1.len()
            + 1
}

/// Every pour from the first `p` entries is accounted for.
pub open spec fn expanded(enq: Seq<(Seq<Seq<u8>>, Seq<Move>)>, p: int) -> bool {
    forall|i: int, s: int, d: int| 0 <= i < p && #[trigger] pour_ok(enq[i].0, s, d) ==> covered(enq, i, s, d)
}

/// The start of a search: entry 0 holds the puzzle, reached by no pour.
pub open spec fn starts_at(enq: Seq<(Seq<Seq<u8>>, Seq<Move>)>, m0: Seq<Seq<u8>>) -> bool {
    enq.len() > 0 && enq[0].0 == m0 && enq[0].1.len() == 0
}

/// When the first `p` entries are expanded and the others are reached in
/// at least `bound` pours, the bottles after the first `i <= bound` pours
/// of any playable sequence are held by an entry reached in at most `i`
/// pours.
pub proof fn lemma_cover(
    m0: Seq<Seq<u8>>,
    enq: Seq<(Seq<Seq<u8>>, Seq<Move>)>,
    p: int,
    bound: int,
    ms: Seq<Move>,
    i: int,
)
    requires
        starts_at(enq, m0),
        expanded(enq, p),
        forall|j: int| p <= j < enq.len() ==> (#[trigger] enq[j]).1.len() >= bound,
        replay(m0, ms) is Some,
        0 <= i <= ms.len(),
        i <= bound,
    ensures
        replay(m0, ms.take(i)) is Some,
        exists|j: int|
            0 <= j < enq.len() && same_bottles(#[trigger] enq[j].0, replay(m0, ms.take(i)).unwrap()) && enq[j].1.len() <= i,
    decreases i,
{
    lemma_replay_prefix(m0, ms, i);
    if i == 0 {
        assert(ms.take(0) =~= Seq::<Move>::empty());
        assert(same_bottles(enq[0].0, replay(m0, ms.take(0)).unwrap()));
    } else {
        lemma_cover(m0, enq, p, bound, ms, i - 1);
        lemma_replay_prefix(m0, ms, i - 1);
        let x = replay(m0, ms.take(i - 1)).unwrap();
        let j = choose|j: int| 0 <= j < enq.len() && same_bottles(#[trigger] enq[j].0, x) && enq[j].1.len() <= i - 1;
        assert(j < p);
        let mv = ms[i - 1];
        let sd = lemma_pour_counterpart(x, enq[j].0, mv.src as int, mv.dst as int);
        assert(covered(enq, j, sd.0, sd.1));
        let j2 = choose|j2: int|
            0 <= j2 < enq.len() && same_bottles(#[trigger] enq[j2].0, poured(enq[j].0, sd.0, sd.1)) && enq[j2].1.len()
                <= enq[j].1.len() + 1;
        assert(same_bottles(enq[j2].0, replay(m0, ms.take(i)).unwrap()));
    }
}

/// With the entries so expanded, no sequence of pours of at most `bound`
/// pours solves the puzzle, given that no entry is solved.
pub proof fn lemma_no_shorter(
    m0: Seq<Seq<u8>>,
    enq: Seq<(Seq<Seq<u8>>, Seq<Move>)>,
    p: int,
    bound: int,
    ms: Seq<Move>,
)
    requires
        starts_at(enq, m0),
        expanded(enq, p),
        forall|j: int| p <= j < enq.len() ==> (#[trigger] enq[j]).1.len() >= bound,
        forall|j: int| 0 <= j < enq.len() ==> !solved(#[trigger] enq[j].0),
        solves(m0, ms),
    ensures
        ms.len() > bound,
{
    if ms.len() <= bound {
        if ms.len() == 0 {
            assert(!solved(enq[0].0));
        } else {
            let k = ms.len() - 1;
            lemma_cover(m0, enq, p, bound, ms, k);
            lemma_replay_prefix(m0, ms, k);
            let x = replay(m0, ms.take(k)).unwrap();
            let j = choose|j: int| 0 <= j < enq.len() && same_bottles(#[trigger] enq[j].0, x) && enq[j].1.len() <= k;
            assert(j < p);
            let mv = ms[k];
            let sd = lemma_pour_counterpart(x, enq[j].0, mv.src as int, mv.dst as int);
            assert(ms.take(k + 1) =~= ms);
            lemma_same_solved(poured(x, mv.src as int, mv.dst as int), poured(enq[j].0, sd.0, sd.1));
            assert(covered(enq, j, sd.0, sd.1));
        }
    }
}

/// Sorted bottle list `c` holds the same bottles as some state that at most
/// `k` pours reach from the puzzle.
pub open spec fn form_within(m0: Seq<Seq<u8>>, c: Seq<Seq<u8>>, k: int) -> bool {
    &&& sorted_lex(c)
    &&& exists|ms: Seq<Move>|
        #[trigger] replay(m0, ms) is Some && ms.len() <= k && c.to_multiset() == replay(m0, ms).unwrap().to_multiset()
}

/// More than `n` different sorted bottle lists lie within `k` pours of the
/// puzzle.
pub open spec fn many_within(m0: Seq<Seq<u8>>, n: int, k: int) -> bool {
    exists|cs: Seq<Seq<Seq<u8>>>|
        cs.len() > n && cs.no_duplicates() && forall|i: int| 0 <= i < cs.len() ==> #[trigger] form_within(m0, cs[i], k)
}

/// The search had to give up after expanding `n` states: for some `k`, more
/// than `n` different sorted bottle lists lie within `k` pours of the puzzle,
/// and every solution takes more than `k` pours.
pub open spec fn gives_up(m0: Seq<Seq<u8>>, n: int) -> bool {
    exists|k: int|
        #[trigger] many_within(m0, n, k) && forall|ms: Seq<Move>| #[trigger] solves(m0, ms) ==> ms.len() > k
}

/// The state of the breadth-first search: the entries queued so far (the
/// first `head` of them taken out), their sorted forms, all different, and
/// the set of forms seen.
pub open spec fn bfs_inv(
    m0: Seq<Seq<u8>>,
    enq: Seq<(Seq<Seq<u8>>, Seq<Move>)>,
    keys: Seq<Seq<Seq<u8>>>,
    seen: Set<Seq<Seq<u8>>>,
    head: int,
) -> bool {
    &&& starts_at(enq, m0)
    &&& 0 <= head <= enq.len()
    &&& keys.len() == enq.len()
    &&& forall|i: int| 0 <= i < enq.len() ==> replay(m0, (#[trigger] enq[i]).1) == Some(enq[i].0)
    &&& forall|i: int| 0 <= i < enq.len() ==> !solved(#[trigger] enq[i].0)
    &&& forall|i: int, j: int| 0 <= i <= j < enq.len() ==> (#[trigger] enq[i]).1.len() <= (#[trigger] enq[j]).1.len()
    &&& head > 0 ==> forall|j: int| 0 <= j < enq.len() ==> (#[trigger] enq[j]).1.len() <= enq[head - 1].1.len() + 1
    &&& head == 0 ==> enq.len() == 1
    &&& forall|i: int| 0 <= i < enq.len() ==> sorted_lex(#[trigger] keys[i]) && keys[i].to_multiset() == enq[i].0.to_multiset()
    &&& keys.no_duplicates()
    &&& seen == keys.to_set()
}

/// Entries added to the search keep what was accounted for.
pub proof fn lemma_expanded_grow(enq: Seq<(Seq<Seq<u8>>, Seq<Move>)>, x: (Seq<Seq<u8>>, Seq<Move>), p: int, ci: int, src: int, dst: int)
    requires
        0 <= p <= enq.len(),
        0 <= ci < enq.len(),
        expanded(enq, p),
        forall|s: int, d: int| pour_before(s, d, src, dst) && #[trigger] pour_ok(enq[ci].0, s, d) ==> covered(enq, ci, s, d),
    ensures
        expanded(enq.push(x), p),
        forall|s: int, d: int|
            pour_before(s, d, src, dst) && #[trigger] pour_ok(enq.push(x)[ci].0, s, d) ==> covered(enq.push(x), ci, s, d),
{
    let e2 = enq.push(x);
    assert forall|i: int, s: int, d: int| 0 <= i < p && #[trigger] pour_ok(e2[i].0, s, d) implies covered(e2, i, s, d) by {
        assert(e2[i] == enq[i]);
        assert(covered(enq, i, s, d));
        let j = choose|j: int|
            0 <= j < enq.len() && same_bottles(#[trigger] enq[j].0, poured(enq[i].0, s, d)) && enq[j].1.len() <= enq[i].1.len() + 1;
        assert(e2[j] == enq[j]);
    }
    assert forall|s: int, d: int| pour_before(s, d, src, dst) && #[trigger] pour_ok(e2[ci].0, s, d) implies covered(e2, ci, s, d) by {
        assert(e2[ci] == enq[ci]);
        assert(covered(enq, ci, s, d));
        let j = choose|j: int|
            0 <= j < enq.len() && same_bottles(#[trigger] enq[j].0, poured(enq[ci].0, s, d)) && enq[j].1.len() <= enq[ci].1.len() + 1;
        assert(e2[j] == enq[j]);
    }
}

} // verus!
