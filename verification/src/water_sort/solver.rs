use vstd::prelude::*;
use std::collections::VecDeque;
use crate::water_sort::game::{GameState, pour_ok, poured, solved, uviews, sorted_lex};
use crate::water_sort::seen::SeenStates;
use crate::water_sort::search::{
    bfs_inv, covered, expanded, lemma_empty_choice, lemma_expanded_grow, lemma_no_shorter, lemma_same_solved, gives_up,
    form_within, many_within, same_bottles,
};

verus! {

/// A pour from bottle `src` to bottle `dst`.
#[derive(Clone, Copy, Debug)]
pub struct Move {
    pub src: usize,
    pub dst: usize,
}

/// The bottles after the moves, one pour after the other; None when some
/// move is not allowed where it is played.
pub open spec fn replay(m: Seq<Seq<u8>>, moves: Seq<Move>) -> Option<Seq<Seq<u8>>>
    decreases moves.len(),
{
    if moves.len() == 0 {
        Some(m)
    } else {
        let mv = moves.last();
        match replay(m, moves.drop_last()) {
            Some(p) => if pour_ok(p, mv.src as int, mv.dst as int) {
                Some(poured(p, mv.src as int, mv.dst as int))
            } else {
                None
            },
            None => None,
        }
    }
}

/// The moves solve the puzzle: each is allowed where it is played and the
/// bottles end solved.
pub open spec fn solves(m: Seq<Seq<u8>>, moves: Seq<Move>) -> bool {
    replay(m, moves) matches Some(f) && solved(f)
}

/// Pouring from `src` into `dst` solves the puzzle at once, and `dst` is
/// not an empty bottle after the first empty one (the search pours into
/// the first empty bottle only).
pub open spec fn quick_pour(m: Seq<Seq<u8>>, src: int, dst: int) -> bool {
    &&& pour_ok(m, src, dst)
    &&& !(m[dst].len() == 0 && exists|i: int| 0 <= i < dst && m[i].len() == 0)
    &&& solved(poured(m, src, dst))
}

/// Pour (s, d) comes before pour (s2, d2): by source, then destination.
pub open spec fn pour_before(s: int, d: int, s2: int, d2: int) -> bool {
    s < s2 || (s == s2 && d < d2)
}

/// (src, dst) is the first pour, in that order, that solves the puzzle at
/// once.
pub open spec fn first_quick_pour(m: Seq<Seq<u8>>, src: int, dst: int) -> bool {
    &&& quick_pour(m, src, dst)
    &&& forall|s: int, d: int| pour_before(s, d, src, dst) ==> !#[trigger] quick_pour(m, s, d)
}

/// No pour solves the puzzle at once.
pub open spec fn no_quick_pour(m: Seq<Seq<u8>>) -> bool {
    forall|s: int, d: int| !#[trigger] quick_pour(m, s, d)
}

/// Most states the search expands before giving up.
pub const MAX_STATES: usize = 200_000;

/// A copy of a move list.
fn copy_moves(v: &Vec<Move>) -> (c: Vec<Move>)
    ensures
        c@ == v@,
{
    let mut c: Vec<Move> = Vec::new();
    let mut i: usize = 0;
    while i < v.len()
        invariant
            i <= v@.len(),
            c@ == v@.subrange(0, i as int),
        decreases v@.len() - i,
    {
        c.push(v[i]);
        assert(c@ =~= v@.subrange(0, i + 1));
        i += 1;
    }
    assert(c@ =~= v@);
    c
}

/// Index of the first empty bottle of the state.
fn first_empty(state: &GameState) -> (k: usize)
    requires
        exists|i: int| 0 <= i < state.bottles@.len() && state.bottles@[i].units@.len() == 0,
    ensures
        k < state.bottles@.len(),
        state.bottles@[k as int].units@.len() == 0,
        forall|i: int| 0 <= i < k ==> #[trigger] state.bottles@[i].units@.len() != 0,
{
    let mut k: usize = 0;
    while k < state.bottles.len()
        invariant
            k <= state.bottles@.len(),
            exists|i: int| k <= i < state.bottles@.len() && state.bottles@[i].units@.len() == 0,
            forall|i: int| 0 <= i < k ==> #[trigger] state.bottles@[i].units@.len() != 0,
        decreases state.bottles@.len() - k,
    {
        if state.bottles[k].is_empty() {
            return k;
        }
        k += 1;
    }
    k
}

/// Breadth-first search for a sequence of pours that solves the puzzle,
/// skipping states whose sorted bottles were already seen and pouring into
/// the first empty bottle only; the pours returned are a shortest solution.
/// Gives up (None) after taking 200 000 states from the queue: then, for
/// some number of pours k, more than 200 000 different sorted bottle lists
/// lie within k pours and every solution takes more than k pours. Any other
/// None means that no sequence of pours solves the puzzle. The
/// search counts its pours from zero, whatever the state's move count.
pub fn solve(initial: &GameState) -> (res: Option<Vec<Move>>)
    ensures
        res matches Some(ms) ==> solves(initial.view_bottles(), ms@),
        res matches Some(ms) ==> forall|ms2: Seq<Move>| #[trigger] solves(initial.view_bottles(), ms2) ==> ms@.len() <= ms2.len(),
        res is None ==> !(exists|ms: Seq<Move>| #[trigger] solves(initial.view_bottles(), ms)) || gives_up(
            initial.view_bottles(),
            MAX_STATES as int,
        ),
        solved(initial.view_bottles()) ==> (res matches Some(ms) && ms@.len() == 0),
        !solved(initial.view_bottles()) && !no_quick_pour(initial.view_bottles()) ==> (res matches Some(ms)
            && ms@.len() == 1 && first_quick_pour(initial.view_bottles(), ms@[0].src as int, ms@[0].dst as int)),
{
    if initial.is_solved() {
        return Some(Vec::new());
    }
    let ghost m0 = initial.view_bottles();
    let mut visited = SeenStates::new();
    let key0 = initial.canonical();
    let ghost k0 = uviews(key0@);
    visited.insert(key0);
    let mut queue: VecDeque<(GameState, Vec<Move>)> = VecDeque::new();
    let mut start = initial.duplicate();
    start.moves = 0;
    queue.push_back((start, Vec::new()));
    let ghost mut enq: Seq<(Seq<Seq<u8>>, Seq<Move>)> = seq![(m0, Seq::<Move>::empty())];
    let ghost mut keys: Seq<Seq<Seq<u8>>> = seq![k0];
    proof {
        assert(keys.to_set() =~= Set::<Seq<Seq<u8>>>::empty().insert(k0)) by {
            assert forall|x: Seq<Seq<u8>>| keys.to_set().contains(x) <==> x == k0 by {
                if keys.contains(x) {
                    let i = choose|i: int| 0 <= i < keys.len() && keys[i] == x;
                }
                if x == k0 {
                    assert(keys[0] == x);
                }
            }
        }
        assert(replay(m0, Seq::<Move>::empty()) == Some(m0));
    }
    let max_states = MAX_STATES;
    let mut explored: usize = 0;
    while queue.len() > 0
        invariant
            explored <= max_states,
            max_states == MAX_STATES,
            m0 == initial.view_bottles(),
            !solved(m0),
            visited.wf(),
            bfs_inv(m0, enq, keys, visited.contents(), explored as int),
            expanded(enq, explored as int),
            queue@.len() == enq.len() - explored,
            forall|k: int|
                0 <= k < queue@.len() ==> (#[trigger] queue@[k]).0.view_bottles() == enq[explored + k].0 && queue@[k].1@
                    == enq[explored + k].1 && queue@[k].0.moves <= explored,
            explored == 0 ==> queue@.len() == 1 && queue@[0].1@.len() == 0 && queue@[0].0.view_bottles() == m0,
            explored > 0 ==> no_quick_pour(m0),
        decreases max_states - explored,
    {
        let ghost q0 = queue@;
        let (state, moves) = queue.pop_front().unwrap();
        let ghost ci = explored as int;
        proof {
            assert((state, moves) == q0[0]);
            assert(state.view_bottles() == enq[ci].0 && moves@ == enq[ci].1);
        }
        explored += 1;
        if explored > max_states {
            proof {
                let dk = enq[ci].1.len() as int;
                let cs = keys.take(ci + 1);
                assert forall|i: int| 0 <= i < cs.len() implies #[trigger] form_within(m0, cs[i], dk) by {
                    assert(cs[i] == keys[i]);
                    assert(enq[i].1.len() <= enq[ci].1.len());
                    assert(replay(m0, enq[i].1) is Some);
                    assert(replay(m0, enq[i].1).unwrap() == enq[i].0);
                }
                assert(cs.no_duplicates()) by {
                    assert forall|i: int, j: int| 0 <= i < j < cs.len() implies cs[i] != cs[j] by {
                        assert(cs[i] == keys[i] && cs[j] == keys[j]);
                    }
                }
                assert(many_within(m0, MAX_STATES as int, dk));
                assert forall|ms: Seq<Move>| #[trigger] solves(m0, ms) implies ms.len() > dk by {
                    assert forall|j: int| ci <= j < enq.len() implies (#[trigger] enq[j]).1.len() >= dk by {
                        assert(enq[ci].1.len() <= enq[j].1.len());
                    }
                    lemma_no_shorter(m0, enq, ci, dk, ms);
                }
                assert(gives_up(m0, MAX_STATES as int));
            }
            return None;
        }
        proof {
            assert forall|k: int| 0 <= k < queue@.len() implies (#[trigger] queue@[k]).0.view_bottles() == enq[explored + k].0
                && queue@[k].1@ == enq[explored + k].1 && queue@[k].0.moves <= explored by {
                assert(queue@[k] == q0[k + 1]);
            }
        }
        let n = state.bottles.len();
        let mut src: usize = 0;
        while src < n
            invariant
                n == state.bottles@.len(),
                explored <= max_states,
                max_states == MAX_STATES,
                m0 == initial.view_bottles(),
                !solved(m0),
                ci == explored - 1,
                visited.wf(),
                bfs_inv(m0, enq, keys, visited.contents(), explored as int),
                expanded(enq, ci),
                forall|s: int, d: int|
                    pour_before(s, d, src as int, 0) && #[trigger] pour_ok(enq[ci].0, s, d) ==> covered(enq, ci, s, d),
                state.view_bottles() == enq[ci].0,
                moves@ == enq[ci].1,
                queue@.len() == enq.len() - explored,
                forall|k: int|
                    0 <= k < queue@.len() ==> (#[trigger] queue@[k]).0.view_bottles() == enq[explored + k].0 && queue@[k].1@
                        == enq[explored + k].1 && queue@[k].0.moves <= explored,
                replay(m0, moves@) == Some(state.view_bottles()),
                state.moves < explored,
                explored >= 1,
                src <= n,
                explored == 1 ==> moves@.len() == 0 && state.view_bottles() == m0 && forall|s: int, d: int|
                    s < src ==> !#[trigger] quick_pour(m0, s, d),
                explored > 1 ==> no_quick_pour(m0),
            decreases n - src,
        {
            let mut dst: usize = 0;
            while dst < n
                invariant
                    n == state.bottles@.len(),
                    src < n,
                    explored <= max_states,
                    max_states == MAX_STATES,
                    m0 == initial.view_bottles(),
                    !solved(m0),
                    ci == explored - 1,
                    visited.wf(),
                    bfs_inv(m0, enq, keys, visited.contents(), explored as int),
                    expanded(enq, ci),
                    forall|s: int, d: int|
                        pour_before(s, d, src as int, dst as int) && #[trigger] pour_ok(enq[ci].0, s, d) ==> covered(enq, ci, s, d),
                    state.view_bottles() == enq[ci].0,
                    moves@ == enq[ci].1,
                    queue@.len() == enq.len() - explored,
                    forall|k: int|
                        0 <= k < queue@.len() ==> (#[trigger] queue@[k]).0.view_bottles() == enq[explored + k].0
                            && queue@[k].1@ == enq[explored + k].1 && queue@[k].0.moves <= explored,
                    replay(m0, moves@) == Some(state.view_bottles()),
                    state.moves < explored,
                    explored >= 1,
                    dst <= n,
                    explored == 1 ==> moves@.len() == 0 && state.view_bottles() == m0 && forall|s: int, d: int|
                        pour_before(s, d, src as int, dst as int) ==> !#[trigger] quick_pour(m0, s, d),
                    explored > 1 ==> no_quick_pour(m0),
                decreases n - dst,
            {
                let ghost here_quick = quick_pour(m0, src as int, dst as int);
                let ghost c = enq[ci].0;
                if state.can_pour(src, dst) {
                    let skip = if state.bottles[dst].is_empty() {
                        let k = first_empty(&state);
                        proof {
                            if explored == 1 {
                                assert(state.view_bottles()[k as int] == state.bottles@[k as int].units@);
                                if dst != k {
                                    assert(k < dst) by {
                                        if dst < k {
                                            assert(state.bottles@[dst as int].units@.len() != 0);
                                        }
                                    }
                                    assert(m0[k as int].len() == 0);
                                } else {
                                    assert forall|i: int| 0 <= i < dst implies m0[i].len() != 0 by {
                                        assert(state.view_bottles()[i] == state.bottles@[i].units@);
                                        assert(state.bottles@[i].units@.len() != 0);
                                    }
                                }
                            }
                            if dst != k {
                                assert(k < dst) by {
                                    if dst < k {
                                        assert(state.bottles@[dst as int].units@.len() != 0);
                                    }
                                }
                                assert(c[k as int] == state.bottles@[k as int].units@);
                                assert(c[dst as int] == state.bottles@[dst as int].units@);
                                lemma_empty_choice(c, src as int, dst as int, k as int);
                                assert(pour_before(src as int, k as int, src as int, dst as int));
                                assert(covered(enq, ci, src as int, k as int));
                                let j = choose|j: int|
                                    0 <= j < enq.len() && same_bottles(#[trigger] enq[j].0, poured(c, src as int, k as int))
                                        && enq[j].1.len() <= enq[ci].1.len() + 1;
                                if solved(poured(c, src as int, dst as int)) {
                                    lemma_same_solved(poured(c, src as int, dst as int), poured(c, src as int, k as int));
                                }
                                assert(same_bottles(enq[j].0, poured(c, src as int, dst as int)));
                                assert(covered(enq, ci, src as int, dst as int));
                            }
                        }
                        dst != k
                    } else {
                        false
                    };
                    proof {
                        if explored == 1 {
                            assert(skip ==> !here_quick);
                        }
                    }
                    if !skip {
                        let mut next = state.duplicate();
                        next.pour(src, dst);
                        let mut new_moves = copy_moves(&moves);
                        new_moves.push(Move { src, dst });
                        proof {
                            assert(new_moves@.drop_last() =~= moves@);
                            assert(replay(m0, new_moves@) == Some(next.view_bottles()));
                        }
                        if next.is_solved() {
                            proof {
                                if explored == 1 {
                                    assert(new_moves@[0] == Move { src, dst });
                                    assert(quick_pour(m0, src as int, dst as int));
                                }
                                assert forall|ms2: Seq<Move>| #[trigger] solves(m0, ms2) implies new_moves@.len() <= ms2.len() by {
                                    assert forall|j: int| ci <= j < enq.len() implies (#[trigger] enq[j]).1.len() >= enq[ci].1.len() by {
                                        assert(enq[ci].1.len() <= enq[j].1.len());
                                    }
                                    lemma_no_shorter(m0, enq, ci, enq[ci].1.len() as int, ms2);
                                }
                            }
                            return Some(new_moves);
                        }
                        proof {
                            if explored == 1 {
                                assert(!here_quick);
                            }
                        }
                        let canonical = next.canonical();
                        let ghost key = uviews(canonical@);
                        if !visited.contains(&canonical) {
                            visited.insert(canonical);
                            let ghost entry = (next.view_bottles(), new_moves@);
                            let ghost old_enq = enq;
                            let ghost old_keys = keys;
                            proof {
                                lemma_expanded_grow(enq, entry, ci, ci, src as int, dst as int);
                                enq = enq.push(entry);
                                keys = keys.push(key);
                                assert(!old_keys.contains(key));
                                assert(keys.to_set() =~= old_keys.to_set().insert(key)) by {
                                    assert forall|x: Seq<Seq<u8>>| keys.contains(x) <==> old_keys.contains(x) || x == key by {
                                        if keys.contains(x) {
                                            let i = choose|i: int| 0 <= i < keys.len() && keys[i] == x;
                                            if i < old_keys.len() {
                                                assert(old_keys[i] == x);
                                            }
                                        }
                                        if old_keys.contains(x) {
                                            let i = choose|i: int| 0 <= i < old_keys.len() && old_keys[i] == x;
                                            assert(keys[i] == x);
                                        }
                                        if x == key {
                                            assert(keys[old_keys.len() as int] == x);
                                        }
                                    }
                                }
                                assert forall|i: int, j: int| 0 <= i < j < keys.len() implies keys[i] != keys[j] by {
                                    if j == old_keys.len() {
                                        assert(old_keys.contains(keys[i]));
                                    } else {
                                        assert(old_keys[i] == keys[i] && old_keys[j] == keys[j]);
                                    }
                                }
                                assert forall|i: int| 0 <= i < enq.len() implies replay(m0, (#[trigger] enq[i]).1) == Some(enq[i].0)
                                    && !solved(enq[i].0) && sorted_lex(keys[i]) && keys[i].to_multiset() == enq[i].0.to_multiset() by {
                                    if i < old_enq.len() {
                                        assert(enq[i] == old_enq[i]);
                                        assert(keys[i] == old_keys[i]);
                                    }
                                }
                                assert forall|i: int, j: int| 0 <= i <= j < enq.len() implies (#[trigger] enq[i]).1.len() <= (
                                #[trigger] enq[j]).1.len() by {
                                    if j < old_enq.len() {
                                        assert(enq[i] == old_enq[i] && enq[j] == old_enq[j]);
                                    } else if i < old_enq.len() {
                                        assert(enq[i] == old_enq[i]);
                                        assert(old_enq[i].1.len() <= old_enq[ci].1.len() + 1);
                                    }
                                }
                                assert forall|j: int| 0 <= j < enq.len() implies (#[trigger] enq[j]).1.len() <= enq[explored - 1].1.len() + 1 by {
                                    if j < old_enq.len() {
                                        assert(enq[j] == old_enq[j]);
                                    }
                                }
                                assert(enq[ci] == old_enq[ci]);
                                assert(enq[0] == old_enq[0]);
                                let jn = old_enq.len() as int;
                                assert(same_bottles(enq[jn].0, poured(c, src as int, dst as int)));
                                assert(covered(enq, ci, src as int, dst as int));
                            }
                            queue.push_back((next, new_moves));
                            proof {
                                assert forall|k: int| 0 <= k < queue@.len() implies (#[trigger] queue@[k]).0.view_bottles()
                                    == enq[explored + k].0 && queue@[k].1@ == enq[explored + k].1 && queue@[k].0.moves <= explored by {
                                    if k < queue@.len() - 1 {
                                        assert(enq[explored + k] == old_enq[explored + k]);
                                    }
                                }
                            }
                        } else {
                            proof {
                                assert(keys.to_set().contains(key));
                                let i = choose|i: int| 0 <= i < keys.len() && keys[i] == key;
                                assert(keys[i].to_multiset() == enq[i].0.to_multiset());
                                assert(enq[i].1.len() <= enq[ci].1.len() + 1);
                                assert(same_bottles(enq[i].0, poured(c, src as int, dst as int)));
                                assert(covered(enq, ci, src as int, dst as int));
                            }
                        }
                    }
                }
                proof {
                    if explored == 1 {
                        assert forall|s: int, d: int| pour_before(s, d, src as int, dst + 1) implies !#[trigger] quick_pour(
                            m0,
                            s,
                            d,
                        ) by {
                            if s == src && d == dst {
                                assert(!here_quick);
                            }
                        }
                    }
                    assert forall|s: int, d: int|
                        pour_before(s, d, src as int, dst + 1) && #[trigger] pour_ok(enq[ci].0, s, d) implies covered(
                        enq,
                        ci,
                        s,
                        d,
                    ) by {
                        if !(s == src && d == dst) {
                            assert(pour_before(s, d, src as int, dst as int));
                        }
                    }
                }
                dst += 1;
            }
            proof {
                if explored == 1 {
                    assert forall|s: int, d: int| s < src + 1 implies !#[trigger] quick_pour(m0, s, d) by {
                        if s == src {
                            assert(pour_before(s, d, src as int, dst as int) || d >= n);
                        }
                    }
                }
                assert forall|s: int, d: int| pour_before(s, d, src + 1, 0) && #[trigger] pour_ok(enq[ci].0, s, d) implies covered(
                    enq,
                    ci,
                    s,
                    d,
                ) by {
                    assert(pour_before(s, d, src as int, n as int));
                }
            }
            src += 1;
        }
        proof {
            if explored == 1 {
                assert forall|s: int, d: int| !#[trigger] quick_pour(m0, s, d) by {
                    if s >= src {
                        assert(!pour_ok(m0, s, d));
                    }
                }
            }
            assert forall|i: int, s: int, d: int| 0 <= i < explored && #[trigger] pour_ok(enq[i].0, s, d) implies covered(
                enq,
                i,
                s,
                d,
            ) by {
                if i == ci {
                    assert(pour_before(s, d, n as int, 0));
                }
            }
        }
    }
    proof {
        assert forall|ms: Seq<Move>| !#[trigger] solves(m0, ms) by {
            if solves(m0, ms) {
                lemma_no_shorter(m0, enq, enq.len() as int, ms.len() as int, ms);
            }
        }
    }
    None
}

/// True when the search finds a solution. False means that no sequence of
/// pours solves the puzzle, or that the search gave up (see `solve`).
pub fn is_solvable(state: &GameState) -> (b: bool)
    ensures
        b ==> exists|ms: Seq<Move>| solves(state.view_bottles(), ms),
        !b ==> !(exists|ms: Seq<Move>| #[trigger] solves(state.view_bottles(), ms)) || gives_up(
            state.view_bottles(),
            MAX_STATES as int,
        ),
        solved(state.view_bottles()) ==> b,
{
    match solve(state) {
        Some(ms) => true,
        None => false,
    }
}

} // verus!
