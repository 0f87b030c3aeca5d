use vstd::prelude::*;
use crate::entropy::get_seed;
use crate::sudoku::board::{Board, set_cell, well_shaped, in_box, box_copied, box_origin_of, complete};
use crate::sudoku::solver::{
    solve, count_solutions, is_fill, at_most_one_fill, has_fill, two_fills, is_solution, cell_ok, lemma_grid_ext,
    unique_fill, lemma_count_unique, search, grid_zeros,
};
use crate::multi_sudoku::generator::{lemma_restore, has_blank};
use crate::sudoku::generator::{
    Rng, fill_box, all_positions, lemma_one_blank_unique, generate_solved, grid_positions, digits19, shuffles_state,
    solved_from, clues_within, lemma_two_fills_widen, lemma_not_unique_two_fills, lemma_clear_adds_zero,
};
use crate::generic_sudoku::config::{
    BoardPlacement, PuzzleConfig, OverlapInfo, covers, owner_table, table_upto, listed_owners, span_rows, span_cols,
    placements_fit, entry_ok, lemma_table_entries, lemma_table_keys,
};
use crate::generic_sudoku::generic_board::{GenericMultiBoard, copy_config, lemma_listed};
use crate::xorshift::{lemma_shuffle_permutes, shuffle_from};

verus! {

/// The meta-cells, in table order, that boards `a` and `b` both cover.
pub open spec fn shared_cells(t: Seq<((usize, usize), Seq<usize>)>, a: usize, b: usize) -> Seq<(usize, usize)>
    decreases t.len(),
{
    if t.len() == 0 {
        Seq::empty()
    } else {
        let rest = shared_cells(t.drop_last(), a, b);
        if t.last().1.contains(a) && t.last().1.contains(b) {
            rest.push(t.last().0)
        } else {
            rest
        }
    }
}

/// Every meta-cell shared by `a` and `b` is listed with both as owners.
proof fn lemma_shared_cells(t: Seq<((usize, usize), Seq<usize>)>, a: usize, b: usize)
    ensures
        forall|k: int|
            0 <= k < shared_cells(t, a, b).len() ==> exists|i: int|
                0 <= i < t.len() && (#[trigger] t[i]).0 == #[trigger] shared_cells(t, a, b)[k] && t[i].1.contains(a)
                    && t[i].1.contains(b),
    decreases t.len(),
{
    if t.len() > 0 {
        lemma_shared_cells(t.drop_last(), a, b);
        let rest = shared_cells(t.drop_last(), a, b);
        let s = shared_cells(t, a, b);
        assert forall|k: int| 0 <= k < s.len() implies exists|i: int|
            0 <= i < t.len() && (#[trigger] t[i]).0 == #[trigger] s[k] && t[i].1.contains(a) && t[i].1.contains(b) by {
            if k < rest.len() {
                assert(s[k] == rest[k]);
                let i = choose|i: int|
                    0 <= i < t.drop_last().len() && (#[trigger] t.drop_last()[i]).0 == #[trigger] rest[k]
                        && t.drop_last()[i].1.contains(a) && t.drop_last()[i].1.contains(b);
                assert(t[i] == t.drop_last()[i]);
            } else {
                assert(t[t.len() - 1] == t.last());
            }
        }
    }
}

/// A meta-cell shared by two boards of a layout is covered by both.
proof fn lemma_shared_covered(b: Seq<BoardPlacement>, x: usize, y: usize, k: int)
    requires
        b.len() <= usize::MAX,
        placements_fit(b),
        0 <= k < shared_cells(owner_table(b), x, y).len(),
    ensures
        x < b.len(),
        y < b.len(),
        covers(b[x as int], shared_cells(owner_table(b), x, y)[k].0 as int, shared_cells(owner_table(b), x, y)[k].1 as int),
        covers(b[y as int], shared_cells(owner_table(b), x, y)[k].0 as int, shared_cells(owner_table(b), x, y)[k].1 as int),
{
    let t = owner_table(b);
    lemma_shared_cells(t, x, y);
    if span_cols(b) > 0 {
        lemma_table_entries(b, span_cols(b), span_rows(b) * span_cols(b));
    }
    let i = choose|i: int|
        0 <= i < t.len() && (#[trigger] t[i]).0 == #[trigger] shared_cells(t, x, y)[k] && t[i].1.contains(x)
            && t[i].1.contains(y);
    assert(entry_ok(b, t[i]));
    let jx = choose|j: int| 0 <= j < t[i].1.len() && t[i].1[j] == x;
    let jy = choose|j: int| 0 <= j < t[i].1.len() && t[i].1[j] == y;
    assert(t[i].1[jx] < b.len());
    assert(t[i].1[jy] < b.len());
}

/// The order as boards and the board each was reached from.
pub open spec fn plan_of(order: Seq<(usize, Option<(usize, Vec<(usize, usize)>)>)>) -> Seq<(usize, Option<usize>)> {
    Seq::new(
        order.len(),
        |i: int|
            (
                order[i].0,
                match order[i].1 {
                    Some(ps) => Some(ps.0),
                    None => None,
                },
            ),
    )
}

/// The search step over the owners `os` of one meta-cell, from owner `m`
/// on: each owner other than `current` not yet reached is appended,
/// reached from `current`.
pub open spec fn visit_owners(
    os: Seq<usize>,
    current: usize,
    m: int,
    ord: Seq<(usize, Option<usize>)>,
    vis: Seq<bool>,
) -> (Seq<(usize, Option<usize>)>, Seq<bool>)
    decreases os.len() - m,
{
    if 0 <= m < os.len() {
        let nb = os[m];
        if nb != current && nb < vis.len() && !vis[nb as int] {
            visit_owners(os, current, m + 1, ord.push((nb, Some(current))), vis.update(nb as int, true))
        } else {
            visit_owners(os, current, m + 1, ord, vis)
        }
    } else {
        (ord, vis)
    }
}

/// The search step from board `current` over the meta-cells of the table
/// from entry `e` on.
pub open spec fn visit_table(
    t: Seq<((usize, usize), Seq<usize>)>,
    current: usize,
    e: int,
    ord: Seq<(usize, Option<usize>)>,
    vis: Seq<bool>,
) -> (Seq<(usize, Option<usize>)>, Seq<bool>)
    decreases t.len() - e,
{
    if 0 <= e < t.len() {
        let next = if t[e].1.contains(current) {
            visit_owners(t[e].1, current, 0, ord, vis)
        } else {
            (ord, vis)
        };
        visit_table(t, current, e + 1, next.0, next.1)
    } else {
        (ord, vis)
    }
}

/// The breadth-first search from position `head` of the order on.
pub open spec fn bfs(
    t: Seq<((usize, usize), Seq<usize>)>,
    head: int,
    ord: Seq<(usize, Option<usize>)>,
    vis: Seq<bool>,
    n: int,
) -> (Seq<(usize, Option<usize>)>, Seq<bool>)
    decreases n - head,
{
    if 0 <= head < ord.len() && ord.len() <= n {
        let next = visit_table(t, ord[head].0, 0, ord, vis);
        bfs(t, head + 1, next.0, next.1, n)
    } else {
        (ord, vis)
    }
}

/// The boards from `x` on that the search did not reach, appended in
/// increasing order.
pub open spec fn add_unreached(x: int, n: int, ord: Seq<(usize, Option<usize>)>, vis: Seq<bool>) -> (
    Seq<(usize, Option<usize>)>,
    Seq<bool>,
)
    decreases n - x,
{
    if 0 <= x < n && x < vis.len() {
        if !vis[x] {
            add_unreached(x + 1, n, ord.push((x as usize, None)), vis.update(x, true))
        } else {
            add_unreached(x + 1, n, ord, vis)
        }
    } else {
        (ord, vis)
    }
}

/// The generation order of a layout: a breadth-first search from board 0
/// over the table of shared meta-cells, then every board not reached.
pub open spec fn generation_plan(pl: Seq<BoardPlacement>) -> Seq<(usize, Option<usize>)> {
    let n = pl.len() as int;
    let searched = bfs(owner_table(pl), 0, seq![(0usize, None::<usize>)], Seq::new(pl.len(), |i: int| i == 0), n);
    add_unreached(0, n, searched.0, searched.1).0
}

/// The order in which boards are generated, from a breadth-first search
/// from board 0 over boards that share meta-cells, then every board not
/// reached. Each board reached from another comes with that earlier board
/// and the meta-cells the two share.
fn generation_order(config: &PuzzleConfig) -> (order: Vec<(usize, Option<(usize, Vec<(usize, usize)>)>)>)
    requires
        placements_fit(config.boards@),
        config.boards@.len() > 0,
    ensures
        plan_of(order@) == generation_plan(config.boards@),
        order@.len() == config.boards@.len(),
        order@[0].0 == 0 && order@[0].1 is None,
        forall|i: int| 0 <= i < order@.len() ==> (#[trigger] order@[i]).0 < config.boards@.len(),
        forall|i: int, j: int| 0 <= i < j < order@.len() ==> (#[trigger] order@[i]).0 != (#[trigger] order@[j]).0,
        forall|x: int| 0 <= x < config.boards@.len() ==> #[trigger] has_key(order@, x),
        forall|i: int|
            0 <= i < order@.len() ==> ((#[trigger] order@[i]).1 matches Some((p, sh)) ==> {
                &&& sh@ == shared_cells(owner_table(config.boards@), p, order@[i].0)
                &&& sh@.len() > 0
                &&& p != order@[i].0
                &&& exists|j: int| 0 <= j < i && order@[j].0 == p
            }),
{
    let n = config.boards.len();
    let info = config.compute_overlaps();
    let ghost t = info.table();
    let mut visited: Vec<bool> = Vec::new();
    let mut k: usize = 0;
    while k < n
        invariant
            k <= n,
            visited@.len() == k,
            forall|x: int| 0 <= x < k ==> !#[trigger] visited@[x],
        decreases n - k,
    {
        visited.push(false);
        k += 1;
    }
    let mut order: Vec<(usize, Option<(usize, Vec<(usize, usize)>)>)> = Vec::new();
    visited.set(0, true);
    order.push((0, None));
    let ghost goal = bfs(t, 0, seq![(0usize, None::<usize>)], Seq::new(n as nat, |i: int| i == 0), n as int);
    proof {
        assert(plan_of(order@) =~= seq![(0usize, None::<usize>)]);
        assert(visited@ =~= Seq::new(n as nat, |i: int| i == 0));
    }
    let mut head: usize = 0;
    while head < order.len()
        invariant
            bfs(t, head as int, plan_of(order@), visited@, n as int) == goal,
            n == config.boards@.len(),
            n > 0,
            placements_fit(config.boards@),
            order@.len() > 0,
            t == info.table(),
            t == owner_table(config.boards@),
            visited@.len() == n,
            head <= order@.len(),
            order@.len() <= n,
            order@[0].0 == 0 && order@[0].1 is None,
            forall|i: int| 0 <= i < order@.len() ==> (#[trigger] order@[i]).0 < n,
            forall|i: int| 0 <= i < order@.len() ==> visited@[(#[trigger] order@[i]).0 as int],
            forall|x: int| 0 <= x < n && #[trigger] visited@[x] ==> exists|i: int| 0 <= i < order@.len() && order@[i].0 == x,
            forall|i: int, j: int| 0 <= i < j < order@.len() ==> (#[trigger] order@[i]).0 != (#[trigger] order@[j]).0,
            forall|i: int|
                0 <= i < order@.len() ==> ((#[trigger] order@[i]).1 matches Some((p, sh)) ==> {
                    &&& sh@ == shared_cells(t, p, order@[i].0)
                    &&& sh@.len() > 0
                    &&& p != order@[i].0
                    &&& exists|j: int| 0 <= j < i && order@[j].0 == p
                }),
        decreases n - head,
    {
        let current = order[head].0;
        let ghost p0 = plan_of(order@);
        let ghost v0 = visited@;
        let mut e: usize = 0;
        while e < info.cell_owners.len()
            invariant
                visit_table(t, current, e as int, plan_of(order@), visited@) == visit_table(t, current, 0, p0, v0),
                p0[head as int].0 == current,
                bfs(t, head as int, p0, v0, n as int) == goal,
                p0.len() <= n,
                n == config.boards@.len(),
                n > 0,
                placements_fit(config.boards@),
                order@.len() > 0,
                t == info.table(),
                t == owner_table(config.boards@),
                visited@.len() == n,
                head < order@.len(),
                current == order@[head as int].0,
                order@.len() <= n,
                order@[0].0 == 0 && order@[0].1 is None,
                forall|i: int| 0 <= i < order@.len() ==> (#[trigger] order@[i]).0 < n,
                forall|i: int| 0 <= i < order@.len() ==> visited@[(#[trigger] order@[i]).0 as int],
                forall|x: int|
                    0 <= x < n && #[trigger] visited@[x] ==> exists|i: int| 0 <= i < order@.len() && order@[i].0 == x,
                forall|i: int, j: int| 0 <= i < j < order@.len() ==> (#[trigger] order@[i]).0 != (#[trigger] order@[j]).0,
                forall|i: int|
                    0 <= i < order@.len() ==> ((#[trigger] order@[i]).1 matches Some((p, sh)) ==> {
                        &&& sh@ == shared_cells(t, p, order@[i].0)
                        &&& sh@.len() > 0
                        &&& p != order@[i].0
                        &&& exists|j: int| 0 <= j < i && order@[j].0 == p
                    }),
            decreases info.cell_owners@.len() - e,
        {
            let ghost p1 = plan_of(order@);
            let ghost v1 = visited@;
            if contains_index(&info.cell_owners[e].1, current) {
                let owners = &info.cell_owners[e].1;
                let mut m: usize = 0;
                while m < owners.len()
                    invariant
                        visit_owners(owners@, current, m as int, plan_of(order@), visited@) == visit_owners(
                            owners@,
                            current,
                            0,
                            p1,
                            v1,
                        ),
                        n == config.boards@.len(),
                        n > 0,
                        placements_fit(config.boards@),
                        order@.len() > 0,
                        t == info.table(),
                        t == owner_table(config.boards@),
                        e < t.len(),
                        owners@ == t[e as int].1,
                        t[e as int].1.contains(current),
                        visited@.len() == n,
                        head < order@.len(),
                        current == order@[head as int].0,
                        order@.len() <= n,
                        order@[0].0 == 0 && order@[0].1 is None,
                        forall|i: int| 0 <= i < order@.len() ==> (#[trigger] order@[i]).0 < n,
                        forall|i: int| 0 <= i < order@.len() ==> visited@[(#[trigger] order@[i]).0 as int],
                        forall|x: int|
                            0 <= x < n && #[trigger] visited@[x] ==> exists|i: int|
                                0 <= i < order@.len() && order@[i].0 == x,
                        forall|i: int, j: int|
                            0 <= i < j < order@.len() ==> (#[trigger] order@[i]).0 != (#[trigger] order@[j]).0,
                        forall|i: int|
                            0 <= i < order@.len() ==> ((#[trigger] order@[i]).1 matches Some((p, sh)) ==> {
                                &&& sh@ == shared_cells(t, p, order@[i].0)
                                &&& sh@.len() > 0
                                &&& p != order@[i].0
                                &&& exists|j: int| 0 <= j < i && order@[j].0 == p
                            }),
                    decreases owners@.len() - m,
                {
                    let nb = owners[m];
                    proof {
                        owner_in_range(config.boards@, e as int, m as int);
                    }
                    if nb != current && !visited[nb] {
                        let shared = shared_between(&info, current, nb);
                        proof {
                            lemma_shared_nonempty(t, e as int, current, nb);
                        }
                        let ghost vb = visited@;
                        visited.set(nb, true);
                        let ghost before = order@;
                        order.push((nb, Some((current, shared))));
                        proof {
                            assert(plan_of(order@) =~= plan_of(before).push((nb, Some(current))));
                            assert(visited@ =~= vb.update(nb as int, true));
                            assert(order@.len() <= n) by {
                                lemma_distinct_bound(order@, n as int);
                            }
                            assert forall|x: int| 0 <= x < n && #[trigger] visited@[x] implies exists|i: int|
                                0 <= i < order@.len() && order@[i].0 == x by {
                                if x == nb {
                                    assert(order@[before.len() as int].0 == x);
                                } else {
                                    let i = choose|i: int| 0 <= i < before.len() && before[i].0 == x;
                                    assert(order@[i] == before[i]);
                                }
                            }
                            assert forall|i: int| 0 <= i < order@.len() implies ((#[trigger] order@[i]).1 matches Some(
                                (p, sh),
                            ) ==> {
                                &&& sh@ == shared_cells(t, p, order@[i].0)
                                &&& sh@.len() > 0
                                &&& p != order@[i].0
                                &&& exists|j: int| 0 <= j < i && order@[j].0 == p
                            }) by {
                                if i < before.len() {
                                    assert(order@[i] == before[i]);
                                    if let Some((p, sh)) = before[i].1 {
                                        let j = choose|j: int| 0 <= j < i && before[j].0 == p;
                                        assert(order@[j] == before[j]);
                                    }
                                } else {
                                    assert(order@[head as int] == before[head as int]);
                                }
                            }
                        }
                    }
                    m += 1;
                }
            }
            e += 1;
        }
        head += 1;
    }
    let ghost searched = (plan_of(order@), visited@);
    let mut x: usize = 0;
    while x < n
        invariant
            add_unreached(x as int, n as int, plan_of(order@), visited@) == add_unreached(0, n as int, searched.0, searched.1),
            n == config.boards@.len(),
            x <= n,
            order@.len() > 0,
            visited@.len() == n,
            forall|y: int| 0 <= y < x ==> #[trigger] visited@[y],
            order@.len() <= n,
            order@[0].0 == 0 && order@[0].1 is None,
            forall|i: int| 0 <= i < order@.len() ==> (#[trigger] order@[i]).0 < n,
            forall|i: int| 0 <= i < order@.len() ==> visited@[(#[trigger] order@[i]).0 as int],
            forall|y: int| 0 <= y < n && #[trigger] visited@[y] ==> exists|i: int| 0 <= i < order@.len() && order@[i].0 == y,
            forall|i: int, j: int| 0 <= i < j < order@.len() ==> (#[trigger] order@[i]).0 != (#[trigger] order@[j]).0,
            forall|i: int|
                0 <= i < order@.len() ==> ((#[trigger] order@[i]).1 matches Some((p, sh)) ==> {
                    &&& sh@ == shared_cells(owner_table(config.boards@), p, order@[i].0)
                    &&& sh@.len() > 0
                    &&& p != order@[i].0
                    &&& exists|j: int| 0 <= j < i && order@[j].0 == p
                }),
        decreases n - x,
    {
        if !visited[x] {
            let ghost vb = visited@;
            visited.set(x, true);
            let ghost before = order@;
            order.push((x, None));
            proof {
                assert(plan_of(order@) =~= plan_of(before).push((x, None)));
                assert(visited@ =~= vb.update(x as int, true));
                assert(order@.len() <= n) by {
                    lemma_distinct_bound(order@, n as int);
                }
                assert forall|y: int| 0 <= y < n && #[trigger] visited@[y] implies exists|i: int|
                    0 <= i < order@.len() && order@[i].0 == y by {
                    if y == x {
                        assert(order@[before.len() as int].0 == y);
                    } else {
                        let i = choose|i: int| 0 <= i < before.len() && before[i].0 == y;
                        assert(order@[i] == before[i]);
                    }
                }
                assert forall|i: int| 0 <= i < order@.len() implies ((#[trigger] order@[i]).1 matches Some((p, sh)) ==> {
                    &&& sh@ == shared_cells(owner_table(config.boards@), p, order@[i].0)
                    &&& sh@.len() > 0
                    &&& p != order@[i].0
                    &&& exists|j: int| 0 <= j < i && order@[j].0 == p
                }) by {
                    if i < before.len() {
                        assert(order@[i] == before[i]);
                        if let Some((p, sh)) = before[i].1 {
                            let j = choose|j: int| 0 <= j < i && before[j].0 == p;
                            assert(order@[j] == before[j]);
                        }
                    }
                }
            }
        }
        x += 1;
    }
    proof {
        assert forall|y: int| 0 <= y < n implies #[trigger] has_key(order@, y) by {
            assert(visited@[y]);
        }
        lemma_cover_bound(order@, n as int);
    }
    order
}

/// Some entry of `s` has key `y`.
pub open spec fn has_key<T>(s: Seq<(usize, T)>, y: int) -> bool {
    exists|i: int| 0 <= i < s.len() && s[i].0 == y
}

/// True iff `v` holds `x`.
fn contains_index(v: &Vec<usize>, x: usize) -> (b: bool)
    ensures
        b == v@.contains(x),
{
    let mut i: usize = 0;
    while i < v.len()
        invariant
            i <= v@.len(),
            forall|j: int| 0 <= j < i ==> v@[j] != x,
        decreases v@.len() - i,
    {
        if v[i] == x {
            return true;
        }
        i += 1;
    }
    false
}

/// The meta-cells, in table order, that boards `a` and `b` both cover.
fn shared_between(info: &OverlapInfo, a: usize, b: usize) -> (v: Vec<(usize, usize)>)
    ensures
        v@ == shared_cells(info.table(), a, b),
{
    let mut v: Vec<(usize, usize)> = Vec::new();
    let mut i: usize = 0;
    while i < info.cell_owners.len()
        invariant
            i <= info.cell_owners@.len(),
            v@ == shared_cells(info.table().subrange(0, i as int), a, b),
        decreases info.cell_owners@.len() - i,
    {
        proof {
            let u = info.table().subrange(0, i + 1);
            assert(u.drop_last() =~= info.table().subrange(0, i as int));
        }
        if contains_index(&info.cell_owners[i].1, a) && contains_index(&info.cell_owners[i].1, b) {
            v.push(info.cell_owners[i].0);
        }
        i += 1;
    }
    assert(info.table().subrange(0, i as int) =~= info.table());
    v
}

/// An owner listed in the owner table is a board index.
proof fn owner_in_range(b: Seq<BoardPlacement>, e: int, m: int)
    requires
        b.len() <= usize::MAX,
        placements_fit(b),
        0 <= e < owner_table(b).len(),
        0 <= m < owner_table(b)[e].1.len(),
    ensures
        owner_table(b)[e].1[m] < b.len(),
{
    if span_cols(b) > 0 {
        lemma_table_entries(b, span_cols(b), span_rows(b) * span_cols(b));
        assert(entry_ok(b, owner_table(b)[e]));
    }
}

/// Two boards listed together for a meta-cell share at least that one.
proof fn lemma_shared_nonempty(t: Seq<((usize, usize), Seq<usize>)>, e: int, a: usize, b: usize)
    requires
        0 <= e < t.len(),
        t[e].1.contains(a),
        t[e].1.contains(b),
    ensures
        shared_cells(t, a, b).len() > 0,
    decreases t.len(),
{
    if e < t.len() - 1 {
        assert(t.drop_last()[e] == t[e]);
        lemma_shared_nonempty(t.drop_last(), e, a, b);
    }
}

/// A list of distinct board indices below `n` has at most `n` entries.
proof fn lemma_distinct_bound<T>(s: Seq<(usize, T)>, n: int)
    requires
        forall|i: int| 0 <= i < s.len() ==> (#[trigger] s[i]).0 < n,
        forall|i: int, j: int| 0 <= i < j < s.len() ==> (#[trigger] s[i]).0 != (#[trigger] s[j]).0,
        n >= 0,
    ensures
        s.len() <= n,
{
    let keys = Set::new(|k: int| exists|i: int| 0 <= i < s.len() && s[i].0 == k);
    let range = Set::new(|k: int| 0 <= k < n);
    assert(keys.subset_of(range));
    vstd::set_lib::lemma_int_range(0, n);
    assert(range =~= vstd::set_lib::set_int_range(0, n));
    vstd::set_lib::lemma_len_subset(keys, range);
    let keyseq = Seq::new(s.len(), |i: int| s[i].0 as int);
    assert forall|i: int, j: int| 0 <= i < j < keyseq.len() implies keyseq[i] != keyseq[j] by {
        assert(s[i].0 != s[j].0);
    }
    keyseq.unique_seq_to_set();
    assert(keyseq.to_set() =~= keys) by {
        assert forall|k: int| keys.contains(k) implies keyseq.to_set().contains(k) by {
            let i = choose|i: int| 0 <= i < s.len() && s[i].0 == k;
            assert(keyseq[i] == k);
        }
    }
}

/// A list of distinct indices that holds every index below `n`, and only
/// such, has exactly `n` entries.
proof fn lemma_cover_bound<T>(s: Seq<(usize, T)>, n: int)
    requires
        n >= 0,
        s.len() <= n,
        forall|i: int| 0 <= i < s.len() ==> (#[trigger] s[i]).0 < n,
        forall|y: int| 0 <= y < n ==> #[trigger] has_key(s, y),
    ensures
        s.len() == n,
{
    let keys = Set::new(|k: int| exists|i: int| 0 <= i < s.len() && s[i].0 == k);
    let range = vstd::set_lib::set_int_range(0, n);
    vstd::set_lib::lemma_int_range(0, n);
    assert(range.subset_of(keys)) by {
        assert forall|y: int| range.contains(y) implies keys.contains(y) by {
            assert(has_key(s, y));
        }
    }
    let keyseq = Seq::new(s.len(), |i: int| s[i].0 as int);
    assert(keyseq.to_set() =~= keys) by {
        assert forall|k: int| keys.contains(k) implies keyseq.to_set().contains(k) by {
            let i = choose|i: int| 0 <= i < s.len() && s[i].0 == k;
            assert(keyseq[i] == k);
        }
    }
    keyseq.lemma_cardinality_of_set();
    vstd::set_lib::lemma_len_subset(range, keys);
}

/// Cell (r, c) of a board placed at `dst` lies in meta-cell `m`.
pub open spec fn in_meta(dst: BoardPlacement, m: (usize, usize), r: int, c: int) -> bool {
    dst.meta_row + r / 3 == m.0 && dst.meta_col + c / 3 == m.1
}

/// Cell (r, c) of a board placed at `dst` lies in one of the meta-cells.
pub open spec fn in_any_meta(dst: BoardPlacement, cells: Seq<(usize, usize)>, r: int, c: int) -> bool {
    exists|k: int| 0 <= k < cells.len() && in_meta(dst, #[trigger] cells[k], r, c)
}

/// Copies onto `dst_board` (board `dst_idx`) the boxes of `src_board`
/// (board `src_idx`) at each of the shared meta-cells.
fn copy_overlaps(
    config: &PuzzleConfig,
    src_idx: usize,
    dst_idx: usize,
    src_board: &Board,
    dst_board: &mut Board,
    shared_meta_cells: &Vec<(usize, usize)>,
)
    requires
        src_idx < config.boards@.len(),
        dst_idx < config.boards@.len(),
        forall|k: int|
            0 <= k < shared_meta_cells@.len() ==> covers(
                config.boards@[src_idx as int],
                (#[trigger] shared_meta_cells@[k]).0 as int,
                shared_meta_cells@[k].1 as int,
            ) && covers(config.boards@[dst_idx as int], shared_meta_cells@[k].0 as int, shared_meta_cells@[k].1 as int),
    ensures
        well_shaped(final(dst_board)@),
        forall|r: int, c: int|
            0 <= r < 9 && 0 <= c < 9 ==> #[trigger] final(dst_board)@[r][c] == if in_any_meta(
                config.boards@[dst_idx as int],
                shared_meta_cells@,
                r,
                c,
            ) {
                src_board@[r + 3 * (config.boards@[dst_idx as int].meta_row - config.boards@[src_idx as int].meta_row)][c
                    + 3 * (config.boards@[dst_idx as int].meta_col - config.boards@[src_idx as int].meta_col)]
            } else {
                old(dst_board)@[r][c]
            },
{
    let ghost d0 = dst_board@;
    let ghost sp = config.boards@[src_idx as int];
    let ghost dp = config.boards@[dst_idx as int];
    proof {
        dst_board.lemma_shape();
    }
    let mut k: usize = 0;
    while k < shared_meta_cells.len()
        invariant
            k <= shared_meta_cells@.len(),
            sp == config.boards@[src_idx as int],
            dp == config.boards@[dst_idx as int],
            src_idx < config.boards@.len(),
            dst_idx < config.boards@.len(),
            forall|j: int|
                0 <= j < shared_meta_cells@.len() ==> covers(sp, (#[trigger] shared_meta_cells@[j]).0 as int, shared_meta_cells@[j].1 as int)
                    && covers(dp, shared_meta_cells@[j].0 as int, shared_meta_cells@[j].1 as int),
            well_shaped(dst_board@),
            forall|r: int, c: int|
                0 <= r < 9 && 0 <= c < 9 ==> #[trigger] dst_board@[r][c] == if in_any_meta(
                    dp,
                    shared_meta_cells@.subrange(0, k as int),
                    r,
                    c,
                ) {
                    src_board@[r + 3 * (dp.meta_row - sp.meta_row)][c + 3 * (dp.meta_col - sp.meta_col)]
                } else {
                    d0[r][c]
                },
        decreases shared_meta_cells@.len() - k,
    {
        let (mr, mc) = shared_meta_cells[k];
        let src_box = (mr - config.boards[src_idx].meta_row) * 3 + (mc - config.boards[src_idx].meta_col);
        let dst_box = (mr - config.boards[dst_idx].meta_row) * 3 + (mc - config.boards[dst_idx].meta_col);
        let ghost before = dst_board@;
        src_board.copy_box_to(src_box, dst_board, dst_box);
        proof {
            let sub = shared_meta_cells@.subrange(0, k as int);
            let sub1 = shared_meta_cells@.subrange(0, k + 1);
            assert forall|r: int, c: int| 0 <= r < 9 && 0 <= c < 9 implies #[trigger] dst_board@[r][c] == if in_any_meta(
                dp,
                sub1,
                r,
                c,
            ) {
                src_board@[r + 3 * (dp.meta_row - sp.meta_row)][c + 3 * (dp.meta_col - sp.meta_col)]
            } else {
                d0[r][c]
            } by {
                assert(in_box(dst_box as int, r, c) == in_meta(dp, (mr, mc), r, c));
                if in_any_meta(dp, sub, r, c) {
                    let j = choose|j: int| 0 <= j < sub.len() && in_meta(dp, #[trigger] sub[j], r, c);
                    assert(sub1[j] == sub[j]);
                }
                if in_any_meta(dp, sub1, r, c) && !in_meta(dp, (mr, mc), r, c) {
                    let j = choose|j: int| 0 <= j < sub1.len() && in_meta(dp, #[trigger] sub1[j], r, c);
                    if j < k {
                        assert(sub[j] == sub1[j]);
                    }
                }
                if in_meta(dp, (mr, mc), r, c) {
                    assert(sub1[k as int] == (mr, mc));
                }
            }
        }
        k += 1;
    }
    proof {
        assert(shared_meta_cells@.subrange(0, k as int) =~= shared_meta_cells@);
    }
}

/// Puzzle difficulty.
#[derive(Clone, Copy, Debug, PartialEq, Eq, Structural)]
pub enum Difficulty {
    Easy,
    Medium,
    Hard,
}

impl Difficulty {
    /// The name under which results are stored: "easy", "medium", "hard".
    pub fn name(self) -> (s: &'static str)
        ensures
            s@ == match self {
                Difficulty::Easy => "easy"@,
                Difficulty::Medium => "medium"@,
                Difficulty::Hard => "hard"@,
            },
    {
        match self {
            Difficulty::Easy => "easy",
            Difficulty::Medium => "medium",
            Difficulty::Hard => "hard",
        }
    }
}

/// Cells removed from each board: 32, 40 or 48 of 81.
pub open spec fn removal_target(d: Difficulty) -> usize {
    match d {
        Difficulty::Easy => 32,
        Difficulty::Medium => 40,
        Difficulty::Hard => 48,
    }
}

impl Difficulty {
    /// Cells to remove from each board.
    fn cells_to_remove(self) -> (n: usize)
        ensures
            n == removal_target(self),
    {
        match self {
            Difficulty::Easy => 32,
            Difficulty::Medium => 40,
            Difficulty::Hard => 48,
        }
    }
}

/// The boxes of boards `a` and `b` at meta-cell `m` hold the same values,
/// cell for cell.
pub open spec fn box_agrees(bs: Seq<Board>, pl: Seq<BoardPlacement>, m: (usize, usize), a: usize, b: usize) -> bool {
    forall|i: int, j: int|
        0 <= i < 3 && 0 <= j < 3 ==> #[trigger] bs[a as int]@[3 * (m.0 - pl[a as int].meta_row) + i][3 * (m.1
            - pl[a as int].meta_col) + j] == bs[b as int]@[3 * (m.0 - pl[b as int].meta_row) + i][3 * (m.1
            - pl[b as int].meta_col) + j]
}

/// Every meta-cell covered by exactly two boards holds the same values on
/// both.
pub open spec fn overlaps_agree(bs: Seq<Board>, pl: Seq<BoardPlacement>) -> bool {
    forall|e: int|
        0 <= e < owner_table(pl).len() && (#[trigger] owner_table(pl)[e]).1.len() == 2 ==> box_agrees(
            bs,
            pl,
            owner_table(pl)[e].0,
            owner_table(pl)[e].1[0],
            owner_table(pl)[e].1[1],
        )
}

/// Index in `order` of board `x`.
fn order_position(order: &Vec<(usize, Option<(usize, Vec<(usize, usize)>)>)>, x: usize) -> (i: usize)
    requires
        has_key(order@, x as int),
    ensures
        i < order@.len(),
        order@[i as int].0 == x,
{
    let mut i: usize = 0;
    while i < order.len()
        invariant
            i <= order@.len(),
            has_key(order@, x as int),
            forall|j: int| 0 <= j < i ==> (#[trigger] order@[j]).0 != x,
        decreases order@.len() - i,
    {
        if order[i].0 == x {
            return i;
        }
        i += 1;
    }
    proof {
        let j = choose|j: int| 0 <= j < order@.len() && order@[j].0 == x;
        assert(order@[j].0 != x);
    }
    i
}

/// Index of the box of a board placed at `p` that lies at meta-cell (mr, mc).
fn box_at(p: BoardPlacement, mr: usize, mc: usize) -> (b: usize)
    requires
        covers(p, mr as int, mc as int),
    ensures
        b == (mr - p.meta_row) * 3 + (mc - p.meta_col),
        b < 9,
{
    (mr - p.meta_row) * 3 + (mc - p.meta_col)
}

/// True iff box `box_idx` of board `idx` lies at one of the meta-cells.
fn box_occupied(config: &PuzzleConfig, idx: usize, cells: &Vec<(usize, usize)>, box_idx: usize) -> (o: bool)
    requires
        idx < config.boards@.len(),
        forall|k: int|
            0 <= k < cells@.len() ==> covers(
                config.boards@[idx as int],
                (#[trigger] cells@[k]).0 as int,
                cells@[k].1 as int,
            ),
    ensures
        o == exists|k: int|
            0 <= k < cells@.len() && (#[trigger] cells@[k]).0 * 3 + cells@[k].1 == box_idx + config.boards@[idx as int].meta_row
                * 3 + config.boards@[idx as int].meta_col,
{
    let p = config.boards[idx];
    let mut k: usize = 0;
    while k < cells.len()
        invariant
            k <= cells@.len(),
            p == config.boards@[idx as int],
            forall|j: int| 0 <= j < cells@.len() ==> covers(p, (#[trigger] cells@[j]).0 as int, cells@[j].1 as int),
            forall|j: int| 0 <= j < k ==> (#[trigger] cells@[j]).0 * 3 + cells@[j].1 != box_idx + p.meta_row * 3 + p.meta_col,
        decreases cells@.len() - k,
    {
        let (mr, mc) = cells[k];
        if box_at(p, mr, mc) == box_idx {
            return true;
        }
        k += 1;
    }
    false
}

/// The grids of a list of boards.
pub open spec fn board_grids(bs: Seq<Board>) -> Seq<Seq<Seq<u8>>> {
    Seq::new(bs.len(), |x: int| bs[x]@)
}

/// The grids with cell (r, c) of board `b` emptied on every board that
/// covers that grid cell.
pub open spec fn clear_all(
    pl: Seq<BoardPlacement>,
    t: Seq<((usize, usize), Seq<usize>)>,
    gs: Seq<Seq<Seq<u8>>>,
    b: int,
    r: int,
    c: int,
) -> Seq<Seq<Seq<u8>>> {
    let gr = 3 * pl[b].meta_row + r;
    let gc = 3 * pl[b].meta_col + c;
    Seq::new(
        gs.len(),
        |x: int|
            if touched_at(pl, t, b, r, c, x) {
                set_cell(gs[x], gr - 3 * pl[x].meta_row, gc - 3 * pl[x].meta_col, 0)
            } else {
                gs[x]
            },
    )
}

/// Emptying cell (r, c) of board `b` keeps a single completion on every
/// board touched.
pub open spec fn kept_all(
    pl: Seq<BoardPlacement>,
    t: Seq<((usize, usize), Seq<usize>)>,
    gs: Seq<Seq<Seq<u8>>>,
    b: int,
    r: int,
    c: int,
) -> bool {
    forall|x: int| 0 <= x < gs.len() && touched_at(pl, t, b, r, c, x) ==> #[trigger] unique_fill(clear_all(pl, t, gs, b, r, c)[x])
}

/// The grids after clearing on board `b`, from position `p` of
/// `positions` on, each filled cell whose clearing is kept, until `target`
/// cells in all are cleared (`removed` of them already).
pub open spec fn layout_removal(
    pl: Seq<BoardPlacement>,
    t: Seq<((usize, usize), Seq<usize>)>,
    gs: Seq<Seq<Seq<u8>>>,
    b: int,
    positions: Seq<(usize, usize)>,
    p: int,
    removed: int,
    target: int,
) -> Seq<Seq<Seq<u8>>>
    decreases positions.len() - p,
{
    if 0 <= p < positions.len() && removed < target {
        let r = positions[p].0 as int;
        let c = positions[p].1 as int;
        if gs[b][r][c] != 0 && kept_all(pl, t, gs, b, r, c) {
            layout_removal(pl, t, clear_all(pl, t, gs, b, r, c), b, positions, p + 1, removed + 1, target)
        } else {
            layout_removal(pl, t, gs, b, positions, p + 1, removed, target)
        }
    } else {
        gs
    }
}

/// Cell (r, c) of board `b` cannot be cleared keeping single completions:
/// on some board it touches, emptying that grid cell leaves two
/// completions.
pub open spec fn layout_blocked(
    pl: Seq<BoardPlacement>,
    t: Seq<((usize, usize), Seq<usize>)>,
    gs: Seq<Seq<Seq<u8>>>,
    b: int,
    r: int,
    c: int,
) -> bool {
    exists|x: int| 0 <= x < gs.len() && touched_at(pl, t, b, r, c, x) && #[trigger] two_fills(clear_all(pl, t, gs, b, r, c)[x])
}

/// Every board touched by clearing a cell of a board covers that grid
/// cell: its own coordinates for it lie on its 9x9 grid.
pub open spec fn touches_in_range(pl: Seq<BoardPlacement>, t: Seq<((usize, usize), Seq<usize>)>, n: int) -> bool {
    forall|b: int, r: int, c: int, x: int|
        0 <= b < n && 0 <= r < 9 && 0 <= c < 9 && 0 <= x < n && #[trigger] touched_at(pl, t, b, r, c, x) ==> {
            &&& 0 <= 3 * pl[b].meta_row + r - 3 * pl[x].meta_row < 9
            &&& 0 <= 3 * pl[b].meta_col + c - 3 * pl[x].meta_col < 9
        }
}

/// The boards are 9x9 and their clues are those of solved boards, one
/// for each.
pub open spec fn boards_within(gs: Seq<Seq<Seq<u8>>>, sols: Seq<Seq<Seq<u8>>>) -> bool {
    &&& gs.len() == sols.len()
    &&& forall|x: int| 0 <= x < gs.len() ==> well_shaped(#[trigger] gs[x]) && well_shaped(sols[x]) && is_solution(sols[x])
        && clues_within(gs[x], sols[x])
}

proof fn lemma_layout_pass_tries(
    pl: Seq<BoardPlacement>,
    t: Seq<((usize, usize), Seq<usize>)>,
    gs: Seq<Seq<Seq<u8>>>,
    sols: Seq<Seq<Seq<u8>>>,
    b: int,
    positions: Seq<(usize, usize)>,
    p: int,
    removed: int,
    target: int,
)
    requires
        boards_within(gs, sols),
        touches_in_range(pl, t, gs.len() as int),
        0 <= b < gs.len(),
        0 <= p <= positions.len(),
        0 <= removed <= target,
        forall|k: int| 0 <= k < positions.len() ==> #[trigger] positions[k].0 < 9 && positions[k].1 < 9,
    ensures
        ({
            let res = layout_removal(pl, t, gs, b, positions, p, removed, target);
            &&& res.len() == gs.len()
            &&& boards_within(res, sols)
            &&& forall|x: int| 0 <= x < gs.len() ==> clues_within(#[trigger] res[x], gs[x])
            &&& grid_zeros(res[b]) + removed <= grid_zeros(gs[b]) + target
            &&& (grid_zeros(res[b]) + removed < grid_zeros(gs[b]) + target ==> forall|k: int|
                p <= k < positions.len() && #[trigger] res[b][positions[k].0 as int][positions[k].1 as int] != 0
                    ==> layout_blocked(pl, t, res, b, positions[k].0 as int, positions[k].1 as int))
        }),
    decreases positions.len() - p,
{
    if p < positions.len() && removed < target {
        let r = positions[p].0 as int;
        let c = positions[p].1 as int;
        let cg = clear_all(pl, t, gs, b, r, c);
        let gr = 3 * pl[b].meta_row + r;
        let gc = 3 * pl[b].meta_col + c;
        assert(boards_within(cg, sols) && forall|x: int| 0 <= x < gs.len() ==> clues_within(#[trigger] cg[x], gs[x])) by {
            assert forall|x: int| 0 <= x < gs.len() implies well_shaped(#[trigger] cg[x]) && clues_within(cg[x], sols[x])
                && clues_within(cg[x], gs[x]) by {
                if touched_at(pl, t, b, r, c, x) {
                    assert(0 <= gr - 3 * pl[x].meta_row < 9 && 0 <= gc - 3 * pl[x].meta_col < 9);
                }
                assert forall|r2: int, c2: int| 0 <= r2 < 9 && 0 <= c2 < 9 implies #[trigger] cg[x][r2][c2] == 0
                    || cg[x][r2][c2] == sols[x][r2][c2] by {
                    assert(gs[x][r2][c2] == 0 || gs[x][r2][c2] == sols[x][r2][c2]);
                }
            }
        }
        assert(touched_at(pl, t, b, r, c, b));
        assert(cg[b] == set_cell(gs[b], r, c, 0));
        if gs[b][r][c] != 0 && kept_all(pl, t, gs, b, r, c) {
            lemma_clear_adds_zero(gs[b], r, c);
            lemma_layout_pass_tries(pl, t, cg, sols, b, positions, p + 1, removed + 1, target);
            let res = layout_removal(pl, t, cg, b, positions, p + 1, removed + 1, target);
            assert(res == layout_removal(pl, t, gs, b, positions, p, removed, target));
            assert forall|x: int| 0 <= x < gs.len() implies clues_within(#[trigger] res[x], gs[x]) by {
                assert forall|r2: int, c2: int| 0 <= r2 < 9 && 0 <= c2 < 9 implies #[trigger] res[x][r2][c2] == 0
                    || res[x][r2][c2] == gs[x][r2][c2] by {
                    assert(res[x][r2][c2] == 0 || res[x][r2][c2] == cg[x][r2][c2]);
                    assert(cg[x][r2][c2] == 0 || cg[x][r2][c2] == gs[x][r2][c2]);
                }
            }
            assert(res[b][r][c] == 0 || res[b][r][c] == cg[b][r][c]);
        } else {
            lemma_layout_pass_tries(pl, t, gs, sols, b, positions, p + 1, removed, target);
            let res = layout_removal(pl, t, gs, b, positions, p + 1, removed, target);
            assert(res == layout_removal(pl, t, gs, b, positions, p, removed, target));
            if grid_zeros(res[b]) + removed < grid_zeros(gs[b]) + target && res[b][r][c] != 0 {
                assert(res[b][r][c] == gs[b][r][c]);
                let x = choose|x: int| 0 <= x < gs.len() && touched_at(pl, t, b, r, c, x) && !unique_fill(cg[x]);
                assert(0 <= gr - 3 * pl[x].meta_row < 9 && 0 <= gc - 3 * pl[x].meta_col < 9);
                let lr = gr - 3 * pl[x].meta_row;
                let lc = gc - 3 * pl[x].meta_col;
                assert(cg[x] == set_cell(gs[x], lr, lc, 0));
                let ch = clear_all(pl, t, res, b, r, c);
                let h = ch[x];
                assert(h == set_cell(res[x], lr, lc, 0));
                assert(clues_within(h, cg[x])) by {
                    assert forall|r2: int, c2: int| 0 <= r2 < 9 && 0 <= c2 < 9 implies #[trigger] h[r2][c2] == 0
                        || h[r2][c2] == cg[x][r2][c2] by {
                        assert(res[x][r2][c2] == 0 || res[x][r2][c2] == gs[x][r2][c2]);
                    }
                }
                assert(well_shaped(h));
                lemma_not_unique_two_fills(cg[x], sols[x]);
                lemma_two_fills_widen(h, cg[x], sols[x]);
                assert(two_fills(ch[x]));
            }
        }
    }
}

/// A clearing pass over board `b` of a layout whose boards each cover the
/// grid cells they are listed for, in an order that lists every cell,
/// clears exactly 32 cells of that board for Easy, 40 for Medium and 48
/// for Hard, unless it clears fewer, and then no filled cell it leaves on
/// the board can be cleared keeping single completions.
pub proof fn lemma_layout_pass_clears_target(
    pl: Seq<BoardPlacement>,
    t: Seq<((usize, usize), Seq<usize>)>,
    gs: Seq<Seq<Seq<u8>>>,
    sols: Seq<Seq<Seq<u8>>>,
    b: int,
    positions: Seq<(usize, usize)>,
    d: Difficulty,
)
    requires
        boards_within(gs, sols),
        touches_in_range(pl, t, gs.len() as int),
        0 <= b < gs.len(),
        forall|k: int| 0 <= k < positions.len() ==> #[trigger] positions[k].0 < 9 && positions[k].1 < 9,
        forall|r: usize, c: usize| r < 9 && c < 9 ==> #[trigger] positions.contains((r, c)),
    ensures
        ({
            let res = layout_removal(pl, t, gs, b, positions, 0, 0, removal_target(d) as int);
            let n = match d {
                Difficulty::Easy => 32int,
                Difficulty::Medium => 40int,
                Difficulty::Hard => 48int,
            };
            ||| grid_zeros(res[b]) == grid_zeros(gs[b]) + n
            ||| grid_zeros(res[b]) < grid_zeros(gs[b]) + n && forall|r: int, c: int|
                0 <= r < 9 && 0 <= c < 9 && #[trigger] res[b][r][c] != 0 ==> layout_blocked(pl, t, res, b, r, c)
        }),
{
    let target = removal_target(d) as int;
    lemma_layout_pass_tries(pl, t, gs, sols, b, positions, 0, 0, target);
    let res = layout_removal(pl, t, gs, b, positions, 0, 0, target);
    if grid_zeros(res[b]) < grid_zeros(gs[b]) + target {
        assert forall|r: int, c: int| 0 <= r < 9 && 0 <= c < 9 && #[trigger] res[b][r][c] != 0 implies layout_blocked(
            pl,
            t,
            res,
            b,
            r,
            c,
        ) by {
            assert(positions.contains((r as usize, c as usize)));
            let k = choose|k: int| 0 <= k < positions.len() && positions[k] == (r as usize, c as usize);
            assert(res[b][positions[k].0 as int][positions[k].1 as int] != 0);
        }
    }
}

/// The clearing passes over boards `b` to `n - 1`, each over the positions
/// in an order shuffled from the generator state; gives the grids and the
/// state.
pub open spec fn layout_passes(
    pl: Seq<BoardPlacement>,
    t: Seq<((usize, usize), Seq<usize>)>,
    gs: Seq<Seq<Seq<u8>>>,
    b: int,
    n: int,
    st: u64,
    target: int,
) -> (Seq<Seq<Seq<u8>>>, u64)
    decreases n - b,
{
    if 0 <= b < n {
        let sh = shuffle_from(grid_positions(), st, 80);
        layout_passes(pl, t, layout_removal(pl, t, gs, b, sh.0, 0, 0, target), b + 1, n, sh.1, target)
    } else {
        (gs, st)
    }
}

/// Box `b` of `g` filled with `digits`, read row by row.
pub open spec fn with_box(g: Seq<Seq<u8>>, b: int, digits: Seq<u8>) -> Seq<Seq<u8>> {
    Seq::new(9, |r: int| Seq::new(9, |c: int| if in_box(b, r, c) { digits[(r % 3) * 3 + c % 3] } else { g[r][c] }))
}

/// Box `b` of a board placed at `p` lies at one of the meta-cells.
pub open spec fn box_taken(p: BoardPlacement, cells: Seq<(usize, usize)>, b: int) -> bool {
    exists|k: int| 0 <= k < cells.len() && (#[trigger] cells[k]).0 * 3 + cells[k].1 == b + p.meta_row * 3 + p.meta_col
}

/// The diagonal boxes from number `bi` on that lie at none of the
/// meta-cells, each filled with digits shuffled from the generator state.
pub open spec fn fill_free_boxes(g: Seq<Seq<u8>>, p: BoardPlacement, cells: Seq<(usize, usize)>, bi: int, st: u64) -> (
    Seq<Seq<u8>>,
    u64,
)
    decreases 3 - bi,
{
    if 0 <= bi < 3 {
        if !box_taken(p, cells, 4 * bi) {
            let sh = shuffle_from(digits19(), st, 8);
            fill_free_boxes(with_box(g, 4 * bi, sh.0), p, cells, bi + 1, sh.1)
        } else {
            fill_free_boxes(g, p, cells, bi + 1, st)
        }
    } else {
        (g, st)
    }
}

/// The empty board `dst` with the boxes at the meta-cells copied from the
/// grid `src` of board `s`.
pub open spec fn copied_seed(pl: Seq<BoardPlacement>, s: int, dst: int, src: Seq<Seq<u8>>, cells: Seq<(usize, usize)>) -> Seq<Seq<u8>> {
    Seq::new(
        9,
        |r: int|
            Seq::new(
                9,
                |c: int|
                    if in_any_meta(pl[dst], cells, r, c) {
                        src[r + 3 * (pl[dst].meta_row - pl[s].meta_row)][c + 3 * (pl[dst].meta_col - pl[s].meta_col)]
                    } else {
                        0u8
                    },
            ),
    )
}

/// The first completion the search finds for `g`, or `g` when it has none.
pub open spec fn solved_or_same(g: Seq<Seq<u8>>) -> Seq<Seq<u8>> {
    match search(g) {
        Some(s) => s,
        None => g,
    }
}

/// The solved boards generated in the order of `plan` from position `oi`
/// on, with the generator state: a board reached from another starts from
/// the boxes they share and shuffled digits in its free diagonal boxes; a
/// board reached from none is built like a lone sudoku.
pub open spec fn generate_boards(
    pl: Seq<BoardPlacement>,
    plan: Seq<(usize, Option<usize>)>,
    oi: int,
    gs: Seq<Seq<Seq<u8>>>,
    st: u64,
) -> (Seq<Seq<Seq<u8>>>, u64)
    decreases plan.len() - oi,
{
    if 0 <= oi < plan.len() {
        let idx = plan[oi].0 as int;
        match plan[oi].1 {
            Some(par) => {
                let cells = shared_cells(owner_table(pl), par, plan[oi].0);
                let seeded = fill_free_boxes(copied_seed(pl, par as int, idx, gs[par as int], cells), pl[idx], cells, 0, st);
                generate_boards(pl, plan, oi + 1, gs.update(idx, solved_or_same(seeded.0)), seeded.1)
            },
            None => generate_boards(pl, plan, oi + 1, gs.update(idx, solved_from(st)), shuffles_state(st, 3)),
        }
    } else {
        (gs, st)
    }
}

/// Position of board `x` in the plan.
pub open spec fn plan_index(plan: Seq<(usize, Option<usize>)>, x: usize) -> int {
    choose|i: int| 0 <= i < plan.len() && plan[i].0 == x
}

/// `d` with box `db` replaced by box `sb` of `s`, cell for cell.
pub open spec fn copy_box(s: Seq<Seq<u8>>, sb: int, d: Seq<Seq<u8>>, db: int) -> Seq<Seq<u8>> {
    Seq::new(
        9,
        |r: int|
            Seq::new(
                9,
                |c: int|
                    if in_box(db, r, c) {
                        s[box_origin_of(sb).0 + r % 3][box_origin_of(sb).1 + c % 3]
                    } else {
                        d[r][c]
                    },
            ),
    )
}

/// The grids after copying, for each meta-cell of the table from entry `e`
/// on that exactly two boards cover, its box from the board generated
/// first onto the other.
pub open spec fn copy_shared(
    pl: Seq<BoardPlacement>,
    t: Seq<((usize, usize), Seq<usize>)>,
    plan: Seq<(usize, Option<usize>)>,
    gs: Seq<Seq<Seq<u8>>>,
    e: int,
) -> Seq<Seq<Seq<u8>>>
    decreases t.len() - e,
{
    if 0 <= e < t.len() {
        if t[e].1.len() == 2 {
            let a = t[e].1[0];
            let b = t[e].1[1];
            let m = t[e].0;
            let a_first = plan_index(plan, a) < plan_index(plan, b);
            let src = if a_first { a } else { b };
            let dst = if a_first { b } else { a };
            let sb = (m.0 - pl[src as int].meta_row) * 3 + (m.1 - pl[src as int].meta_col);
            let db = (m.0 - pl[dst as int].meta_row) * 3 + (m.1 - pl[dst as int].meta_col);
            copy_shared(pl, t, plan, gs.update(dst as int, copy_box(gs[src as int], sb, gs[dst as int], db)), e + 1)
        } else {
            copy_shared(pl, t, plan, gs, e + 1)
        }
    } else {
        gs
    }
}

/// The grid of a board with every cell empty.
pub open spec fn blank_grid() -> Seq<Seq<u8>> {
    Seq::new(9, |r: int| Seq::new(9, |c: int| 0u8))
}

/// The solved boards of a layout generated from the generator state `st`,
/// with the generator state after them: generated in the layout's order,
/// then the shared boxes copied.
pub open spec fn layout_solution(pl: Seq<BoardPlacement>, st: u64) -> (Seq<Seq<Seq<u8>>>, u64) {
    let made = generate_boards(pl, generation_plan(pl), 0, Seq::new(pl.len(), |x: int| blank_grid()), st);
    (copy_shared(pl, owner_table(pl), generation_plan(pl), made.0, 0), made.1)
}

/// The (puzzle, solution) grids dealt for a layout and difficulty `d`
/// from the generator state `st`.
pub open spec fn layout_deal(pl: Seq<BoardPlacement>, d: Difficulty, st: u64) -> (Seq<Seq<Seq<u8>>>, Seq<Seq<Seq<u8>>>) {
    (
        layout_passes(
            pl,
            owner_table(pl),
            layout_solution(pl, st).0,
            0,
            pl.len() as int,
            layout_solution(pl, st).1,
            removal_target(d) as int,
        ).0,
        layout_solution(pl, st).0,
    )
}

/// Every board of the list is solved.
pub open spec fn boards_solved(bs: Seq<Board>) -> bool {
    forall|x: int| 0 <= x < bs.len() ==> is_solution(#[trigger] bs[x]@)
}

/// Generates (puzzle, solution) for a layout with a fresh seed; see
/// `generate_with`.
pub fn generate(config: &PuzzleConfig, difficulty: Difficulty) -> (res: (GenericMultiBoard, GenericMultiBoard))
    requires
        placements_fit(config.boards@),
        config.boards@.len() > 0,
    ensures
        res.0.wf(),
        res.1.wf(),
        res.0.config.boards@ == config.boards@,
        res.1.config.boards@ == config.boards@,
        res.0.config.name@ == config.name@,
        res.1.config.name@ == config.name@,
        overlaps_agree(res.1.boards@, config.boards@),
        forall|x: int| 0 <= x < res.1.boards@.len() ==> well_shaped(#[trigger] res.1.boards@[x]@),
        removal_inv(res.0.boards@, res.1.boards@, config.boards@),
        forall|x: int| 0 <= x < res.1.boards@.len() && complete(#[trigger] res.1.boards@[x]@) ==> at_most_one_fill(
            res.0.boards@[x]@,
        ),
        boards_solved(res.1.boards@) ==> has_blank(res.0.boards@[0]@),
        is_solution(res.1.boards@[0]@) || !has_fill(res.1.boards@[0]@),
        exists|st: u64|
            (board_grids(res.0.boards@), board_grids(res.1.boards@)) == #[trigger] layout_deal(config.boards@, difficulty, st),
{
    let mut rng = Rng::new(get_seed());
    let ghost st = rng.state;
    let res = generate_with(config, difficulty, &mut rng);
    assert((board_grids(res.0.boards@), board_grids(res.1.boards@)) == layout_deal(config.boards@, difficulty, st));
    res
}

/// Generates (puzzle, solution) for a layout from the generator `rng`. Boards are solved in the
/// order of `generation_order`, each starting from the boxes it shares
/// with the board it was reached from plus shuffled digits in its free
/// diagonal boxes; then every meta-cell shared by exactly two boards is
/// copied from the board generated first onto the other; then, board by
/// board, cells in shuffled order are cleared (on every board covering
/// them) as long as every board touched keeps a single completion, until
/// the difficulty's number of cells is cleared from that board.
#[verifier::rlimit(40)]
pub fn generate_with(
    config: &PuzzleConfig,
    difficulty: Difficulty,
    rng: &mut Rng,
) -> (res: (GenericMultiBoard, GenericMultiBoard))
    requires
        placements_fit(config.boards@),
        config.boards@.len() > 0,
    ensures
        res.0.wf(),
        res.1.wf(),
        res.0.config.boards@ == config.boards@,
        res.1.config.boards@ == config.boards@,
        res.0.config.name@ == config.name@,
        res.1.config.name@ == config.name@,
        overlaps_agree(res.1.boards@, config.boards@),
        forall|x: int| 0 <= x < res.1.boards@.len() ==> well_shaped(#[trigger] res.1.boards@[x]@),
        removal_inv(res.0.boards@, res.1.boards@, config.boards@),
        forall|x: int| 0 <= x < res.1.boards@.len() && complete(#[trigger] res.1.boards@[x]@) ==> at_most_one_fill(
            res.0.boards@[x]@,
        ),
        boards_solved(res.1.boards@) ==> has_blank(res.0.boards@[0]@),
        is_solution(res.1.boards@[0]@) || !has_fill(res.1.boards@[0]@),
        board_grids(res.1.boards@) == layout_solution(config.boards@, old(rng).state).0,
        (board_grids(res.0.boards@), final(rng).state) == layout_passes(
            config.boards@,
            owner_table(config.boards@),
            board_grids(res.1.boards@),
            0,
            config.boards@.len() as int,
            layout_solution(config.boards@, old(rng).state).1,
            removal_target(difficulty) as int,
        ),
{
    let n = config.boards.len();
    let order = generation_order(config);
    let mut solution = GenericMultiBoard::new(config);
    let ghost plan = plan_of(order@);
    let ghost goal = generate_boards(config.boards@, plan, 0, board_grids(solution.boards@), rng.state);
    proof {
        assert forall|x: int| 0 <= x < n implies #[trigger] board_grids(solution.boards@)[x] == blank_grid() by {
            lemma_grid_ext(solution.boards@[x]@, blank_grid());
        }
        assert(board_grids(solution.boards@) =~= Seq::new(config.boards@.len(), |x: int| blank_grid()));
    }
    proof {
        assert forall|i: int| 0 <= i < order@.len() implies ((#[trigger] order@[i]).1 matches Some((p, sh)) ==> p < n) by {
            if let Some((p, sh)) = order@[i].1 {
                let j = choose|j: int| 0 <= j < i && order@[j].0 == p;
                assert(order@[j].0 < n);
            }
        }
    }
    let mut oi: usize = 0;
    while oi < order.len()
        invariant
            n == config.boards@.len(),
            order@.len() == n,
            placements_fit(config.boards@),
            forall|i: int| 0 <= i < order@.len() ==> (#[trigger] order@[i]).0 < n,
            forall|i: int|
                0 <= i < order@.len() ==> ((#[trigger] order@[i]).1 matches Some((p, sh)) ==> {
                    &&& sh@ == shared_cells(owner_table(config.boards@), p, order@[i].0)
                    &&& p != order@[i].0
                    &&& p < n
                }),
            solution.wf(),
            solution.config.boards@ == config.boards@,
            solution.config.name@ == config.name@,
            forall|x: int| 0 <= x < n ==> well_shaped(#[trigger] solution.boards@[x]@),
            order@[0].0 == 0 && order@[0].1 is None,
            forall|i: int, j: int| 0 <= i < j < order@.len() ==> (#[trigger] order@[i]).0 != (#[trigger] order@[j]).0,
            oi > 0 ==> is_solution(solution.boards@[0]@) || !has_fill(solution.boards@[0]@),
            plan == plan_of(order@),
            solution.boards@.len() == n,
            generate_boards(config.boards@, plan, oi as int, board_grids(solution.boards@), rng.state) == goal,
        decreases n - oi,
    {
        let idx = order[oi].0;
        let ghost st_b = rng.state;
        let ghost gs = board_grids(solution.boards@);
        let mut board = Board::new();
        match &order[oi].1 {
            Some((parent, shared)) => {
                let parent = *parent;
                proof {
                    assert forall|k: int| 0 <= k < shared@.len() implies covers(
                        config.boards@[parent as int],
                        (#[trigger] shared@[k]).0 as int,
                        shared@[k].1 as int,
                    ) && covers(config.boards@[idx as int], shared@[k].0 as int, shared@[k].1 as int) by {
                        lemma_shared_covered(config.boards@, parent, idx, k);
                    }
                    if shared@.len() > 0 {
                        lemma_shared_covered(config.boards@, parent, idx, 0);
                    }
                }
                let ghost g_new = board@;
                copy_overlaps(config, parent, idx, &solution.boards[parent], &mut board, shared);
                proof {
                    assert forall|r: int, c: int| 0 <= r < 9 && 0 <= c < 9 implies #[trigger] board@[r][c] == copied_seed(
                        config.boards@,
                        parent as int,
                        idx as int,
                        gs[parent as int],
                        shared@,
                    )[r][c] by {
                        assert(g_new[r][c] == 0);
                    }
                    lemma_grid_ext(board@, copied_seed(config.boards@, parent as int, idx as int, gs[parent as int], shared@));
                }
                let ghost seed0 = board@;
                let mut bi: usize = 0;
                while bi < 3
                    invariant
                        bi <= 3,
                        fill_free_boxes(board@, config.boards@[idx as int], shared@, bi as int, rng.state) == fill_free_boxes(
                            seed0,
                            config.boards@[idx as int],
                            shared@,
                            0,
                            st_b,
                        ),
                        idx < config.boards@.len(),
                        well_shaped(board@),
                        forall|k: int|
                            0 <= k < shared@.len() ==> covers(
                                config.boards@[idx as int],
                                (#[trigger] shared@[k]).0 as int,
                                shared@[k].1 as int,
                            ),
                    decreases 3 - bi,
                {
                    if !box_occupied(config, idx, shared, 4 * bi) {
                        let ghost gb = board@;
                        let ghost sb = rng.state;
                        fill_box(&mut board, 4 * bi, rng);
                        proof {
                            let w = with_box(gb, 4 * bi as int, shuffle_from(digits19(), sb, 8).0);
                            assert forall|r: int, c: int| 0 <= r < 9 && 0 <= c < 9 implies #[trigger] board@[r][c] == w[r][c] by {}
                            lemma_grid_ext(board@, w);
                        }
                    }
                    bi += 1;
                }
                proof {
                    board.lemma_shape();
                }
                solve(&mut board);
            },
            None => {
                board = generate_solved(rng);
            },
        }
        proof {
            board.lemma_shape();
        }
        let ghost prev = solution.boards@;
        solution.boards.set(idx, board);
        proof {
            assert(board_grids(solution.boards@) =~= gs.update(idx as int, board@));
            if oi > 0 {
                assert(order@[oi as int].0 != order@[0].0);
                assert(solution.boards@[0] == prev[0]);
            }
        }
        oi += 1;
    }
    let info = config.compute_overlaps();
    let ghost t = info.table();
    let ghost pl = config.boards@;
    let ghost made = (board_grids(solution.boards@), rng.state);
    proof {
        if span_cols(pl) > 0 {
            lemma_table_entries(pl, span_cols(pl), span_rows(pl) * span_cols(pl));
            lemma_table_keys(pl, span_cols(pl), span_rows(pl) * span_cols(pl));
        }
    }
    let mut e: usize = 0;
    while e < info.cell_owners.len()
        invariant
            n == config.boards@.len(),
            pl == config.boards@,
            order@.len() == n,
            forall|x: int| 0 <= x < n ==> #[trigger] has_key(order@, x),
            placements_fit(pl),
            t == info.table(),
            t == owner_table(pl),
            forall|i: int| 0 <= i < t.len() ==> #[trigger] entry_ok(pl, t[i]),
            forall|i: int, j: int| 0 <= i < j < t.len() ==> (#[trigger] t[i]).0 != (#[trigger] t[j]).0,
            e <= t.len(),
            solution.wf(),
            solution.config.boards@ == config.boards@,
            solution.config.name@ == config.name@,
            forall|x: int| 0 <= x < n ==> well_shaped(#[trigger] solution.boards@[x]@),
            forall|j: int|
                0 <= j < e && (#[trigger] t[j]).1.len() == 2 ==> box_agrees(solution.boards@, pl, t[j].0, t[j].1[0], t[j].1[1]),
            plan == plan_of(order@),
            solution.boards@.len() == n,
            copy_shared(pl, t, plan, board_grids(solution.boards@), e as int) == copy_shared(pl, t, plan, made.0, 0),
            order@[0].0 == 0,
            forall|i: int, j: int| 0 <= i < j < order@.len() ==> (#[trigger] order@[i]).0 != (#[trigger] order@[j]).0,
            is_solution(solution.boards@[0]@) || !has_fill(solution.boards@[0]@),
        decreases t.len() - e,
    {
        if info.cell_owners[e].1.len() == 2 {
            let (mr, mc) = info.cell_owners[e].0;
            let a = info.cell_owners[e].1[0];
            let b = info.cell_owners[e].1[1];
            proof {
                assert(entry_ok(pl, t[e as int]));
                assert(t[e as int].1[0] == a && t[e as int].1[1] == b);
                assert(a < b);
            }
            let a_box = box_at(config.boards[a], mr, mc);
            let b_box = box_at(config.boards[b], mr, mc);
            let a_order = order_position(&order, a);
            let b_order = order_position(&order, b);
            let ghost before = solution.boards@;
            let (src_i, dst_i, src_box, dst_box) = if a_order < b_order {
                (a, b, a_box, b_box)
            } else {
                (b, a, b_box, a_box)
            };
            let src = solution.boards[src_i];
            let mut dst = solution.boards[dst_i];
            src.copy_box_to(src_box, &mut dst, dst_box);
            proof {
                assert(plan_index(plan, a) == a_order as int) by {
                    let i = plan_index(plan, a);
                    assert(plan[a_order as int].0 == a);
                    if i != a_order as int {
                        assert(order@[i].0 == order@[a_order as int].0);
                    }
                }
                assert(plan_index(plan, b) == b_order as int) by {
                    let i = plan_index(plan, b);
                    assert(plan[b_order as int].0 == b);
                    if i != b_order as int {
                        assert(order@[i].0 == order@[b_order as int].0);
                    }
                }
                let cb = copy_box(before[src_i as int]@, src_box as int, before[dst_i as int]@, dst_box as int);
                assert forall|r: int, c: int| 0 <= r < 9 && 0 <= c < 9 implies #[trigger] dst@[r][c] == cb[r][c] by {}
                dst.lemma_shape();
                lemma_grid_ext(dst@, cb);
            }
            proof {
                if dst_i == 0 {
                    if a_order < b_order {
                        assert(order@[b_order as int].0 == order@[0].0);
                    } else {
                        assert(order@[a_order as int].0 == order@[0].0);
                        assert(a_order == 0);
                        assert(order@[b_order as int].0 == order@[0].0);
                    }
                }
            }
            solution.boards.set(dst_i, dst);
            proof {
                assert(board_grids(solution.boards@) =~= board_grids(before).update(
                    dst_i as int,
                    copy_box(board_grids(before)[src_i as int], src_box as int, board_grids(before)[dst_i as int], dst_box as int),
                ));
                assert(solution.boards@[0] == before[0]);
                let k = (mr, mc);
                assert forall|x: int| 0 <= x < n implies well_shaped(#[trigger] solution.boards@[x]@) by {
                    if x != dst_i {
                        assert(solution.boards@[x] == before[x]);
                    }
                }
                assert forall|j: int| 0 <= j < e + 1 && (#[trigger] t[j]).1.len() == 2 implies box_agrees(
                    solution.boards@,
                    pl,
                    t[j].0,
                    t[j].1[0],
                    t[j].1[1],
                ) by {
                    assert(entry_ok(pl, t[j]));
                    let ja = t[j].1[0];
                    let jb = t[j].1[1];
                    assert forall|i2: int, j2: int| 0 <= i2 < 3 && 0 <= j2 < 3 implies #[trigger] solution.boards@[ja as int]@[3
                        * (t[j].0.0 - pl[ja as int].meta_row) + i2][3 * (t[j].0.1 - pl[ja as int].meta_col) + j2]
                        == solution.boards@[jb as int]@[3 * (t[j].0.0 - pl[jb as int].meta_row) + i2][3 * (t[j].0.1
                        - pl[jb as int].meta_col) + j2] by {
                        let ra = 3 * (t[j].0.0 - pl[ja as int].meta_row) + i2;
                        let ca = 3 * (t[j].0.1 - pl[ja as int].meta_col) + j2;
                        let rb = 3 * (t[j].0.0 - pl[jb as int].meta_row) + i2;
                        let cb = 3 * (t[j].0.1 - pl[jb as int].meta_col) + j2;
                        if j == e {
                            assert(ra / 3 == t[j].0.0 - pl[ja as int].meta_row && ra % 3 == i2);
                            assert(rb / 3 == t[j].0.0 - pl[jb as int].meta_row && rb % 3 == i2);
                            assert(ca / 3 == t[j].0.1 - pl[ja as int].meta_col && ca % 3 == j2);
                            assert(cb / 3 == t[j].0.1 - pl[jb as int].meta_col && cb % 3 == j2);
                        } else {
                            assert(t[j].0 != k);
                            assert(box_agrees(before, pl, t[j].0, ja, jb));
                            assert(before[ja as int]@[ra][ca] == before[jb as int]@[rb][cb]);
                            assert(ra / 3 == t[j].0.0 - pl[ja as int].meta_row);
                            assert(rb / 3 == t[j].0.0 - pl[jb as int].meta_row);
                            assert(ca / 3 == t[j].0.1 - pl[ja as int].meta_col);
                            assert(cb / 3 == t[j].0.1 - pl[jb as int].meta_col);
                            if ja == dst_i {
                                assert(!in_box(dst_box as int, ra, ca));
                            } else {
                                assert(solution.boards@[ja as int] == before[ja as int]);
                            }
                            if jb == dst_i {
                                assert(!in_box(dst_box as int, rb, cb));
                            } else {
                                assert(solution.boards@[jb as int] == before[jb as int]);
                            }
                        }
                    }
                }
            }
        }
        e += 1;
    }
    let mut puzzle = GenericMultiBoard::new(config);
    puzzle.boards = copy_boards(&solution.boards);
    let ghost sol = solution.boards@;
    let to_remove = difficulty.cells_to_remove();
    let ghost st_mid = rng.state;
    proof {
        assert(board_grids(puzzle.boards@) == board_grids(sol));
    }
    let mut b: usize = 0;
    while b < n
        invariant
            n == config.boards@.len(),
            pl == config.boards@,
            placements_fit(pl),
            t == info.table(),
            t == owner_table(pl),
            forall|i: int| 0 <= i < t.len() ==> #[trigger] entry_ok(pl, t[i]),
            forall|i: int, j: int| 0 <= i < j < t.len() ==> (#[trigger] t[i]).0 != (#[trigger] t[j]).0,
            sol == solution.boards@,
            solution.wf(),
            solution.config.boards@ == config.boards@,
            solution.config.name@ == config.name@,
            overlaps_agree(sol, pl),
            forall|x: int| 0 <= x < n ==> well_shaped(#[trigger] sol[x]@),
            removal_inv(puzzle.boards@, sol, pl),
            puzzle.wf(),
            puzzle.config.boards@ == config.boards@,
            puzzle.config.name@ == config.name@,
            to_remove == removal_target(difficulty),
            b == 0 ==> puzzle.boards@ == sol,
            b > 0 && boards_solved(sol) ==> has_blank(puzzle.boards@[0]@),
            layout_passes(pl, t, board_grids(puzzle.boards@), b as int, n as int, rng.state, to_remove as int)
                == layout_passes(pl, t, board_grids(sol), 0, n as int, st_mid, to_remove as int),
        decreases n - b,
    {
        let mut positions = all_positions();
        let ghost pos0 = positions@;
        let ghost st0 = rng.state;
        let ghost start = board_grids(puzzle.boards@);
        rng.shuffle(&mut positions);
        let ghost shuffled = positions@;
        proof {
            lemma_shuffle_permutes(pos0, st0, 80);
            assert forall|k: int| 0 <= k < positions@.len() implies #[trigger] positions@[k].0 < 9 && positions@[k].1 < 9 by {
                assert(positions@.contains(positions@[k]));
                assert(pos0.contains(positions@[k]));
            }
        }
        let mut removed: usize = 0;
        let mut q: usize = 0;
        while q < positions.len() && removed < to_remove
            invariant
                b < n,
                n == config.boards@.len(),
                pl == config.boards@,
                placements_fit(pl),
                t == info.table(),
                t == owner_table(pl),
                forall|i: int| 0 <= i < t.len() ==> #[trigger] entry_ok(pl, t[i]),
                forall|i: int, j: int| 0 <= i < j < t.len() ==> (#[trigger] t[i]).0 != (#[trigger] t[j]).0,
                sol == solution.boards@,
                forall|x: int| 0 <= x < n ==> well_shaped(#[trigger] sol[x]@),
                removal_inv(puzzle.boards@, sol, pl),
                puzzle.wf(),
                puzzle.config.boards@ == config.boards@,
                puzzle.config.name@ == config.name@,
                q <= positions@.len(),
                removed <= to_remove,
                removed <= q,
                positions@.len() == 81,
                to_remove == removal_target(difficulty),
                b == 0 && q == 0 ==> puzzle.boards@ == sol,
                (b > 0 || q > 0) && boards_solved(sol) ==> has_blank(puzzle.boards@[0]@),
                forall|k: int| 0 <= k < positions@.len() ==> #[trigger] positions@[k].0 < 9 && positions@[k].1 < 9,
                positions@ == shuffled,
                (shuffled, rng.state) == shuffle_from(grid_positions(), st0, 80),
                layout_removal(pl, t, board_grids(puzzle.boards@), b as int, shuffled, q as int, removed as int, to_remove as int)
                    == layout_removal(pl, t, start, b as int, shuffled, 0, 0, to_remove as int),
                layout_passes(pl, t, start, b as int, n as int, st0, to_remove as int) == layout_passes(
                    pl,
                    t,
                    board_grids(sol),
                    0,
                    n as int,
                    st_mid,
                    to_remove as int,
                ),
            decreases positions@.len() - q,
        {
            let (r, c) = positions[q];
            proof {
                if b == 0 && q == 0 && boards_solved(sol) {
                    assert(is_solution(sol[0]@));
                    assert(cell_ok(sol[0]@, r as int, c as int, false));
                }
            }
            proof {
                assert(board_grids(puzzle.boards@)[b as int] == puzzle.boards@[b as int]@);
            }
            if !puzzle.boards[b].is_empty(r, c) {
                let ghost before = puzzle.boards@;
                let kept = try_clear(config, &info, &mut puzzle, b, r, c, Ghost(sol));
                if kept {
                    removed += 1;
                }
                proof {
                    let bg = board_grids(before);
                    assert(kept == kept_all(pl, t, bg, b as int, r as int, c as int)) by {
                        assert forall|x: int| 0 <= x < bg.len() && touched_at(pl, t, b as int, r as int, c as int, x) implies
                            clear_all(pl, t, bg, b as int, r as int, c as int)[x] == cleared_at(pl, t, before, b as int, r as int, c as int, x) by {}
                    }
                    if kept {
                        assert(board_grids(puzzle.boards@) =~= clear_all(pl, t, bg, b as int, r as int, c as int));
                    } else {
                        assert(board_grids(puzzle.boards@) =~= bg);
                    }
                    if boards_solved(sol) && (b > 0 || q > 0) {
                        let (r0, c0) = choose|r0: int, c0: int|
                            0 <= r0 < 9 && 0 <= c0 < 9 && #[trigger] before[0]@[r0][c0] == 0;
                        assert(puzzle.boards@[0]@[r0][c0] == 0);
                    }
                    if boards_solved(sol) && b == 0 && q == 0 {
                        assert(puzzle.boards@[0]@[r as int][c as int] == 0);
                    }
                }
            }
            q += 1;
        }
        b += 1;
    }
    proof {
        assert forall|x: int| 0 <= x < n && complete(#[trigger] sol[x]@) implies at_most_one_fill(puzzle.boards@[x]@) by {
            if puzzle.boards@[x]@ == sol[x]@ {
                lemma_complete_unique(sol[x]@);
            }
        }
    }
    (puzzle, solution)
}

/// A complete board has at most one completion: itself.
proof fn lemma_complete_unique(g: Seq<Seq<u8>>)
    requires
        well_shaped(g),
        complete(g),
    ensures
        at_most_one_fill(g),
{
    assert forall|s1: Seq<Seq<u8>>, s2: Seq<Seq<u8>>| is_fill(g, s1) && is_fill(g, s2) implies s1 == s2 by {
        assert forall|r: int, c: int| 0 <= r < 9 && 0 <= c < 9 implies #[trigger] s1[r][c] == s2[r][c] by {
            assert(g[r][c] != 0);
        }
        lemma_grid_ext(s1, s2);
    }
}

/// What holds of the puzzle boards while cells are cleared: each cell is
/// empty or as in the solution, each board has at most one completion or
/// is still the solution's board, and shared boxes agree.
pub open spec fn removal_inv(p: Seq<Board>, sol: Seq<Board>, pl: Seq<BoardPlacement>) -> bool {
    &&& p.len() == sol.len()
    &&& forall|x: int| 0 <= x < p.len() ==> well_shaped(#[trigger] p[x]@)
    &&& forall|x: int, r: int, c: int|
        0 <= x < p.len() && 0 <= r < 9 && 0 <= c < 9 ==> #[trigger] p[x]@[r][c] == 0 || p[x]@[r][c] == sol[x]@[r][c]
    &&& forall|x: int| 0 <= x < p.len() ==> at_most_one_fill(#[trigger] p[x]@) || p[x]@ == sol[x]@
    &&& overlaps_agree(p, pl)
}

/// A copy of a list of boards.
pub(crate) fn copy_boards(v: &Vec<Board>) -> (c: Vec<Board>)
    ensures
        c@ == v@,
{
    let mut c: Vec<Board> = Vec::new();
    let mut i: usize = 0;
    while i < v.len()
        invariant
            i <= v@.len(),
            c@ == v@.subrange(0, i as int),
        decreases v@.len() - i,
    {
        c.push(v[i]);
        assert(c@ =~= v@.subrange(0, i + 1));
        i += 1;
    }
    assert(c@ =~= v@);
    c
}

/// A prefix one longer holds what the shorter one holds, and the new element.
proof fn lemma_sub_contains(o: Seq<usize>, m: int)
    requires
        0 <= m < o.len(),
    ensures
        forall|x: usize| #[trigger] o.subrange(0, m + 1).contains(x) == (o.subrange(0, m).contains(x) || x == o[m]),
{
    assert forall|x: usize| #[trigger] o.subrange(0, m + 1).contains(x) == (o.subrange(0, m).contains(x) || x == o[m]) by {
        if o.subrange(0, m + 1).contains(x) {
            let j = choose|j: int| 0 <= j < m + 1 && #[trigger] o.subrange(0, m + 1)[j] == x;
            if j < m {
                assert(o.subrange(0, m)[j] == x);
            }
        }
        if o.subrange(0, m).contains(x) {
            let j = choose|j: int| 0 <= j < m && #[trigger] o.subrange(0, m)[j] == x;
            assert(o.subrange(0, m + 1)[j] == x);
        }
        if x == o[m] {
            assert(o.subrange(0, m + 1)[m] == x);
        }
    }
}

/// Some entry is for board `x`.
pub open spec fn lists_board(ns: Seq<(usize, usize, usize, u8)>, x: int) -> bool {
    exists|k: int| 0 <= k < ns.len() && ns[k].0 == x
}

/// The boards with grid cell (gr, gc) cleared on each board listed in `o`.
pub open spec fn cleared(before: Seq<Board>, pl: Seq<BoardPlacement>, o: Seq<usize>, gr: int, gc: int, x: int) -> Seq<Seq<u8>> {
    if o.contains(x as usize) {
        set_cell(before[x]@, gr - 3 * pl[x].meta_row, gc - 3 * pl[x].meta_col, 0)
    } else {
        before[x]@
    }
}

/// Board `x` is touched by clearing cell (r, c) of board `b`: it is `b`,
/// or a board listed for that grid cell.
pub open spec fn touched_at(pl: Seq<BoardPlacement>, t: Seq<((usize, usize), Seq<usize>)>, b: int, r: int, c: int, x: int) -> bool {
    let gr = 3 * pl[b].meta_row + r;
    let gc = 3 * pl[b].meta_col + c;
    x == b || listed_owners(t, gr / 3, gc / 3).contains(x as usize)
}

/// Board `x` of `before` after clearing cell (r, c) of board `b`: the
/// same grid cell emptied on every touched board.
pub open spec fn cleared_at(
    pl: Seq<BoardPlacement>,
    t: Seq<((usize, usize), Seq<usize>)>,
    before: Seq<Board>,
    b: int,
    r: int,
    c: int,
    x: int,
) -> Seq<Seq<u8>> {
    let gr = 3 * pl[b].meta_row + r;
    let gc = 3 * pl[b].meta_col + c;
    if touched_at(pl, t, b, r, c, x) {
        set_cell(before[x]@, gr - 3 * pl[x].meta_row, gc - 3 * pl[x].meta_col, 0)
    } else {
        before[x]@
    }
}

/// Clears cell (r, c) of board `b` and the same grid cell on every other
/// board covering it; keeps the change when every board touched still has
/// a single completion, and undoes it otherwise. Returns whether it was kept.
fn try_clear(
    config: &PuzzleConfig,
    info: &OverlapInfo,
    puzzle: &mut GenericMultiBoard,
    b: usize,
    r: usize,
    c: usize,
    Ghost(sol): Ghost<Seq<Board>>,
) -> (kept: bool)
    requires
        b < config.boards@.len(),
        r < 9,
        c < 9,
        placements_fit(config.boards@),
        info.table() == owner_table(config.boards@),
        forall|i: int| 0 <= i < info.table().len() ==> #[trigger] entry_ok(config.boards@, info.table()[i]),
        forall|i: int, j: int|
            0 <= i < j < info.table().len() ==> (#[trigger] info.table()[i]).0 != (#[trigger] info.table()[j]).0,
        old(puzzle).wf(),
        old(puzzle).config.boards@ == config.boards@,
        removal_inv(old(puzzle).boards@, sol, config.boards@),
        old(puzzle).boards@[b as int]@[r as int][c as int] != 0,
    ensures
        final(puzzle).wf(),
        final(puzzle).config == old(puzzle).config,
        removal_inv(final(puzzle).boards@, sol, config.boards@),
        kept ==> final(puzzle).boards@[b as int]@[r as int][c as int] == 0,
        kept == forall|x: int|
            0 <= x < old(puzzle).boards@.len() && touched_at(config.boards@, info.table(), b as int, r as int, c as int, x)
                ==> #[trigger] unique_fill(
                cleared_at(config.boards@, info.table(), old(puzzle).boards@, b as int, r as int, c as int, x),
            ),
        kept ==> forall|x: int|
            0 <= x < final(puzzle).boards@.len() ==> #[trigger] final(puzzle).boards@[x]@ == cleared_at(
                config.boards@,
                info.table(),
                old(puzzle).boards@,
                b as int,
                r as int,
                c as int,
                x,
            ),
        !kept ==> forall|x: int| 0 <= x < final(puzzle).boards@.len() ==> #[trigger] final(puzzle).boards@[x]@ == old(puzzle).boards@[x]@,
        forall|x: int, r2: int, c2: int|
            0 <= x < old(puzzle).boards@.len() && 0 <= r2 < 9 && 0 <= c2 < 9 && #[trigger] old(puzzle).boards@[x]@[r2][c2] == 0
                ==> final(puzzle).boards@[x]@[r2][c2] == 0,
        (forall|x: int| 0 <= x < old(puzzle).boards@.len() ==> is_solution(#[trigger] old(puzzle).boards@[x]@)) ==> kept,
{
    let ghost pl = config.boards@;
    let ghost t = info.table();
    let ghost before = puzzle.boards@;
    let n = puzzle.boards.len();
    let val = puzzle.boards[b].get(r, c);
    let mut bd = puzzle.boards[b];
    bd.set(r, c, 0);
    puzzle.boards.set(b, bd);
    let (or, oc) = config.board_offset(b);
    let gr = or + r;
    let gc = oc + c;
    let owners = info.owners_of_cell(gr, gc);
    let ghost o = owners@;
    let ghost key = ((gr / 3) as usize, (gc / 3) as usize);
    proof {
        lemma_listed(t, gr as int / 3, gc as int / 3);
        if o.len() > 0 {
            let i = choose|i: int| 0 <= i < t.len() && (#[trigger] t[i]).0.0 == gr as int / 3 && t[i].0.1 == gc as int / 3
                && t[i].1 == o;
            assert(entry_ok(pl, t[i]));
        }
    }
    let mut ns: Vec<(usize, usize, usize, u8)> = Vec::new();
    let mut m: usize = 0;
    while m < owners.len()
        invariant
            n == pl.len(),
            pl == config.boards@,
            b < n,
            r < 9,
            c < 9,
            gr == 3 * pl[b as int].meta_row + r,
            gc == 3 * pl[b as int].meta_col + c,
            o == owners@,
            o == listed_owners(t, gr as int / 3, gc as int / 3),
            forall|j: int| 0 <= j < o.len() ==> (#[trigger] o[j]) < n && covers(pl[o[j] as int], gr as int / 3, gc as int / 3),
            forall|i: int, j: int| 0 <= i < j < o.len() ==> #[trigger] o[i] < #[trigger] o[j],
            m <= o.len(),
            puzzle.wf(),
            puzzle.config == old(puzzle).config,
            puzzle.boards@.len() == n,
            before == old(puzzle).boards@,
            val == before[b as int]@[r as int][c as int],
            forall|x: int|
                0 <= x < n ==> #[trigger] puzzle.boards@[x]@ == if x == b || o.subrange(0, m as int).contains(x as usize) {
                    set_cell(before[x]@, gr - 3 * pl[x].meta_row, gc - 3 * pl[x].meta_col, 0)
                } else {
                    before[x]@
                },
            forall|k: int|
                0 <= k < ns@.len() ==> {
                    let e = #[trigger] ns@[k];
                    &&& e.0 < n
                    &&& e.0 != b
                    &&& o.subrange(0, m as int).contains(e.0)
                    &&& e.1 == gr - 3 * pl[e.0 as int].meta_row
                    &&& e.2 == gc - 3 * pl[e.0 as int].meta_col
                    &&& e.1 < 9 && e.2 < 9
                    &&& e.3 == before[e.0 as int]@[e.1 as int][e.2 as int]
                },
            forall|x: int| 0 <= x < n && x != b && o.subrange(0, m as int).contains(x as usize) ==> #[trigger] lists_board(ns@, x),
            forall|i: int, j: int| 0 <= i < j < ns@.len() ==> (#[trigger] ns@[i]).0 < (#[trigger] ns@[j]).0,
            forall|k: int| 0 <= k < ns@.len() ==> exists|j: int| 0 <= j < m && o[j] == (#[trigger] ns@[k]).0,
        decreases o.len() - m,
    {
        let nb = owners[m];
        if nb != b {
            let (nlr, nlc) = config.grid_to_local(nb, gr, gc);
            let nv = puzzle.boards[nb].get(nlr, nlc);
            let ghost ns0 = ns@;
            ns.push((nb, nlr, nlc, nv));
            proof {
                assert(nlr < 9 && nlc < 9);
            }
            let ghost mid = puzzle.boards@;
            let mut nbd = puzzle.boards[nb];
            nbd.set(nlr, nlc, 0);
            puzzle.boards.set(nb, nbd);
            proof {
                lemma_sub_contains(o, m as int);
                assert(!o.subrange(0, m as int).contains(nb)) by {
                    if o.subrange(0, m as int).contains(nb) {
                        let j = choose|j: int| 0 <= j < m && #[trigger] o.subrange(0, m as int)[j] == nb;
                        assert(o[j] < o[m as int]);
                    }
                }
                assert(mid[nb as int]@ == before[nb as int]@);
                assert forall|x: int| 0 <= x < n implies #[trigger] puzzle.boards@[x]@ == if x == b || o.subrange(0, m + 1).contains(
                    x as usize,
                ) {
                    set_cell(before[x]@, gr - 3 * pl[x].meta_row, gc - 3 * pl[x].meta_col, 0)
                } else {
                    before[x]@
                } by {
                    if x != nb {
                        assert(puzzle.boards@[x] == mid[x]);
                    }
                }
                assert forall|k: int| 0 <= k < ns@.len() implies {
                    let e = #[trigger] ns@[k];
                    &&& e.0 < n
                    &&& e.0 != b
                    &&& o.subrange(0, m + 1).contains(e.0)
                    &&& e.1 == gr - 3 * pl[e.0 as int].meta_row
                    &&& e.2 == gc - 3 * pl[e.0 as int].meta_col
                    &&& e.1 < 9 && e.2 < 9
                    &&& e.3 == before[e.0 as int]@[e.1 as int][e.2 as int]
                } by {
                    if k < ns0.len() {
                        assert(ns@[k] == ns0[k]);
                    }
                }
                assert forall|x: int| 0 <= x < n && x != b && o.subrange(0, m + 1).contains(x as usize) implies #[trigger] lists_board(
                    ns@,
                    x,
                ) by {
                    if x == nb {
                        assert(ns@[ns0.len() as int].0 == x);
                    } else {
                        assert(lists_board(ns0, x));
                        let k = choose|k: int| 0 <= k < ns0.len() && ns0[k].0 == x;
                        assert(ns@[k] == ns0[k]);
                    }
                }
                assert forall|i: int, j: int| 0 <= i < j < ns@.len() implies (#[trigger] ns@[i]).0 < (#[trigger] ns@[j]).0 by {
                    if j < ns0.len() {
                        assert(ns@[i] == ns0[i] && ns@[j] == ns0[j]);
                    } else {
                        assert(ns@[i] == ns0[i]);
                        let jj = choose|jj: int| 0 <= jj < m && o[jj] == (#[trigger] ns0[i]).0;
                        assert(o[jj] < o[m as int]);
                    }
                }
                assert forall|k: int| 0 <= k < ns@.len() implies exists|j: int| 0 <= j < m + 1 && o[j] == (#[trigger] ns@[k]).0 by {
                    if k < ns0.len() {
                        assert(ns@[k] == ns0[k]);
                        let jj = choose|jj: int| 0 <= jj < m && o[jj] == (#[trigger] ns0[k]).0;
                    } else {
                        assert(o[m as int] == ns@[k].0);
                    }
                }
            }
        } else {
            proof {
                lemma_sub_contains(o, m as int);
                assert forall|x: int| 0 <= x < n && x != b && o.subrange(0, m + 1).contains(x as usize) implies #[trigger] lists_board(
                    ns@,
                    x,
                ) by {
                    assert(o.subrange(0, m as int).contains(x as usize));
                }
                assert forall|k: int| 0 <= k < ns@.len() implies exists|j: int| 0 <= j < m + 1 && o[j] == (#[trigger] ns@[k]).0 by {
                    let jj = choose|jj: int| 0 <= jj < m && o[jj] == (#[trigger] ns@[k]).0;
                }
                assert forall|k: int| 0 <= k < ns@.len() implies o.subrange(0, m + 1).contains((#[trigger] ns@[k]).0) by {
                    assert(o.subrange(0, m as int).contains(ns@[k].0));
                }
            }
        }
        m += 1;
    }
    proof {
        assert(o.subrange(0, o.len() as int) =~= o);
    }
    let ghost cl = puzzle.boards@;
    proof {
        assert forall|x: int| 0 <= x < n implies #[trigger] cl[x]@ == if x == b || o.contains(x as usize) {
            set_cell(before[x]@, gr - 3 * pl[x].meta_row, gc - 3 * pl[x].meta_col, 0)
        } else {
            before[x]@
        } by {}
    }
    proof {
        assert forall|x: int| 0 <= x < n implies #[trigger] cl[x]@ == cleared_at(pl, t, before, b as int, r as int, c as int, x) by {}
    }
    let mut test = puzzle.boards[b];
    let count_b = count_solutions(&mut test, 2);
    proof {
        lemma_count_unique(cl[b as int]@, count_b);
    }
    let mut unique = count_b == 1;
    let mut k: usize = 0;
    while k < ns.len()
        invariant
            k <= ns@.len(),
            n == puzzle.boards@.len(),
            puzzle.boards@ == cl,
            forall|q: int| 0 <= q < ns@.len() ==> (#[trigger] ns@[q]).0 < n,
            unique == (unique_fill(cl[b as int]@) && forall|q: int| 0 <= q < k ==> unique_fill(#[trigger] cl[ns@[q].0 as int]@)),
        decreases ns@.len() - k,
    {
        if unique {
            let nb = ns[k].0;
            let mut test_n = puzzle.boards[nb];
            let count_n = count_solutions(&mut test_n, 2);
            proof {
                lemma_count_unique(cl[nb as int]@, count_n);
            }
            if count_n != 1 {
                unique = false;
            }
        }
        proof {
            if !unique {
                if unique_fill(cl[b as int]@) && forall|q: int| 0 <= q < k ==> unique_fill(#[trigger] cl[ns@[q].0 as int]@) {
                    assert(!unique_fill(cl[ns@[k as int].0 as int]@));
                }
            }
        }
        k += 1;
    }
    proof {
        let pre = old(puzzle).boards@;
        if unique {
            assert forall|x: int|
                0 <= x < pre.len() && touched_at(pl, t, b as int, r as int, c as int, x) implies #[trigger] unique_fill(
                cleared_at(pl, t, pre, b as int, r as int, c as int, x),
            ) by {
                assert(cl[x]@ == cleared_at(pl, t, before, b as int, r as int, c as int, x));
                if x != b {
                    assert(lists_board(ns@, x));
                    let q = choose|q: int| 0 <= q < ns@.len() && ns@[q].0 == x;
                    assert(unique_fill(cl[ns@[q].0 as int]@));
                }
            }
        } else {
            if forall|x: int| 0 <= x < pre.len() ==> is_solution(#[trigger] pre[x]@) {
                assert(is_solution(pre[b as int]@));
                before[b as int].lemma_shape();
                lemma_one_blank_unique(before[b as int]@, r as int, c as int);
                assert(unique_fill(cl[b as int]@));
                let q = choose|q: int| 0 <= q < ns@.len() && !unique_fill(#[trigger] cl[ns@[q].0 as int]@);
                let e = ns@[q];
                assert(is_solution(pre[e.0 as int]@));
                before[e.0 as int].lemma_shape();
                lemma_one_blank_unique(before[e.0 as int]@, e.1 as int, e.2 as int);
                assert(false);
            }
            if unique_fill(cl[b as int]@) {
                let q = choose|q: int| 0 <= q < ns@.len() && !unique_fill(#[trigger] cl[ns@[q].0 as int]@);
                let x = ns@[q].0 as int;
                let jj = choose|jj: int| 0 <= jj < o.len() && o[jj] == (#[trigger] ns@[q]).0;
                assert(o[jj] == ns@[q].0);
                assert(touched_at(pl, t, b as int, r as int, c as int, x));
                assert(cl[x]@ == cleared_at(pl, t, before, b as int, r as int, c as int, x));
                assert(!unique_fill(cleared_at(pl, t, pre, b as int, r as int, c as int, x)));
            } else {
                assert(touched_at(pl, t, b as int, r as int, c as int, b as int));
                assert(cl[b as int]@ == cleared_at(pl, t, before, b as int, r as int, c as int, b as int));
            }
        }
    }
    if unique {
        proof {
            assert forall|x: int| 0 <= x < n implies well_shaped(#[trigger] cl[x]@) by {
                cl[x].lemma_shape();
            }
            assert forall|x: int, r2: int, c2: int|
                0 <= x < n && 0 <= r2 < 9 && 0 <= c2 < 9 implies #[trigger] cl[x]@[r2][c2] == 0 || cl[x]@[r2][c2]
                == sol[x]@[r2][c2] by {
                assert(before[x]@[r2][c2] == 0 || before[x]@[r2][c2] == sol[x]@[r2][c2]);
            }
            assert forall|x: int| 0 <= x < n implies at_most_one_fill(#[trigger] cl[x]@) || cl[x]@ == sol[x]@ by {
                if x != b && o.contains(x as usize) {
                    assert(lists_board(ns@, x));
                    let q = choose|q: int| 0 <= q < ns@.len() && ns@[q].0 == x;
                    assert(at_most_one_fill(cl[ns@[q].0 as int]@));
                } else if x != b {
                    assert(at_most_one_fill(before[x]@) || before[x]@ == sol[x]@);
                }
            }
            assert(covers(pl[b as int], gr as int / 3, gc as int / 3));
            lemma_clear_keeps_agreement(before, cl, pl, t, o, b as int, gr as int, gc as int);
        }
        true
    } else {
        let mut bd2 = puzzle.boards[b];
        bd2.set(r, c, val);
        puzzle.boards.set(b, bd2);
        proof {
            before[b as int].lemma_shape();
            lemma_restore(before[b as int]@, r as int, c as int);
            assert forall|x: int| 0 <= x < n implies #[trigger] puzzle.boards@[x]@ == if listed_from(ns@, 0, x) {
                set_cell(before[x]@, gr - 3 * pl[x].meta_row, gc - 3 * pl[x].meta_col, 0)
            } else {
                before[x]@
            } by {
                if x == b {
                    if listed_from(ns@, 0, x) {
                        let q = choose|q: int| 0 <= q < ns@.len() && ns@[q].0 == x;
                        assert(ns@[q].0 != b);
                    }
                } else {
                    assert(puzzle.boards@[x] == cl[x]);
                    if o.contains(x as usize) {
                        assert(lists_board(ns@, x));
                        let q = choose|q: int| 0 <= q < ns@.len() && ns@[q].0 == x;
                        assert(listed_from(ns@, 0, x));
                    } else if listed_from(ns@, 0, x) {
                        let q = choose|q: int| 0 <= q < ns@.len() && ns@[q].0 == x;
                        assert(o.contains(ns@[q].0));
                    }
                }
            }
        }
        let mut j: usize = 0;
        while j < ns.len()
            invariant
                j <= ns@.len(),
                n == puzzle.boards@.len(),
                n == pl.len(),
                puzzle.wf(),
                puzzle.config == old(puzzle).config,
                before == old(puzzle).boards@,
                forall|q: int|
                    0 <= q < ns@.len() ==> {
                        let e = #[trigger] ns@[q];
                        &&& e.0 < n
                        &&& e.1 == gr - 3 * pl[e.0 as int].meta_row
                        &&& e.2 == gc - 3 * pl[e.0 as int].meta_col
                        &&& e.1 < 9 && e.2 < 9
                        &&& e.3 == before[e.0 as int]@[e.1 as int][e.2 as int]
                    },
                forall|a: int, q: int| 0 <= a < q < ns@.len() ==> (#[trigger] ns@[a]).0 < (#[trigger] ns@[q]).0,
                forall|x: int|
                    0 <= x < n ==> #[trigger] puzzle.boards@[x]@ == if listed_from(ns@, j as int, x) {
                        set_cell(before[x]@, gr - 3 * pl[x].meta_row, gc - 3 * pl[x].meta_col, 0)
                    } else {
                        before[x]@
                    },
            decreases ns@.len() - j,
        {
            let (nb, nlr, nlc, nv) = ns[j];
            let ghost mid = puzzle.boards@;
            let mut nbd = puzzle.boards[nb];
            nbd.set(nlr, nlc, nv);
            puzzle.boards.set(nb, nbd);
            proof {
                before[nb as int].lemma_shape();
                lemma_restore(before[nb as int]@, nlr as int, nlc as int);
                assert(listed_from(ns@, j as int, nb as int));
                assert forall|x: int| 0 <= x < n implies #[trigger] puzzle.boards@[x]@ == if listed_from(ns@, j + 1, x) {
                    set_cell(before[x]@, gr - 3 * pl[x].meta_row, gc - 3 * pl[x].meta_col, 0)
                } else {
                    before[x]@
                } by {
                    if x == nb {
                        if listed_from(ns@, j + 1, x) {
                            let q = choose|q: int| j + 1 <= q < ns@.len() && ns@[q].0 == x;
                            assert(ns@[j as int].0 < ns@[q].0);
                        }
                    } else {
                        assert(puzzle.boards@[x] == mid[x]);
                        if listed_from(ns@, j as int, x) {
                            let q = choose|q: int| j <= q < ns@.len() && ns@[q].0 == x;
                            assert(q != j);
                            assert(listed_from(ns@, j + 1, x));
                        }
                    }
                }
            }
            j += 1;
        }
        proof {
            assert forall|x: int| 0 <= x < n implies #[trigger] puzzle.boards@[x]@ == before[x]@ by {
                if listed_from(ns@, j as int, x) {
                    let q = choose|q: int| j <= q < ns@.len() && ns@[q].0 == x;
                }
            }
            assert forall|x: int| 0 <= x < n implies well_shaped(#[trigger] puzzle.boards@[x]@) by {
                puzzle.boards@[x].lemma_shape();
            }
            assert forall|x: int, r2: int, c2: int|
                0 <= x < n && 0 <= r2 < 9 && 0 <= c2 < 9 implies #[trigger] puzzle.boards@[x]@[r2][c2] == 0
                || puzzle.boards@[x]@[r2][c2] == sol[x]@[r2][c2] by {
                assert(puzzle.boards@[x]@ == before[x]@);
            }
            assert forall|x: int| 0 <= x < n implies at_most_one_fill(#[trigger] puzzle.boards@[x]@) || puzzle.boards@[x]@
                == sol[x]@ by {
                assert(puzzle.boards@[x]@ == before[x]@);
            }
            lemma_agree_same_views(before, puzzle.boards@, pl);
        }
        false
    }
}

/// Some entry from index `j` on is for board `x`.
pub open spec fn listed_from(ns: Seq<(usize, usize, usize, u8)>, j: int, x: int) -> bool {
    exists|q: int| j <= q < ns.len() && ns[q].0 == x
}

/// The list for the first entry with a given meta-cell; with distinct
/// meta-cells, that of the entry itself.
proof fn lemma_listed_at(t: Seq<((usize, usize), Seq<usize>)>, e: int)
    requires
        0 <= e < t.len(),
        forall|i: int, j: int| 0 <= i < j < t.len() ==> (#[trigger] t[i]).0 != (#[trigger] t[j]).0,
    ensures
        listed_owners(t, t[e].0.0 as int, t[e].0.1 as int) == t[e].1,
    decreases t.len(),
{
    if e > 0 {
        let u = t.drop_first();
        assert(t[0].0 != t[e].0);
        assert forall|i: int, j: int| 0 <= i < j < u.len() implies (#[trigger] u[i]).0 != (#[trigger] u[j]).0 by {
            assert(u[i] == t[i + 1] && u[j] == t[j + 1]);
        }
        assert(u[e - 1] == t[e]);
        lemma_listed_at(u, e - 1);
    }
}

/// Boards with the same views agree where the others did.
proof fn lemma_agree_same_views(a: Seq<Board>, b: Seq<Board>, pl: Seq<BoardPlacement>)
    requires
        overlaps_agree(a, pl),
        a.len() == b.len(),
        forall|x: int| 0 <= x < a.len() ==> #[trigger] b[x]@ == a[x]@,
        forall|i: int| 0 <= i < owner_table(pl).len() ==> #[trigger] entry_ok(pl, owner_table(pl)[i]),
        a.len() == pl.len(),
    ensures
        overlaps_agree(b, pl),
{
    let t = owner_table(pl);
    assert forall|e: int| 0 <= e < t.len() && (#[trigger] t[e]).1.len() == 2 implies box_agrees(b, pl, t[e].0, t[e].1[0], t[e].1[1]) by {
        assert(entry_ok(pl, t[e]));
        assert(box_agrees(a, pl, t[e].0, t[e].1[0], t[e].1[1]));
        assert(b[t[e].1[0] as int]@ == a[t[e].1[0] as int]@);
        assert(b[t[e].1[1] as int]@ == a[t[e].1[1] as int]@);
    }
}

/// Clearing one grid cell on a board covering it and on every board the
/// table lists for its meta-cell keeps shared boxes agreeing.
proof fn lemma_clear_keeps_agreement(
    before: Seq<Board>,
    after: Seq<Board>,
    pl: Seq<BoardPlacement>,
    t: Seq<((usize, usize), Seq<usize>)>,
    o: Seq<usize>,
    b: int,
    gr: int,
    gc: int,
)
    requires
        t == owner_table(pl),
        forall|i: int| 0 <= i < t.len() ==> #[trigger] entry_ok(pl, t[i]),
        forall|i: int, j: int| 0 <= i < j < t.len() ==> (#[trigger] t[i]).0 != (#[trigger] t[j]).0,
        o == listed_owners(t, gr / 3, gc / 3),
        overlaps_agree(before, pl),
        before.len() == pl.len(),
        after.len() == before.len(),
        0 <= b < pl.len(),
        pl.len() <= usize::MAX,
        gr >= 0,
        gc >= 0,
        covers(pl[b], gr / 3, gc / 3),
        forall|x: int|
            0 <= x < after.len() ==> #[trigger] after[x]@ == if x == b || o.contains(x as usize) {
                set_cell(before[x]@, gr - 3 * pl[x].meta_row, gc - 3 * pl[x].meta_col, 0)
            } else {
                before[x]@
            },
    ensures
        overlaps_agree(after, pl),
{
    lemma_listed(t, gr / 3, gc / 3);
    assert forall|x: int| 0 <= x < pl.len() && (x == b || o.contains(x as usize)) implies covers(#[trigger] pl[x], gr / 3, gc / 3) by {
        if x != b {
            let i = choose|i: int| 0 <= i < t.len() && (#[trigger] t[i]).0.0 == gr / 3 && t[i].0.1 == gc / 3 && t[i].1 == o;
            assert(entry_ok(pl, t[i]));
            let q = choose|q: int| 0 <= q < o.len() && o[q] == x as usize;
            assert(o[q] < pl.len());
            assert(o[q] as int == x);
        }
    }
    assert forall|e: int| 0 <= e < t.len() && (#[trigger] t[e]).1.len() == 2 implies box_agrees(
        after,
        pl,
        t[e].0,
        t[e].1[0],
        t[e].1[1],
    ) by {
        assert(entry_ok(pl, t[e]));
        let key = t[e].0;
        let a1 = t[e].1[0];
        let a2 = t[e].1[1];
        assert(box_agrees(before, pl, key, a1, a2));
        assert forall|i: int, j: int| 0 <= i < 3 && 0 <= j < 3 implies #[trigger] after[a1 as int]@[3 * (key.0
            - pl[a1 as int].meta_row) + i][3 * (key.1 - pl[a1 as int].meta_col) + j] == after[a2 as int]@[3 * (key.0
            - pl[a2 as int].meta_row) + i][3 * (key.1 - pl[a2 as int].meta_col) + j] by {
            let r1 = 3 * (key.0 - pl[a1 as int].meta_row) + i;
            let c1 = 3 * (key.1 - pl[a1 as int].meta_col) + j;
            let r2 = 3 * (key.0 - pl[a2 as int].meta_row) + i;
            let c2 = 3 * (key.1 - pl[a2 as int].meta_col) + j;
            before[a1 as int].lemma_shape();
            before[a2 as int].lemma_shape();
            if 3 * key.0 + i == gr && 3 * key.1 + j == gc {
                assert(key.0 == gr / 3 && key.1 == gc / 3);
                lemma_listed_at(t, e);
                assert(o == t[e].1);
                assert(o.contains(a1)) by {
                    assert(o[0] == a1);
                }
                assert(o.contains(a2)) by {
                    assert(o[1] == a2);
                }
            } else {
                assert(before[a1 as int]@[r1][c1] == before[a2 as int]@[r2][c2]);
            }
        }
    }
}

} // verus!
