use vstd::prelude::*;
use crate::entropy::get_seed;
use crate::text::str_eq;
use crate::sudoku::board::{Board, set_cell, well_shaped, in_box, complete};
use crate::sudoku::solver::{
    solve, count_solutions, is_fill, has_fill, at_most_one_fill, is_solution, cell_ok,
    lemma_fill_of_consistent_is_solution, lemma_solution_extending_is_fill, lemma_grid_ext, search,
    unique_fill, lemma_count_unique, two_fills, grid_zeros,
};
use crate::sudoku::generator::{
    lemma_one_blank_unique, Rng, fill_box, box_holds_digits, generate_solved, all_positions, lemma_clear_adds_zero,
    lemma_diagonal_seed_consistent, in_diagonal_box, lemma_fill_keeps_box, shuffles_state, digits19, solved_from,
    grid_positions, clues_within, lemma_two_fills_widen, lemma_not_unique_two_fills,
};
use crate::multi_sudoku::multi_board::MultiBoard;
use crate::xorshift::{lemma_shuffle_permutes, shuffle_from};

verus! {

/// Box 8 of board `b` of `m` holds the values of box 0 of board `b + 1`.
pub open spec fn pair_agrees(m: MultiBoard, b: int) -> bool {
    forall|r: int, c: int| 0 <= r < 3 && 0 <= c < 3 ==> #[trigger] m.boards@[b]@[6 + r][6 + c] == m.boards@[b + 1]@[r][c]
}

/// Fills boxes 4 and 8 with shuffled digits, and box 0 too unless
/// `skip_box_0`; every other cell is left alone.
fn fill_diagonal_boxes(board: &mut Board, rng: &mut Rng, skip_box_0: bool)
    requires
        well_shaped(old(board)@),
    ensures
        well_shaped(final(board)@),
        forall|r: int, c: int|
            0 <= r < 9 && 0 <= c < 9 && !(in_diagonal_box(r, c) && (r >= 3 || !skip_box_0))
                ==> #[trigger] final(board)@[r][c] == old(board)@[r][c],
        !skip_box_0 ==> box_holds_digits(final(board)@, 0),
        box_holds_digits(final(board)@, 4),
        box_holds_digits(final(board)@, 8),
        skip_box_0 ==> final(rng).state == shuffles_state(old(rng).state, 2),
        skip_box_0 ==> forall|r: int, c: int|
            in_diagonal_box(r, c) && r >= 3 ==> #[trigger] final(board)@[r][c] == chained_digit(old(rng).state, r, c),
{
    let ghost g0 = board@;
    let ghost st0 = rng.state;
    if !skip_box_0 {
        fill_box(board, 0, rng);
    }
    let ghost g1 = board@;
    fill_box(board, 4, rng);
    let ghost g2 = board@;
    fill_box(board, 8, rng);
    proof {
        assert forall|r: int, c: int|
            0 <= r < 9 && 0 <= c < 9 && !(in_diagonal_box(r, c) && (r >= 3 || !skip_box_0)) implies #[trigger] board@[r][c]
            == g0[r][c] by {
            assert(!in_box(8, r, c) && !in_box(4, r, c));
            assert(board@[r][c] == g2[r][c]);
            assert(g2[r][c] == g1[r][c]);
            if !skip_box_0 {
                assert(!in_box(0, r, c));
            }
        }
        if !skip_box_0 {
            assert(box_holds_digits(g1, 0));
            assert forall|r: int, c: int| #[trigger] in_box(0, r, c) implies board@[r][c] == g1[r][c] by {
                assert(board@[r][c] == g2[r][c]);
            }
        }
        assert(box_holds_digits(g2, 4));
        assert forall|r: int, c: int| #[trigger] in_box(4, r, c) implies board@[r][c] == g2[r][c] by {}
        if skip_box_0 {
            reveal_with_fuel(shuffles_state, 3);
            assert forall|r: int, c: int| in_diagonal_box(r, c) && r >= 3 implies #[trigger] board@[r][c] == chained_digit(st0, r, c) by {
                if r < 6 {
                    assert(in_box(4, r, c));
                    assert(!in_box(8, r, c));
                    assert(board@[r][c] == g2[r][c]);
                } else {
                    assert(in_box(8, r, c));
                }
            }
        }
    }
}

/// The digit that a diagonal box other than box 0 of (r, c) gets from the
/// generator state `st` when box 0 is taken from the previous board: box 4
/// from the first shuffle, box 8 from the second, read row by row.
pub open spec fn chained_digit(st: u64, r: int, c: int) -> u8 {
    shuffle_from(digits19(), shuffles_state(st, (r / 3 - 1) as nat), 8).0[(r % 3) * 3 + c % 3]
}

/// The seed of the board that follows `prev`: box 0 repeats box 8 of
/// `prev`, boxes 4 and 8 get shuffled digits from `st`, the rest is empty.
pub open spec fn chained_seed(prev: Seq<Seq<u8>>, st: u64) -> Seq<Seq<u8>> {
    Seq::new(
        9,
        |r: int|
            Seq::new(
                9,
                |c: int|
                    if r < 3 && c < 3 {
                        prev[6 + r][6 + c]
                    } else if in_diagonal_box(r, c) {
                        chained_digit(st, r, c)
                    } else {
                        0u8
                    },
            ),
    )
}

/// The board that follows `prev` from the generator state `st`: the first
/// completion the search finds for its seed, or the seed when it has none.
pub open spec fn chained_from(prev: Seq<Seq<u8>>, st: u64) -> Seq<Seq<u8>> {
    match search(chained_seed(prev, st)) {
        Some(s) => s,
        None => chained_seed(prev, st),
    }
}

/// A solved board whose box 0 repeats box 8 of `prev`: box 0 is copied
/// from `prev`, boxes 4 and 8 are filled with shuffled digits and the rest
/// is solved. When the solver finds no completion the seeded board is
/// returned as it is.
fn generate_solved_chained(prev: &Board, rng: &mut Rng) -> (b: Board)
    ensures
        well_shaped(b@),
        forall|r: int, c: int|
            0 <= r < 3 && 0 <= c < 3 && prev@[6 + r][6 + c] != 0 ==> #[trigger] b@[r][c] == prev@[6 + r][6 + c],
        box_holds_digits(prev@, 8) ==> is_solution(b@) || !has_fill(b@),
        box_holds_digits(b@, 8),
        b@ == chained_from(prev@, old(rng).state),
        final(rng).state == shuffles_state(old(rng).state, 2),
{
    let mut board = Board::new();
    let ghost g0 = board@;
    let ghost st = rng.state;
    prev.copy_box_to(8, &mut board, 0);
    let ghost g1 = board@;
    fill_diagonal_boxes(&mut board, rng, true);
    let ghost seed = board@;
    proof {
        prev.lemma_shape();
        assert forall|r: int, c: int| 0 <= r < 9 && 0 <= c < 9 implies #[trigger] seed[r][c] == chained_seed(prev@, st)[r][c] by {
            if r < 3 && c < 3 {
                assert(in_box(0, r, c));
                assert(seed[r][c] == g1[r][c]);
            } else if in_diagonal_box(r, c) {
            } else {
                assert(!in_box(0, r, c));
                assert(seed[r][c] == g1[r][c]);
            }
        }
        lemma_grid_ext(seed, chained_seed(prev@, st));
        assert forall|r: int, c: int| 0 <= r < 3 && 0 <= c < 3 implies #[trigger] seed[r][c] == prev@[6 + r][6 + c] by {
            assert(in_box(0, r, c));
            assert(seed[r][c] == g1[r][c]);
        }
        if box_holds_digits(prev@, 8) {
            assert(box_holds_digits(seed, 0)) by {
                assert forall|r: int, c: int| #[trigger] in_box(0, r, c) implies 1 <= seed[r][c] <= 9 by {
                    assert(in_box(8, 6 + r, 6 + c));
                    assert(seed[r][c] == prev@[6 + r][6 + c]);
                }
                assert forall|r: int, c: int, r2: int, c2: int|
                    #[trigger] in_box(0, r, c) && #[trigger] in_box(0, r2, c2) && (r != r2 || c != c2) implies seed[r][c]
                    != seed[r2][c2] by {
                    assert(in_box(8, 6 + r, 6 + c));
                    assert(in_box(8, 6 + r2, 6 + c2));
                    assert(seed[r][c] == prev@[6 + r][6 + c]);
                    assert(seed[r2][c2] == prev@[6 + r2][6 + c2]);
                }
            }
            assert forall|r: int, c: int|
                0 <= r < 9 && 0 <= c < 9 && !in_diagonal_box(r, c) implies #[trigger] seed[r][c] == g0[r][c] by {
                assert(!in_box(0, r, c));
                assert(seed[r][c] == g1[r][c]);
            }
            lemma_diagonal_seed_consistent(g0, seed);
        }
    }
    if solve(&mut board) {
        proof {
            if box_holds_digits(prev@, 8) {
                lemma_fill_of_consistent_is_solution(seed, board@);
            }
            lemma_fill_keeps_box(seed, board@, 8);
            assert forall|r: int, c: int|
                0 <= r < 3 && 0 <= c < 3 && prev@[6 + r][6 + c] != 0 implies #[trigger] board@[r][c] == prev@[6 + r][6 + c] by {
                assert(seed[r][c] == prev@[6 + r][6 + c]);
            }
        }
    }
    proof {
        board.lemma_shape();
    }
    board
}

/// Puzzle difficulty.
#[derive(Clone, Copy, Debug, PartialEq, Eq, Structural)]
pub enum Difficulty {
    Easy,
    Medium,
    Hard,
}

/// Cells removed from each board: 32, 40 or 48 of 81.
pub open spec fn removal_target(d: Difficulty) -> usize {
    match d {
        Difficulty::Easy => 32,
        Difficulty::Medium => 40,
        Difficulty::Hard => 48,
    }
}

impl Difficulty {
    /// Cells to remove from each board.
    fn cells_to_remove(self) -> (n: usize)
        ensures
            n == removal_target(self),
    {
        match self {
            Difficulty::Easy => 32,
            Difficulty::Medium => 40,
            Difficulty::Hard => 48,
        }
    }
}

/// The difficulty named by `s` ("easy", "hard"); anything else is Medium.
pub fn difficulty_from_str(s: &str) -> (d: Difficulty)
    ensures
        d == if s@ == "easy"@ {
            Difficulty::Easy
        } else if s@ == "hard"@ {
            Difficulty::Hard
        } else {
            Difficulty::Medium
        },
{
    if str_eq(s, "easy") {
        Difficulty::Easy
    } else if str_eq(s, "hard") {
        Difficulty::Hard
    } else {
        Difficulty::Medium
    }
}

/// A solved board, or one without completion, has at most one completion.
pub(crate) proof fn lemma_solution_unique(g: Seq<Seq<u8>>)
    requires
        well_shaped(g),
        is_solution(g) || !has_fill(g),
    ensures
        at_most_one_fill(g),
{
    assert forall|s1: Seq<Seq<u8>>, s2: Seq<Seq<u8>>| is_fill(g, s1) && is_fill(g, s2) implies s1 == s2 by {
        assert(has_fill(g));
        assert(complete(g)) by {
            assert forall|r: int, c: int| #![trigger g[r][c]] 0 <= r < 9 && 0 <= c < 9 implies g[r][c] != 0 by {
                assert(cell_ok(g, r, c, false));
            }
        }
        assert forall|r: int, c: int| 0 <= r < 9 && 0 <= c < 9 implies #[trigger] s1[r][c] == s2[r][c] by {
            assert(g[r][c] != 0);
        }
        lemma_grid_ext(s1, s2);
    }
}

/// Clearing a cell and writing its old value back gives the board back.
pub(crate) proof fn lemma_restore(g: Seq<Seq<u8>>, r: int, c: int)
    requires
        well_shaped(g),
        0 <= r < 9,
        0 <= c < 9,
    ensures
        set_cell(set_cell(g, r, c, 0), r, c, g[r][c]) == g,
{
    let h = set_cell(set_cell(g, r, c, 0), r, c, g[r][c]);
    assert forall|r2: int, c2: int| 0 <= r2 < 9 && 0 <= c2 < 9 implies #[trigger] h[r2][c2] == g[r2][c2] by {}
    lemma_grid_ext(h, g);
}

/// The facts kept about (puzzle, solution) while cells are removed.
pub open spec fn removal_inv(puzzle: MultiBoard, solution: MultiBoard) -> bool {
    &&& forall|x: int| 0 <= x < 3 ==> well_shaped(#[trigger] puzzle.boards@[x]@)
    &&& forall|x: int| 0 <= x < 3 ==> well_shaped(#[trigger] solution.boards@[x]@)
    &&& forall|x: int| 0 <= x < 3 ==> at_most_one_fill(#[trigger] puzzle.boards@[x]@)
    &&& forall|x: int, r: int, c: int|
        0 <= x < 3 && 0 <= r < 9 && 0 <= c < 9 ==> #[trigger] puzzle.boards@[x]@[r][c] == 0
            || puzzle.boards@[x]@[r][c] == solution.boards@[x]@[r][c]
    &&& forall|p: int| 0 <= p < 2 && #[trigger] pair_agrees(solution, p) ==> pair_agrees(puzzle, p)
}

/// Clears cell (r, c) of board `b` and, where it lies in a shared box, the
/// same cell of the neighbouring board. Gives back the neighbour cleared
/// and its old value.
fn clear_shared(puzzle: &mut MultiBoard, b: usize, r: usize, c: usize) -> (n: Option<(usize, usize, usize, u8)>)
    requires
        b < 3,
        r < 9,
        c < 9,
        forall|x: int| 0 <= x < 3 ==> well_shaped(#[trigger] old(puzzle).boards@[x]@),
    ensures
        forall|x: int| 0 <= x < 3 ==> well_shaped(#[trigger] final(puzzle).boards@[x]@),
        final(puzzle).boards@[b as int]@ == set_cell(old(puzzle).boards@[b as int]@, r as int, c as int, 0),
        n == (if b < 2 && r >= 6 && c >= 6 {
            Some(((b + 1) as usize, (r - 6) as usize, (c - 6) as usize, old(puzzle).boards@[b + 1]@[r - 6][c - 6]))
        } else if b > 0 && r < 3 && c < 3 {
            Some(((b - 1) as usize, (r + 6) as usize, (c + 6) as usize, old(puzzle).boards@[b - 1]@[r + 6][c + 6]))
        } else {
            None
        }),
        n matches Some((nb, nr, nc, nv)) ==> final(puzzle).boards@[nb as int]@ == set_cell(
            old(puzzle).boards@[nb as int]@,
            nr as int,
            nc as int,
            0,
        ),
        forall|x: int|
            0 <= x < 3 && x != b && !(n matches Some((nb, _, _, _)) && nb == x) ==> #[trigger] final(puzzle).boards@[x]@
                == old(puzzle).boards@[x]@,
{
    let mut bd = puzzle.boards[b];
    bd.set(r, c, 0);
    puzzle.boards[b] = bd;
    proof {
        bd.lemma_shape();
    }
    if b < 2 && r >= 6 && c >= 6 {
        let nb = b + 1;
        let nv = puzzle.boards[nb].get(r - 6, c - 6);
        let mut nbd = puzzle.boards[nb];
        nbd.set(r - 6, c - 6, 0);
        puzzle.boards[nb] = nbd;
        proof {
            nbd.lemma_shape();
        }
        Some((nb, r - 6, c - 6, nv))
    } else if b > 0 && r < 3 && c < 3 {
        let nb = b - 1;
        let nv = puzzle.boards[nb].get(r + 6, c + 6);
        let mut nbd = puzzle.boards[nb];
        nbd.set(r + 6, c + 6, 0);
        puzzle.boards[nb] = nbd;
        proof {
            nbd.lemma_shape();
        }
        Some((nb, r + 6, c + 6, nv))
    } else {
        None
    }
}

/// A board with at least one empty cell.
pub open spec fn has_blank(g: Seq<Seq<u8>>) -> bool {
    exists|r: int, c: int| 0 <= r < 9 && 0 <= c < 9 && #[trigger] g[r][c] == 0
}

/// Every board of `m` is solved.
pub open spec fn all_solved(m: MultiBoard) -> bool {
    forall|x: int| 0 <= x < 3 ==> is_solution(#[trigger] m.boards@[x]@)
}

/// The grids of the three boards.
pub open spec fn grids(m: MultiBoard) -> Seq<Seq<Seq<u8>>> {
    Seq::new(3, |x: int| m.boards@[x]@)
}

/// The cell of the neighbouring board that shares cell (r, c) of board
/// `b`, if any.
pub open spec fn twin(b: int, r: int, c: int) -> Option<(int, int, int)> {
    if b < 2 && r >= 6 && c >= 6 {
        Some((b + 1, r - 6, c - 6))
    } else if b > 0 && r < 3 && c < 3 {
        Some((b - 1, r + 6, c + 6))
    } else {
        None
    }
}

/// The grids with cell (r, c) of board `b`, and its twin, emptied.
pub open spec fn cleared_grids(gs: Seq<Seq<Seq<u8>>>, b: int, r: int, c: int) -> Seq<Seq<Seq<u8>>> {
    let g1 = gs.update(b, set_cell(gs[b], r, c, 0));
    match twin(b, r, c) {
        Some(t) => g1.update(t.0, set_cell(gs[t.0], t.1, t.2, 0)),
        None => g1,
    }
}

/// Emptying cell (r, c) of board `b` (and its twin) keeps a single
/// completion on every board touched.
pub open spec fn clear_kept(gs: Seq<Seq<Seq<u8>>>, b: int, r: int, c: int) -> bool {
    let cg = cleared_grids(gs, b, r, c);
    &&& unique_fill(cg[b])
    &&& (twin(b, r, c) matches Some(t) ==> unique_fill(cg[t.0]))
}

/// The grids after clearing on board `b`, from position `p` of
/// `positions` on, each filled cell whose clearing is kept, until `target`
/// cells in all are cleared (`removed` of them already).
pub open spec fn multi_removal(
    gs: Seq<Seq<Seq<u8>>>,
    b: int,
    positions: Seq<(usize, usize)>,
    p: int,
    removed: int,
    target: int,
) -> Seq<Seq<Seq<u8>>>
    decreases positions.len() - p,
{
    if 0 <= p < positions.len() && removed < target {
        let r = positions[p].0 as int;
        let c = positions[p].1 as int;
        if gs[b][r][c] != 0 && clear_kept(gs, b, r, c) {
            multi_removal(cleared_grids(gs, b, r, c), b, positions, p + 1, removed + 1, target)
        } else {
            multi_removal(gs, b, positions, p + 1, removed, target)
        }
    } else {
        gs
    }
}

/// Cell (r, c) of board `b` cannot be cleared keeping single completions:
/// clearing it, or its twin on the neighbouring board, leaves two
/// completions on that board.
pub open spec fn pass_blocked(gs: Seq<Seq<Seq<u8>>>, b: int, r: int, c: int) -> bool {
    ||| two_fills(set_cell(gs[b], r, c, 0))
    ||| twin(b, r, c) matches Some(t) && two_fills(set_cell(gs[t.0], t.1, t.2, 0))
}

/// The three boards are 9x9 and their clues are those of three solved boards.
pub open spec fn within_solutions(gs: Seq<Seq<Seq<u8>>>, sols: Seq<Seq<Seq<u8>>>) -> bool {
    &&& gs.len() == 3
    &&& sols.len() == 3
    &&& forall|x: int| 0 <= x < 3 ==> well_shaped(#[trigger] gs[x]) && well_shaped(sols[x]) && is_solution(sols[x])
        && clues_within(gs[x], sols[x])
}

proof fn lemma_multi_pass_tries(
    gs: Seq<Seq<Seq<u8>>>,
    sols: Seq<Seq<Seq<u8>>>,
    b: int,
    positions: Seq<(usize, usize)>,
    p: int,
    removed: int,
    target: int,
)
    requires
        within_solutions(gs, sols),
        0 <= b < 3,
        0 <= p <= positions.len(),
        0 <= removed <= target,
        forall|k: int| 0 <= k < positions.len() ==> #[trigger] positions[k].0 < 9 && positions[k].1 < 9,
    ensures
        ({
            let res = multi_removal(gs, b, positions, p, removed, target);
            &&& within_solutions(res, sols)
            &&& forall|x: int| 0 <= x < 3 ==> clues_within(#[trigger] res[x], gs[x])
            &&& grid_zeros(res[b]) + removed <= grid_zeros(gs[b]) + target
            &&& (grid_zeros(res[b]) + removed < grid_zeros(gs[b]) + target ==> forall|k: int|
                p <= k < positions.len() && #[trigger] res[b][positions[k].0 as int][positions[k].1 as int] != 0
                    ==> pass_blocked(res, b, positions[k].0 as int, positions[k].1 as int))
        }),
    decreases positions.len() - p,
{
    if p < positions.len() && removed < target {
        let r = positions[p].0 as int;
        let c = positions[p].1 as int;
        let cg = cleared_grids(gs, b, r, c);
        assert(within_solutions(cg, sols) && forall|x: int| 0 <= x < 3 ==> clues_within(#[trigger] cg[x], gs[x])) by {
            assert forall|x: int| 0 <= x < 3 implies well_shaped(#[trigger] cg[x]) && clues_within(cg[x], sols[x])
                && clues_within(cg[x], gs[x]) by {
                assert forall|r2: int, c2: int| 0 <= r2 < 9 && 0 <= c2 < 9 implies #[trigger] cg[x][r2][c2] == 0
                    || cg[x][r2][c2] == sols[x][r2][c2] by {
                    assert(gs[x][r2][c2] == 0 || gs[x][r2][c2] == sols[x][r2][c2]);
                }
            }
        }
        if gs[b][r][c] != 0 && clear_kept(gs, b, r, c) {
            lemma_clear_adds_zero(gs[b], r, c);
            assert(cg[b] == set_cell(gs[b], r, c, 0));
            lemma_multi_pass_tries(cg, sols, b, positions, p + 1, removed + 1, target);
            let res = multi_removal(cg, b, positions, p + 1, removed + 1, target);
            assert(res == multi_removal(gs, b, positions, p, removed, target));
            assert forall|x: int| 0 <= x < 3 implies clues_within(#[trigger] res[x], gs[x]) by {
                assert forall|r2: int, c2: int| 0 <= r2 < 9 && 0 <= c2 < 9 implies #[trigger] res[x][r2][c2] == 0
                    || res[x][r2][c2] == gs[x][r2][c2] by {
                    assert(res[x][r2][c2] == 0 || res[x][r2][c2] == cg[x][r2][c2]);
                    assert(cg[x][r2][c2] == 0 || cg[x][r2][c2] == gs[x][r2][c2]);
                }
            }
            assert(res[b][r][c] == 0 || res[b][r][c] == cg[b][r][c]);
        } else {
            lemma_multi_pass_tries(gs, sols, b, positions, p + 1, removed, target);
            let res = multi_removal(gs, b, positions, p + 1, removed, target);
            assert(res == multi_removal(gs, b, positions, p, removed, target));
            if grid_zeros(res[b]) + removed < grid_zeros(gs[b]) + target && res[b][r][c] != 0 {
                assert(res[b][r][c] == gs[b][r][c]);
                assert(cg[b] == set_cell(gs[b], r, c, 0));
                let h = set_cell(res[b], r, c, 0);
                assert(clues_within(h, cg[b])) by {
                    assert forall|r2: int, c2: int| 0 <= r2 < 9 && 0 <= c2 < 9 implies #[trigger] h[r2][c2] == 0
                        || h[r2][c2] == cg[b][r2][c2] by {
                        assert(res[b][r2][c2] == 0 || res[b][r2][c2] == gs[b][r2][c2]);
                    }
                }
                assert(well_shaped(h));
                if !unique_fill(cg[b]) {
                    lemma_not_unique_two_fills(cg[b], sols[b]);
                    lemma_two_fills_widen(h, cg[b], sols[b]);
                } else {
                    let t = twin(b, r, c)->0;
                    assert(!unique_fill(cg[t.0]));
                    assert(cg[t.0] == set_cell(gs[t.0], t.1, t.2, 0));
                    let h2 = set_cell(res[t.0], t.1, t.2, 0);
                    assert(clues_within(h2, cg[t.0])) by {
                        assert forall|r2: int, c2: int| 0 <= r2 < 9 && 0 <= c2 < 9 implies #[trigger] h2[r2][c2] == 0
                            || h2[r2][c2] == cg[t.0][r2][c2] by {
                            assert(res[t.0][r2][c2] == 0 || res[t.0][r2][c2] == gs[t.0][r2][c2]);
                        }
                    }
                    assert(well_shaped(h2));
                    lemma_not_unique_two_fills(cg[t.0], sols[t.0]);
                    lemma_two_fills_widen(h2, cg[t.0], sols[t.0]);
                }
            }
        }
    }
}

/// A clearing pass over board `b` in an order that lists every cell clears
/// exactly 32 cells of that board for Easy, 40 for Medium and 48 for Hard,
/// unless it clears fewer, and then no filled cell it leaves on the board
/// can be cleared keeping single completions.
pub proof fn lemma_pass_clears_target(
    gs: Seq<Seq<Seq<u8>>>,
    sols: Seq<Seq<Seq<u8>>>,
    b: int,
    positions: Seq<(usize, usize)>,
    d: Difficulty,
)
    requires
        within_solutions(gs, sols),
        0 <= b < 3,
        forall|k: int| 0 <= k < positions.len() ==> #[trigger] positions[k].0 < 9 && positions[k].1 < 9,
        forall|r: usize, c: usize| r < 9 && c < 9 ==> #[trigger] positions.contains((r, c)),
    ensures
        ({
            let res = multi_removal(gs, b, positions, 0, 0, removal_target(d) as int);
            let n = match d {
                Difficulty::Easy => 32int,
                Difficulty::Medium => 40int,
                Difficulty::Hard => 48int,
            };
            ||| grid_zeros(res[b]) == grid_zeros(gs[b]) + n
            ||| grid_zeros(res[b]) < grid_zeros(gs[b]) + n && forall|r: int, c: int|
                0 <= r < 9 && 0 <= c < 9 && #[trigger] res[b][r][c] != 0 ==> pass_blocked(res, b, r, c)
        }),
{
    let target = removal_target(d) as int;
    lemma_multi_pass_tries(gs, sols, b, positions, 0, 0, target);
    let res = multi_removal(gs, b, positions, 0, 0, target);
    if grid_zeros(res[b]) < grid_zeros(gs[b]) + target {
        assert forall|r: int, c: int| 0 <= r < 9 && 0 <= c < 9 && #[trigger] res[b][r][c] != 0 implies pass_blocked(
            res,
            b,
            r,
            c,
        ) by {
            assert(positions.contains((r as usize, c as usize)));
            let k = choose|k: int| 0 <= k < positions.len() && positions[k] == (r as usize, c as usize);
            assert(res[b][positions[k].0 as int][positions[k].1 as int] != 0);
        }
    }
}

/// The clearing passes over boards `b` to 2, each over the positions in an
/// order shuffled from the generator state; gives the grids and the state.
pub open spec fn multi_passes(gs: Seq<Seq<Seq<u8>>>, b: int, st: u64, target: int) -> (Seq<Seq<Seq<u8>>>, u64)
    decreases 3 - b,
{
    if 0 <= b < 3 {
        let sh = shuffle_from(grid_positions(), st, 80);
        multi_passes(multi_removal(gs, b, sh.0, 0, 0, target), b + 1, sh.1, target)
    } else {
        (gs, st)
    }
}

/// The three solved boards built from the generator state `st`.
pub open spec fn multi_solution(st: u64) -> Seq<Seq<Seq<u8>>> {
    let b0 = solved_from(st);
    let b1 = chained_from(b0, shuffles_state(st, 3));
    let b2 = chained_from(b1, shuffles_state(shuffles_state(st, 3), 2));
    seq![b0, b1, b2]
}

/// The (puzzle, solution) grids dealt for difficulty `d` from the
/// generator state `st`.
pub open spec fn multi_deal(d: Difficulty, st: u64) -> (Seq<Seq<Seq<u8>>>, Seq<Seq<Seq<u8>>>) {
    (
        multi_passes(
            multi_solution(st),
            0,
            shuffles_state(shuffles_state(shuffles_state(st, 3), 2), 2),
            removal_target(d) as int,
        ).0,
        multi_solution(st),
    )
}

/// Generates (puzzle, solution) with a fresh seed; see `generate_with`.
pub fn generate(difficulty: Difficulty) -> (res: (MultiBoard, MultiBoard))
    ensures
        removal_inv(res.0, res.1),
        forall|x: int| 0 <= x < 3 ==> is_solution(#[trigger] res.1.boards@[x]@) || !has_fill(res.1.boards@[x]@),
        forall|x: int|
            0 <= x < 3 && is_solution(#[trigger] res.1.boards@[x]@) ==> is_fill(res.0.boards@[x]@, res.1.boards@[x]@),
        is_solution(res.1.boards@[0]@) ==> pair_agrees(res.1, 0),
        is_solution(res.1.boards@[1]@) ==> pair_agrees(res.1, 1),
        all_solved(res.1) ==> has_blank(res.0.boards@[0]@),
        exists|st: u64| (grids(res.0), grids(res.1)) == #[trigger] multi_deal(difficulty, st),
{
    let mut rng = Rng::new(get_seed());
    let ghost st = rng.state;
    let res = generate_with(difficulty, &mut rng);
    assert((grids(res.0), grids(res.1)) == multi_deal(difficulty, st));
    res
}

/// Generates (puzzle, solution) from the generator `rng`: three chained
/// solved boards, board b + 1 starting from box 8 of board b; then, board by
/// board, cells in shuffled order are cleared (with their twin on the
/// neighbouring board where the boards overlap) as long as every board
/// touched keeps a single completion, until the difficulty's number of cells
/// is cleared.
pub fn generate_with(difficulty: Difficulty, rng: &mut Rng) -> (res: (MultiBoard, MultiBoard))
    ensures
        removal_inv(res.0, res.1),
        forall|x: int| 0 <= x < 3 ==> is_solution(#[trigger] res.1.boards@[x]@) || !has_fill(res.1.boards@[x]@),
        forall|x: int|
            0 <= x < 3 && is_solution(#[trigger] res.1.boards@[x]@) ==> is_fill(res.0.boards@[x]@, res.1.boards@[x]@),
        is_solution(res.1.boards@[0]@) ==> pair_agrees(res.1, 0),
        is_solution(res.1.boards@[1]@) ==> pair_agrees(res.1, 1),
        all_solved(res.1) ==> has_blank(res.0.boards@[0]@),
        res.1.boards@[0]@ == solved_from(old(rng).state),
        res.1.boards@[1]@ == chained_from(res.1.boards@[0]@, shuffles_state(old(rng).state, 3)),
        res.1.boards@[2]@ == chained_from(
            res.1.boards@[1]@,
            shuffles_state(shuffles_state(old(rng).state, 3), 2),
        ),
        (grids(res.0), final(rng).state) == multi_passes(
            grids(res.1),
            0,
            shuffles_state(shuffles_state(shuffles_state(old(rng).state, 3), 2), 2),
            removal_target(difficulty) as int,
        ),
        (grids(res.0), grids(res.1)) == multi_deal(difficulty, old(rng).state),
{
    let ghost st_in = rng.state;
    let board0 = generate_solved(rng);
    let board1 = generate_solved_chained(&board0, rng);
    let board2 = generate_solved_chained(&board1, rng);
    let solution = MultiBoard { boards: [board0, board1, board2] };
    let mut puzzle = solution;
    proof {
        board0.lemma_shape();
        board1.lemma_shape();
        board2.lemma_shape();
        assert(solution.boards@[0]@ == board0@);
        assert(solution.boards@[1]@ == board1@);
        assert(solution.boards@[2]@ == board2@);
        assert forall|x: int| 0 <= x < 3 implies at_most_one_fill(#[trigger] puzzle.boards@[x]@) by {
            lemma_solution_unique(puzzle.boards@[x]@);
        }
        if is_solution(board0@) {
            assert forall|r: int, c: int| 0 <= r < 3 && 0 <= c < 3 implies #[trigger] solution.boards@[0]@[6 + r][6 + c]
                == solution.boards@[1]@[r][c] by {
                assert(cell_ok(board0@, 6 + r, 6 + c, false));
            }
        }
        if is_solution(board1@) {
            assert forall|r: int, c: int| 0 <= r < 3 && 0 <= c < 3 implies #[trigger] solution.boards@[1]@[6 + r][6 + c]
                == solution.boards@[2]@[r][c] by {
                assert(cell_ok(board1@, 6 + r, 6 + c, false));
            }
        }
    }
    let to_remove = difficulty.cells_to_remove();
    let ghost st_pass = rng.state;
    proof {
        assert(grids(puzzle) == grids(solution));
    }
    let mut b: usize = 0;
    while b < 3
        invariant
            b <= 3,
            multi_passes(grids(puzzle), b as int, rng.state, to_remove as int) == multi_passes(
                grids(solution),
                0,
                st_pass,
                to_remove as int,
            ),
            removal_inv(puzzle, solution),
            to_remove == removal_target(difficulty),
            b == 0 ==> puzzle == solution,
            b > 0 && all_solved(solution) ==> has_blank(puzzle.boards@[0]@),
        decreases 3 - b,
    {
        let mut positions = all_positions();
        let ghost pos0 = positions@;
        let ghost st0 = rng.state;
        let ghost start = grids(puzzle);
        rng.shuffle(&mut positions);
        let ghost shuffled = positions@;
        proof {
            lemma_shuffle_permutes(pos0, st0, 80);
            assert forall|k: int| 0 <= k < positions@.len() implies #[trigger] positions@[k].0 < 9 && positions@[k].1 < 9 by {
                assert(positions@.contains(positions@[k]));
                assert(pos0.contains(positions@[k]));
            }
        }
        let mut removed: usize = 0;
        let mut p: usize = 0;
        while p < positions.len() && removed < to_remove
            invariant
                b < 3,
                p <= positions@.len(),
                removed <= to_remove,
                to_remove == removal_target(difficulty),
                forall|k: int| 0 <= k < positions@.len() ==> #[trigger] positions@[k].0 < 9 && positions@[k].1 < 9,
                removal_inv(puzzle, solution),
                positions@.len() == 81,
                removed <= p,
                b == 0 && p == 0 ==> puzzle == solution,
                (b > 0 || p > 0) && all_solved(solution) ==> has_blank(puzzle.boards@[0]@),
                positions@ == shuffled,
                (shuffled, rng.state) == shuffle_from(grid_positions(), st0, 80),
                multi_removal(grids(puzzle), b as int, shuffled, p as int, removed as int, to_remove as int)
                    == multi_removal(start, b as int, shuffled, 0, 0, to_remove as int),
                multi_passes(start, b as int, st0, to_remove as int) == multi_passes(
                    grids(solution),
                    0,
                    st_pass,
                    to_remove as int,
                ),
            decreases positions@.len() - p,
        {
            let (r, c) = positions[p];
            let val = puzzle.boards[b].get(r, c);
            proof {
                assert(grids(puzzle)[b as int][r as int][c as int] == val);
            }
            if val != 0 {
                let ghost before = puzzle;
                proof {
                    if b == 0 && p == 0 && all_solved(solution) {
                        assert(is_solution(solution.boards@[0]@));
                        assert(cell_ok(solution.boards@[0]@, r as int, c as int, false));
                    }
                }
                let neighbor = clear_shared(&mut puzzle, b, r, c);
                proof {
                    if b == 0 && p == 0 && all_solved(solution) {
                        assert(is_solution(solution.boards@[0]@));
                        assert(is_solution(solution.boards@[1]@));
                        lemma_one_blank_unique(solution.boards@[0]@, r as int, c as int);
                        assert(has_fill(puzzle.boards@[0]@));
                        if r >= 6 && c >= 6 {
                            lemma_one_blank_unique(solution.boards@[1]@, r - 6, c - 6);
                            assert(has_fill(puzzle.boards@[1]@));
                        }
                    }
                }
                let mut test = puzzle.boards[b];
                let count_b = count_solutions(&mut test, 2);
                proof {
                    lemma_count_unique(puzzle.boards@[b as int]@, count_b);
                }
                let unique = count_b == 1;
                let neighbor_unique = match neighbor {
                    Some((nb, _, _, _)) => {
                        let mut test_n = puzzle.boards[nb];
                        let count_n = count_solutions(&mut test_n, 2);
                        proof {
                            lemma_count_unique(puzzle.boards@[nb as int]@, count_n);
                        }
                        count_n == 1
                    },
                    None => true,
                };
                proof {
                    assert(grids(puzzle) =~= cleared_grids(grids(before), b as int, r as int, c as int));
                    assert((unique && neighbor_unique) == clear_kept(grids(before), b as int, r as int, c as int));
                }
                if unique && neighbor_unique {
                    removed += 1;
                    proof {
                        if all_solved(solution) && (b > 0 || p > 0) {
                            let (r0, c0) = choose|r0: int, c0: int|
                                0 <= r0 < 9 && 0 <= c0 < 9 && #[trigger] before.boards@[0]@[r0][c0] == 0;
                            assert(puzzle.boards@[0]@[r0][c0] == 0);
                        }
                        if all_solved(solution) && b == 0 && p == 0 {
                            assert(puzzle.boards@[0]@[r as int][c as int] == 0);
                        }
                        assert forall|x: int| 0 <= x < 3 implies at_most_one_fill(#[trigger] puzzle.boards@[x]@) by {
                            assert(at_most_one_fill(before.boards@[x]@));
                        }
                        assert forall|q: int| 0 <= q < 2 && #[trigger] pair_agrees(solution, q) implies pair_agrees(puzzle, q) by {
                            assert(pair_agrees(before, q));
                            assert forall|r2: int, c2: int| 0 <= r2 < 3 && 0 <= c2 < 3 implies #[trigger] puzzle.boards@[q]@[6 + r2][6 + c2]
                                == puzzle.boards@[q + 1]@[r2][c2] by {
                                assert(before.boards@[q]@[6 + r2][6 + c2] == before.boards@[q + 1]@[r2][c2]);
                            }
                        }
                        assert forall|x: int, r2: int, c2: int|
                            0 <= x < 3 && 0 <= r2 < 9 && 0 <= c2 < 9 implies #[trigger] puzzle.boards@[x]@[r2][c2] == 0
                            || puzzle.boards@[x]@[r2][c2] == solution.boards@[x]@[r2][c2] by {
                            assert(before.boards@[x]@[r2][c2] == 0 || before.boards@[x]@[r2][c2] == solution.boards@[x]@[r2][c2]);
                        }
                    }
                } else {
                    let mut bd = puzzle.boards[b];
                    bd.set(r, c, val);
                    puzzle.boards[b] = bd;
                    if let Some((nb, nr, nc, nv)) = neighbor {
                        let mut nbd = puzzle.boards[nb];
                        nbd.set(nr, nc, nv);
                        puzzle.boards[nb] = nbd;
                        proof {
                            lemma_restore(before.boards@[nb as int]@, nr as int, nc as int);
                        }
                    }
                    proof {
                        lemma_restore(before.boards@[b as int]@, r as int, c as int);
                        assert forall|x: int| 0 <= x < 3 implies #[trigger] puzzle.boards@[x]@ == before.boards@[x]@ by {}
                        assert(puzzle.boards@[0]@ == before.boards@[0]@);
                        assert(puzzle.boards@[1]@ == before.boards@[1]@);
                        assert(puzzle.boards@[2]@ == before.boards@[2]@);
                        assert(grids(puzzle) =~= grids(before));
                    }
                }
            }
            p += 1;
        }
        b += 1;
    }
    proof {
        assert forall|x: int| 0 <= x < 3 && is_solution(#[trigger] solution.boards@[x]@) implies is_fill(
            puzzle.boards@[x]@,
            solution.boards@[x]@,
        ) by {
            lemma_solution_extending_is_fill(puzzle.boards@[x]@, solution.boards@[x]@);
        }
    }
    proof {
        assert(grids(solution) =~= multi_solution(st_in));
    }
    (puzzle, solution)
}

} // verus!
