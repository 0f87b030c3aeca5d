use vstd::prelude::*;
use crate::sudoku::board::{
    Board, SIZE, set_cell, well_shaped, peers, placement_ok, candidates_of, cands_upto, complete,
    lemma_cands_upto,
};

verus! {

/// `s` completes `g`: the filled cells of `g` keep their values, and every
/// empty cell of `g` holds a digit 1..=9 that differs from every other cell
/// of its row, column and box in `s`.
pub open spec fn is_fill(g: Seq<Seq<u8>>, s: Seq<Seq<u8>>) -> bool {
    &&& well_shaped(s)
    &&& forall|r: int, c: int|
        #![trigger s[r][c]]
        0 <= r < 9 && 0 <= c < 9 ==> {
            &&& (g[r][c] != 0 ==> s[r][c] == g[r][c])
            &&& (g[r][c] == 0 ==> 1 <= s[r][c] <= 9 && apart(s, r, c))
        }
}

/// The value at (r, c) occurs in no other cell of its row, column and box.
pub open spec fn apart(s: Seq<Seq<u8>>, r: int, c: int) -> bool {
    forall|r2: int, c2: int|
        #![trigger s[r2][c2]]
        0 <= r2 < 9 && 0 <= c2 < 9 && peers(r, c, r2, c2) && (r2 != r || c2 != c) ==> s[r2][c2]
            != s[r][c]
}

/// Some completion of `g` exists.
pub open spec fn has_fill(g: Seq<Seq<u8>>) -> bool {
    exists|s: Seq<Seq<u8>>| is_fill(g, s)
}

/// At most one completion of `g` exists.
pub open spec fn at_most_one_fill(g: Seq<Seq<u8>>) -> bool {
    forall|s1: Seq<Seq<u8>>, s2: Seq<Seq<u8>>|
        is_fill(g, s1) && is_fill(g, s2) ==> s1 == s2
}

/// Two different completions of `g` exist.
pub open spec fn two_fills(g: Seq<Seq<u8>>) -> bool {
    exists|s1: Seq<Seq<u8>>, s2: Seq<Seq<u8>>| is_fill(g, s1) && is_fill(g, s2) && s1 != s2
}

/// Cell (r, c) respects the rules: a digit 0..=9 (0 only where empty cells
/// are allowed), and a non-zero digit occurs in no other cell of its row,
/// column and box.
pub open spec fn cell_ok(g: Seq<Seq<u8>>, r: int, c: int, allow_empty: bool) -> bool {
    &&& (g[r][c] == 0 ==> allow_empty)
    &&& g[r][c] <= 9
    &&& (g[r][c] != 0 ==> apart(g, r, c))
}

/// Every cell respects the rules.
pub open spec fn units_ok(g: Seq<Seq<u8>>, allow_empty: bool) -> bool {
    forall|r: int, c: int| 0 <= r < 9 && 0 <= c < 9 ==> #[trigger] cell_ok(g, r, c, allow_empty)
}

/// A solved board: every cell holds 1..=9, no digit repeats in any row,
/// column or box.
pub open spec fn is_solution(g: Seq<Seq<u8>>) -> bool {
    units_ok(g, false)
}

/// A board whose filled cells break no rule (empty cells allowed).
pub open spec fn consistent(g: Seq<Seq<u8>>) -> bool {
    units_ok(g, true)
}

/// Number of empty cells in a row.
pub open spec fn row_zeros(s: Seq<u8>) -> nat
    decreases s.len(),
{
    if s.len() == 0 {
        0
    } else {
        row_zeros(s.drop_last()) + if s.last() == 0 {
            1nat
        } else {
            0nat
        }
    }
}

/// Number of empty cells in a grid.
pub open spec fn grid_zeros(g: Seq<Seq<u8>>) -> nat
    decreases g.len(),
{
    if g.len() == 0 {
        0
    } else {
        grid_zeros(g.drop_last()) + row_zeros(g.last())
    }
}

pub proof fn lemma_row_zeros_update(s: Seq<u8>, i: int, v: u8)
    requires
        0 <= i < s.len(),
        s[i] == 0,
        v != 0,
    ensures
        row_zeros(s.update(i, v)) + 1 == row_zeros(s),
    decreases s.len(),
{
    let t = s.update(i, v);
    if i == s.len() - 1 {
        assert(t.drop_last() =~= s.drop_last());
    } else {
        assert(t.drop_last() =~= s.drop_last().update(i, v));
        lemma_row_zeros_update(s.drop_last(), i, v);
    }
}

pub proof fn lemma_grid_zeros_update(g: Seq<Seq<u8>>, r: int, c: int, v: u8)
    requires
        0 <= r < g.len(),
        0 <= c < g[r].len(),
        g[r][c] == 0,
        v != 0,
    ensures
        grid_zeros(set_cell(g, r, c, v)) + 1 == grid_zeros(g),
    decreases g.len(),
{
    let h = set_cell(g, r, c, v);
    lemma_row_zeros_update(g[r], c, v);
    if r == g.len() - 1 {
        assert(h.drop_last() =~= g.drop_last());
    } else {
        assert(h.drop_last() =~= set_cell(g.drop_last(), r, c, v));
        lemma_grid_zeros_update(g.drop_last(), r, c, v);
    }
}

/// Two 9x9 grids that agree on every cell are equal.
pub proof fn lemma_grid_ext(a: Seq<Seq<u8>>, b: Seq<Seq<u8>>)
    requires
        well_shaped(a),
        well_shaped(b),
        forall|r: int, c: int| 0 <= r < 9 && 0 <= c < 9 ==> #[trigger] a[r][c] == b[r][c],
    ensures
        a == b,
{
    assert forall|r: int| 0 <= r < 9 implies #[trigger] a[r] == b[r] by {
        assert(a[r] =~= b[r]);
    }
    assert(a =~= b);
}

/// A grid without empty cells is its own completion.
proof fn lemma_complete_own_fill(g: Seq<Seq<u8>>)
    requires
        well_shaped(g),
        complete(g),
    ensures
        is_fill(g, g),
{
}

/// A completion of `g` puts an allowed digit at an empty cell, and is also
/// a completion of `g` with that digit placed.
proof fn lemma_fill_split(g: Seq<Seq<u8>>, s: Seq<Seq<u8>>, r: int, c: int)
    requires
        well_shaped(g),
        is_fill(g, s),
        0 <= r < 9,
        0 <= c < 9,
        g[r][c] == 0,
    ensures
        1 <= s[r][c] <= 9,
        placement_ok(g, r, c, s[r][c]),
        is_fill(set_cell(g, r, c, s[r][c]), s),
{
    let v = s[r][c];
    assert(1 <= v <= 9 && apart(s, r, c));
    assert forall|r2: int, c2: int|
        0 <= r2 < 9 && 0 <= c2 < 9 && peers(r, c, r2, c2) implies #[trigger] g[r2][c2] != v by {
        if r2 != r || c2 != c {
            if g[r2][c2] != 0 {
                assert(s[r2][c2] == g[r2][c2]);
                assert(s[r2][c2] != s[r][c]);
            }
        }
    }
    let h = set_cell(g, r, c, v);
    assert forall|r2: int, c2: int| 0 <= r2 < 9 && 0 <= c2 < 9 implies {
        &&& (h[r2][c2] != 0 ==> #[trigger] s[r2][c2] == h[r2][c2])
        &&& (h[r2][c2] == 0 ==> 1 <= s[r2][c2] <= 9 && apart(s, r2, c2))
    } by {
        if r2 != r || c2 != c {
            assert(h[r2][c2] == g[r2][c2]);
        }
    }
}

/// A completion of `g` with an allowed digit placed at an empty cell is a
/// completion of `g`.
proof fn lemma_fill_join(g: Seq<Seq<u8>>, r: int, c: int, v: u8, s: Seq<Seq<u8>>)
    requires
        well_shaped(g),
        0 <= r < 9,
        0 <= c < 9,
        g[r][c] == 0,
        1 <= v <= 9,
        placement_ok(g, r, c, v),
        is_fill(set_cell(g, r, c, v), s),
    ensures
        is_fill(g, s),
{
    let h = set_cell(g, r, c, v);
    assert(s[r][c] == v);
    assert forall|r2: int, c2: int|
        0 <= r2 < 9 && 0 <= c2 < 9 && peers(r, c, r2, c2) && (r2 != r || c2 != c) implies #[trigger] s[r2][c2]
        != s[r][c] by {
        assert(h[r2][c2] == g[r2][c2]);
        if g[r2][c2] != 0 {
            assert(g[r2][c2] != v);
        } else {
            assert(apart(s, r2, c2));
            assert(peers(r2, c2, r, c));
        }
    }
    assert forall|r2: int, c2: int| 0 <= r2 < 9 && 0 <= c2 < 9 implies {
        &&& (g[r2][c2] != 0 ==> #[trigger] s[r2][c2] == g[r2][c2])
        &&& (g[r2][c2] == 0 ==> 1 <= s[r2][c2] <= 9 && apart(s, r2, c2))
    } by {
        if r2 != r || c2 != c {
            assert(h[r2][c2] == g[r2][c2]);
        }
    }
}

/// Completions that place different digits at one cell differ.
proof fn lemma_fill_differs(s1: Seq<Seq<u8>>, s2: Seq<Seq<u8>>, r: int, c: int)
    requires
        s1[r][c] != s2[r][c],
    ensures
        s1 != s2,
{
}


/// Number of candidates of cell (r, c).
pub open spec fn ncands(g: Seq<Seq<u8>>, r: int, c: int) -> int {
    candidates_of(g, r, c).len() as int
}

/// The empty cell with the fewest candidates, the first such cell in
/// row-major order; `None` when the board has no empty cell.
fn find_best_empty(board: &Board) -> (res: Option<(usize, usize, Vec<u8>)>)
    ensures
        res is None <==> complete(board@),
        res matches Some(t) ==> {
            &&& t.0 < 9
            &&& t.1 < 9
            &&& board@[t.0 as int][t.1 as int] == 0
            &&& t.2@ == candidates_of(board@, t.0 as int, t.1 as int)
            &&& forall|r: int, c: int|
                0 <= r < 9 && 0 <= c < 9 && board@[r][c] == 0 ==> t.2@.len() <= #[trigger] ncands(
                    board@,
                    r,
                    c,
                )
            &&& forall|r: int, c: int|
                0 <= r < 9 && 0 <= c < 9 && board@[r][c] == 0 && r * 9 + c < t.0 * 9 + t.1
                    ==> t.2@.len() < #[trigger] ncands(board@, r, c)
        },
{
    let ghost g = board@;
    let mut best: Option<(usize, usize, Vec<u8>)> = None;
    let mut r: usize = 0;
    while r < SIZE
        invariant
            r <= 9,
            g == board@,
            best is None ==> forall|r2: int, c2: int|
                0 <= r2 < r && 0 <= c2 < 9 ==> #[trigger] g[r2][c2] != 0,
            forall|r2: int, c2: int|
                0 <= r2 < r && 0 <= c2 < 9 && g[r2][c2] == 0 ==> #[trigger] ncands(g, r2, c2) > 0,
            best matches Some(t) ==> {
                &&& t.0 < r
                &&& t.1 < 9
                &&& g[t.0 as int][t.1 as int] == 0
                &&& t.2@ == candidates_of(g, t.0 as int, t.1 as int)
                &&& forall|r2: int, c2: int|
                    0 <= r2 < r && 0 <= c2 < 9 && g[r2][c2] == 0 ==> t.2@.len() <= #[trigger] ncands(
                        g,
                        r2,
                        c2,
                    )
                &&& forall|r2: int, c2: int|
                    0 <= r2 < 9 && 0 <= c2 < 9 && g[r2][c2] == 0 && r2 * 9 + c2 < t.0 * 9 + t.1
                        ==> t.2@.len() < #[trigger] ncands(g, r2, c2)
            },
        decreases 9 - r,
    {
        let mut c: usize = 0;
        while c < SIZE
            invariant
                r < 9,
                c <= 9,
                g == board@,
                best is None ==> forall|r2: int, c2: int|
                    0 <= r2 < 9 && 0 <= c2 < 9 && r2 * 9 + c2 < r * 9 + c ==> #[trigger] g[r2][c2]
                        != 0,
                forall|r2: int, c2: int|
                    0 <= r2 < 9 && 0 <= c2 < 9 && g[r2][c2] == 0 && r2 * 9 + c2 < r * 9 + c
                        ==> #[trigger] ncands(g, r2, c2) > 0,
                best matches Some(t) ==> {
                    &&& t.0 * 9 + t.1 < r * 9 + c
                    &&& t.0 < 9
                    &&& t.1 < 9
                    &&& g[t.0 as int][t.1 as int] == 0
                    &&& t.2@ == candidates_of(g, t.0 as int, t.1 as int)
                    &&& forall|r2: int, c2: int|
                        0 <= r2 < 9 && 0 <= c2 < 9 && g[r2][c2] == 0 && r2 * 9 + c2 < r * 9 + c
                            ==> t.2@.len() <= #[trigger] ncands(g, r2, c2)
                    &&& forall|r2: int, c2: int|
                        0 <= r2 < 9 && 0 <= c2 < 9 && g[r2][c2] == 0 && r2 * 9 + c2 < t.0 * 9
                            + t.1 ==> t.2@.len() < #[trigger] ncands(g, r2, c2)
                },
            decreases 9 - c,
        {
            if board.is_empty(r, c) {
                let cands = board.candidates(r, c);
                if cands.len() == 0 {
                    return Some((r, c, cands));
                }
                let better = match &best {
                    None => true,
                    Some(t) => cands.len() < t.2.len(),
                };
                if better {
                    best = Some((r, c, cands));
                }
            }
            c += 1;
        }
        r += 1;
    }
    proof {
        if best is None {
            assert forall|r2: int, c2: int| 0 <= r2 < 9 && 0 <= c2 < 9 implies #[trigger] g[r2][c2]
                != 0 by {}
        } else {
            let t = best->0;
            assert(g[t.0 as int][t.1 as int] == 0);
        }
    }
    best
}

/// At most `n` digits below `n` are candidates.
pub proof fn lemma_cands_len(g: Seq<Seq<u8>>, r: int, c: int, n: int)
    ensures
        cands_upto(g, r, c, n).len() <= if n < 0 { 0 } else { n },
    decreases n,
{
    if n > 1 {
        lemma_cands_len(g, r, c, n - 1);
    }
}

/// (r, c) is the cell the search fills first: the first, in row-major
/// order, of the empty cells with the fewest candidates.
pub open spec fn best_at(g: Seq<Seq<u8>>, r: int, c: int) -> bool {
    &&& 0 <= r < 9
    &&& 0 <= c < 9
    &&& g[r][c] == 0
    &&& forall|r2: int, c2: int|
        0 <= r2 < 9 && 0 <= c2 < 9 && g[r2][c2] == 0 ==> ncands(g, r, c) <= #[trigger] ncands(g, r2, c2)
    &&& forall|r2: int, c2: int|
        0 <= r2 < 9 && 0 <= c2 < 9 && g[r2][c2] == 0 && r2 * 9 + c2 < r * 9 + c ==> ncands(g, r, c)
            < #[trigger] ncands(g, r2, c2)
}

/// The cell the search fills first.
pub open spec fn best_cell(g: Seq<Seq<u8>>) -> (int, int) {
    choose|rc: (int, int)| best_at(g, rc.0, rc.1)
}

/// Only one cell is the one the search fills first.
proof fn lemma_best_unique(g: Seq<Seq<u8>>, r: int, c: int)
    requires
        best_at(g, r, c),
    ensures
        best_cell(g) == (r, c),
{
    let w = (r, c);
    assert(best_at(g, w.0, w.1));
    let rc = best_cell(g);
    assert(best_at(g, rc.0, rc.1));
    if rc.0 * 9 + rc.1 < r * 9 + c {
        assert(ncands(g, r, c) < ncands(g, rc.0, rc.1));
        assert(ncands(g, rc.0, rc.1) <= ncands(g, r, c));
    } else if r * 9 + c < rc.0 * 9 + rc.1 {
        assert(ncands(g, rc.0, rc.1) < ncands(g, r, c));
        assert(ncands(g, r, c) <= ncands(g, rc.0, rc.1));
    } else {
        assert(rc.0 == r && rc.1 == c) by (nonlinear_arith)
            requires
                rc.0 * 9 + rc.1 == r * 9 + c,
                0 <= rc.1 < 9,
                0 <= c < 9,
        ;
    }
}

/// The completion the backtracking search finds first: a board without
/// empty cells is its own; otherwise the candidates of the cell it fills
/// first are tried in increasing order. None when there is none.
pub open spec fn search(g: Seq<Seq<u8>>) -> Option<Seq<Seq<u8>>>
    decreases grid_zeros(g), 11int,
{
    if complete(g) {
        Some(g)
    } else {
        search_from(g, best_cell(g).0, best_cell(g).1, 0)
    }
}

/// The search from candidate `i` of cell (r, c) on.
pub open spec fn search_from(g: Seq<Seq<u8>>, r: int, c: int, i: int) -> Option<Seq<Seq<u8>>>
    decreases grid_zeros(g), 10 - i,
{
    if !(well_shaped(g) && 0 <= r < 9 && 0 <= c < 9 && g[r][c] == 0 && 0 <= i < candidates_of(g, r, c).len()) {
        None
    } else {
        proof {
            lemma_cands_upto(g, r, c, 10);
            lemma_cands_len(g, r, c, 10);
            lemma_grid_zeros_update(g, r, c, candidates_of(g, r, c)[i]);
        }
        match search(set_cell(g, r, c, candidates_of(g, r, c)[i])) {
            Some(s) => Some(s),
            None => search_from(g, r, c, i + 1),
        }
    }
}

/// Solves the board in place by backtracking over the candidates of the
/// empty cell with the fewest candidates. Returns true when a completion
/// was found; the board then holds it. Returns false, with the board
/// unchanged, when the board has no completion.
pub fn solve(board: &mut Board) -> (solved: bool)
    ensures
        solved ==> is_fill(old(board)@, final(board)@),
        !solved ==> final(board)@ == old(board)@ && !has_fill(old(board)@),
        solved ==> search(old(board)@) == Some(final(board)@),
        !solved ==> search(old(board)@) is None,
    decreases grid_zeros(old(board)@),
{
    proof {
        board.lemma_shape();
    }
    let ghost g = board@;
    let cell = find_best_empty(board);
    let (row, col, candidates) = match cell {
        None => {
            proof {
                lemma_complete_own_fill(g);
            }
            return true;
        },
        Some(t) => t,
    };
    proof {
        lemma_cands_upto(g, row as int, col as int, 10);
        lemma_best_unique(g, row as int, col as int);
    }
    let mut i: usize = 0;
    while i < candidates.len()
        invariant
            i <= candidates@.len(),
            row < 9,
            col < 9,
            well_shaped(g),
            board@ == g,
            g == old(board)@,
            g[row as int][col as int] == 0,
            candidates@ == candidates_of(g, row as int, col as int),
            forall|k: int|
                0 <= k < i ==> !has_fill(
                    set_cell(g, row as int, col as int, #[trigger] candidates@[k]),
                ),
            search(g) == search_from(g, row as int, col as int, i as int),
        decreases candidates@.len() - i,
    {
        let num = candidates[i];
        proof {
            lemma_cands_upto(g, row as int, col as int, 10);
        }
        assert(1 <= num <= 9 && placement_ok(g, row as int, col as int, num));
        board.set(row, col, num);
        proof {
            lemma_grid_zeros_update(g, row as int, col as int, num);
        }
        if solve(board) {
            proof {
                lemma_fill_join(g, row as int, col as int, num, board@);
            }
            return true;
        }
        board.set(row, col, 0);
        proof {
            board.lemma_shape();
            lemma_grid_ext(board@, g);
        }
        i += 1;
    }
    proof {
        assert forall|s: Seq<Seq<u8>>| !is_fill(g, s) by {
            if is_fill(g, s) {
                lemma_fill_split(g, s, row as int, col as int);
                let v = s[row as int][col as int];
                assert(candidates@.contains(v));
                let k = choose|k: int| 0 <= k < candidates@.len() && candidates@[k] == v;
                assert(!has_fill(set_cell(g, row as int, col as int, candidates@[k])));
            }
        }
    }
    false
}


/// The only completion of a board without empty cells is the board itself.
proof fn lemma_complete_unique(g: Seq<Seq<u8>>, s: Seq<Seq<u8>>)
    requires
        well_shaped(g),
        complete(g),
        is_fill(g, s),
    ensures
        s == g,
{
    assert forall|r: int, c: int| 0 <= r < 9 && 0 <= c < 9 implies #[trigger] s[r][c] == g[r][c] by {
        assert(g[r][c] != 0);
    }
    lemma_grid_ext(s, g);
}

/// `g` has exactly one completion.
pub open spec fn unique_fill(g: Seq<Seq<u8>>) -> bool {
    has_fill(g) && at_most_one_fill(g)
}

/// A count of completions stopped at two is 1 exactly when there is a
/// single completion.
pub proof fn lemma_count_unique(g: Seq<Seq<u8>>, count: usize)
    requires
        count <= 2 || count == 1,
        count >= 1 ==> has_fill(g),
        count == 0 ==> !has_fill(g),
        count >= 2 ==> two_fills(g),
        count == 1 ==> at_most_one_fill(g),
    ensures
        (count == 1) == unique_fill(g),
{
    if count >= 2 {
        let (s1, s2) = choose|s1: Seq<Seq<u8>>, s2: Seq<Seq<u8>>| is_fill(g, s1) && is_fill(g, s2) && s1 != s2;
        assert(!at_most_one_fill(g));
    }
}

/// The completions of `g`.
pub open spec fn fills(g: Seq<Seq<u8>>) -> Set<Seq<Seq<u8>>> {
    Set::new(|s: Seq<Seq<u8>>| is_fill(g, s))
}

/// At least `n` different completions of `g` exist.
pub open spec fn at_least_fills(g: Seq<Seq<u8>>, n: nat) -> bool {
    exists|w: Set<Seq<Seq<u8>>>| w.finite() && w.subset_of(fills(g)) && w.len() == n
}

/// The completions of `g` that hold one of `vals` at (r, c).
pub open spec fn fills_with(g: Seq<Seq<u8>>, r: int, c: int, vals: Seq<u8>) -> Set<Seq<Seq<u8>>> {
    Set::new(|s: Seq<Seq<u8>>| is_fill(g, s) && vals.contains(s[r][c]))
}

/// One step of the count: the completions found so far, with `r` more
/// completions holding candidate `i` at (row, col), give `count + r`
/// completions holding one of the first `i + 1` candidates; and all of them
/// while the count stays under the limit.
proof fn lemma_count_step(
    g: Seq<Seq<u8>>,
    row: int,
    col: int,
    cands: Seq<u8>,
    i: int,
    found: Set<Seq<Seq<u8>>>,
    count: int,
    r: int,
    limit: int,
)
    requires
        well_shaped(g),
        0 <= row < 9,
        0 <= col < 9,
        g[row][col] == 0,
        0 <= i < cands.len(),
        forall|a: int, b: int| 0 <= a < b < cands.len() ==> #[trigger] cands[a] < #[trigger] cands[b],
        1 <= cands[i] <= 9,
        placement_ok(g, row, col, cands[i]),
        found.finite(),
        found.subset_of(fills_with(g, row, col, cands.subrange(0, i))),
        found.len() == count,
        count < limit ==> found == fills_with(g, row, col, cands.subrange(0, i)),
        r >= 0,
        at_least_fills(set_cell(g, row, col, cands[i]), r as nat),
        r < limit - count ==> fills(set_cell(g, row, col, cands[i])).finite() && fills(set_cell(g, row, col, cands[i])).len() == r,
        forall|s: Seq<Seq<u8>>| is_fill(set_cell(g, row, col, cands[i]), s) <==> is_fill(g, s) && s[row][col] == cands[i],
    ensures
        forall|wp: Set<Seq<Seq<u8>>>| wp.finite() && wp.subset_of(fills(set_cell(g, row, col, cands[i]))) && wp.len() == r ==> {
            &&& (found + wp).finite()
            &&& (found + wp).subset_of(fills_with(g, row, col, cands.subrange(0, i + 1)))
            &&& (found + wp).len() == count + r
            &&& (count + r < limit ==> found + wp == fills_with(g, row, col, cands.subrange(0, i + 1)))
        },
{
    let p = set_cell(g, row, col, cands[i]);
    assert forall|wp: Set<Seq<Seq<u8>>>| wp.finite() && wp.subset_of(fills(p)) && wp.len() == r implies {
        &&& (found + wp).finite()
        &&& (found + wp).subset_of(fills_with(g, row, col, cands.subrange(0, i + 1)))
        &&& (found + wp).len() == count + r
        &&& (count + r < limit ==> found + wp == fills_with(g, row, col, cands.subrange(0, i + 1)))
    } by {
        assert forall|s: Seq<Seq<u8>>| cands.subrange(0, i + 1).contains(s[row][col]) <==> (cands.subrange(0, i).contains(s[row][col])
            || s[row][col] == cands[i]) by {
            if cands.subrange(0, i + 1).contains(s[row][col]) {
                let k = choose|k: int| 0 <= k < i + 1 && #[trigger] cands.subrange(0, i + 1)[k] == s[row][col];
                if k < i {
                    assert(cands.subrange(0, i)[k] == s[row][col]);
                }
            }
            if cands.subrange(0, i).contains(s[row][col]) {
                let k = choose|k: int| 0 <= k < i && #[trigger] cands.subrange(0, i)[k] == s[row][col];
                assert(cands.subrange(0, i + 1)[k] == s[row][col]);
            }
            if s[row][col] == cands[i] {
                assert(cands.subrange(0, i + 1)[i] == s[row][col]);
            }
        }
        assert(found.disjoint(wp)) by {
            assert forall|s: Seq<Seq<u8>>| found.contains(s) implies !wp.contains(s) by {
                if wp.contains(s) {
                    assert(is_fill(p, s));
                    let k = choose|k: int| 0 <= k < i && #[trigger] cands.subrange(0, i)[k] == s[row][col];
                    assert(cands[k] < cands[i]);
                }
            }
        }
        vstd::set_lib::lemma_set_disjoint_lens(found, wp);
        if count + r < limit {
            vstd::set_lib::lemma_subset_equality(wp, fills(p));
            assert(found + wp =~= fills_with(g, row, col, cands.subrange(0, i + 1)));
        }
    }
}

/// Counts the completions of the board by backtracking, stopping once
/// `limit` of them have been found. The board is left as it was.
/// With `limit >= 2` the result tells no completion (0), exactly one (1)
/// and several (2 or more) apart.
pub fn count_solutions(board: &mut Board, limit: usize) -> (count: usize)
    ensures
        final(board)@ == old(board)@,
        count <= limit || count == 1,
        count >= 1 ==> has_fill(old(board)@),
        (count == 0 && limit >= 1) ==> !has_fill(old(board)@),
        count >= 2 ==> two_fills(old(board)@),
        (count == 1 && limit >= 2) ==> at_most_one_fill(old(board)@),
        at_least_fills(old(board)@, count as nat),
        count < limit ==> fills(old(board)@).finite() && fills(old(board)@).len() == count,
    decreases grid_zeros(old(board)@),
{
    proof {
        board.lemma_shape();
    }
    let ghost g = board@;
    let cell = find_best_empty(board);
    let (row, col, candidates) = match cell {
        None => {
            proof {
                lemma_complete_own_fill(g);
                assert(fills(g) =~= set![g]) by {
                    assert forall|s: Seq<Seq<u8>>| fills(g).contains(s) implies s == g by {
                        lemma_complete_unique(g, s);
                    }
                }
                assert(set![g].len() == 1);
                assert(set![g].subset_of(fills(g)));
                assert forall|s1: Seq<Seq<u8>>, s2: Seq<Seq<u8>>|
                    is_fill(g, s1) && is_fill(g, s2) implies s1 == s2 by {
                    lemma_complete_unique(g, s1);
                    lemma_complete_unique(g, s2);
                }
            }
            return 1;
        },
        Some(t) => t,
    };
    proof {
        lemma_cands_upto(g, row as int, col as int, 10);
    }
    let ghost mut w: Seq<Seq<u8>> = g;
    let ghost mut wk: int = 0;
    let ghost mut found: Set<Seq<Seq<u8>>> = Set::empty();
    proof {
        assert(fills_with(g, row as int, col as int, candidates@.subrange(0, 0)) =~= Set::empty());
    }
    let mut count: usize = 0;
    let mut i: usize = 0;
    while i < candidates.len() && (i == 0 || count < limit)
        invariant
            i <= candidates@.len(),
            row < 9,
            col < 9,
            well_shaped(g),
            board@ == g,
            g == old(board)@,
            g[row as int][col as int] == 0,
            candidates@ == candidates_of(g, row as int, col as int),
            i == 0 ==> count == 0,
            count <= limit || count == 1,
            (count == 0 && limit >= 1) ==> forall|k: int|
                0 <= k < i ==> !has_fill(
                    set_cell(g, row as int, col as int, #[trigger] candidates@[k]),
                ),
            count >= 1 ==> 0 <= wk < i && is_fill(g, w) && w[row as int][col as int]
                == candidates@[wk],
            count >= 2 ==> two_fills(g),
            (count == 1 && limit >= 2) ==> forall|s: Seq<Seq<u8>>, k: int|
                0 <= k < i && #[trigger] is_fill(g, s) && s[row as int][col as int]
                    == #[trigger] candidates@[k] ==> s == w,
            found.finite(),
            found.subset_of(fills_with(g, row as int, col as int, candidates@.subrange(0, i as int))),
            found.len() == count,
            count < limit ==> found == fills_with(g, row as int, col as int, candidates@.subrange(0, i as int)),
        decreases candidates@.len() - i,
    {
        let num = candidates[i];
        proof {
            lemma_cands_upto(g, row as int, col as int, 10);
        }
        assert(1 <= num <= 9 && placement_ok(g, row as int, col as int, num));
        let ghost p = set_cell(g, row as int, col as int, num);
        board.set(row, col, num);
        proof {
            lemma_grid_zeros_update(g, row as int, col as int, num);
        }
        let sub_limit = limit - count;
        let r = count_solutions(board, sub_limit);
        board.set(row, col, 0);
        proof {
            board.lemma_shape();
            lemma_grid_ext(board@, g);
            // completions of p are the completions of g holding num at (row, col)
            assert forall|s: Seq<Seq<u8>>| is_fill(p, s) implies is_fill(g, s) && s[row as int][col as int] == num by {
                lemma_fill_join(g, row as int, col as int, num, s);
            }
            assert forall|s: Seq<Seq<u8>>|
                is_fill(g, s) && s[row as int][col as int] == num implies is_fill(p, s) by {
                lemma_fill_split(g, s, row as int, col as int);
            }
            let old_count = count as int;
            if old_count == 0 && r >= 1 {
                let s = choose|s: Seq<Seq<u8>>| is_fill(p, s);
                w = s;
                wk = i as int;
            }
            if old_count + r >= 2 {
                if old_count == 1 && r >= 1 {
                    let s = choose|s: Seq<Seq<u8>>| is_fill(p, s);
                    assert(candidates@[wk] < candidates@[i as int]);
                    lemma_fill_differs(w, s, row as int, col as int);
                    assert(is_fill(g, w) && is_fill(g, s) && w != s);
                } else if old_count == 0 {
                    let (s1, s2) = choose|s1: Seq<Seq<u8>>, s2: Seq<Seq<u8>>|
                        is_fill(p, s1) && is_fill(p, s2) && s1 != s2;
                    assert(is_fill(g, s1) && is_fill(g, s2) && s1 != s2);
                }
            }
            if old_count + r == 1 && limit >= 2 {
                assert forall|s: Seq<Seq<u8>>, k: int|
                    0 <= k <= i && #[trigger] is_fill(g, s) && s[row as int][col as int]
                        == #[trigger] candidates@[k] implies s == w by {
                    if k == i {
                        assert(is_fill(p, s));
                        if old_count == 0 {
                            assert(is_fill(p, w));
                        }
                    } else if old_count == 0 {
                        lemma_fill_split(g, s, row as int, col as int);
                        assert(!has_fill(set_cell(g, row as int, col as int, candidates@[k])));
                    }
                }
            }
            if old_count + r == 0 && limit >= 1 {
                assert(!has_fill(p));
            }
            lemma_count_step(g, row as int, col as int, candidates@, i as int, found, old_count, r as int, limit as int);
            let wp = choose|wp: Set<Seq<Seq<u8>>>| wp.finite() && wp.subset_of(fills(p)) && wp.len() == r;
            found = found + wp;
        }
        count = count + r;
        i += 1;
    }
    proof {
        if count == 0 && limit >= 1 {
            assert forall|s: Seq<Seq<u8>>| !is_fill(g, s) by {
                if is_fill(g, s) {
                    lemma_fill_split(g, s, row as int, col as int);
                    let v = s[row as int][col as int];
                    assert(candidates@.contains(v));
                    let k = choose|k: int| 0 <= k < candidates@.len() && candidates@[k] == v;
                    assert(!has_fill(set_cell(g, row as int, col as int, candidates@[k])));
                }
            }
        }
        assert(found.subset_of(fills(g)));
        if count < limit {
            assert(candidates@.subrange(0, i as int) =~= candidates@);
            assert(fills_with(g, row as int, col as int, candidates@) =~= fills(g)) by {
                assert forall|s: Seq<Seq<u8>>| fills(g).contains(s) implies candidates@.contains(s[row as int][col as int]) by {
                    lemma_fill_split(g, s, row as int, col as int);
                }
            }
        }
        if count == 1 && limit >= 2 {
            assert forall|s1: Seq<Seq<u8>>, s2: Seq<Seq<u8>>|
                is_fill(g, s1) && is_fill(g, s2) implies s1 == s2 by {
                lemma_fill_split(g, s1, row as int, col as int);
                lemma_fill_split(g, s2, row as int, col as int);
                assert(candidates@.contains(s1[row as int][col as int]));
                assert(candidates@.contains(s2[row as int][col as int]));
                let k1 = choose|k: int|
                    0 <= k < candidates@.len() && candidates@[k] == s1[row as int][col as int];
                let k2 = choose|k: int|
                    0 <= k < candidates@.len() && candidates@[k] == s2[row as int][col as int];
                assert(s1 == w);
                assert(s2 == w);
            }
        }
    }
    count
}


/// Cell `i` (0..9) of unit `k` (0..9) of kind `t`: rows (0), columns (1)
/// and boxes (2), each read in the order of the rule checks.
pub open spec fn unit_cell(t: int, k: int, i: int) -> (int, int) {
    if t == 0 {
        (k, i)
    } else if t == 1 {
        (i, k)
    } else {
        ((k / 3) * 3 + i / 3, (k % 3) * 3 + i % 3)
    }
}

/// Value of cell `i` of unit `k` of kind `t`.
pub open spec fn uval(g: Seq<Seq<u8>>, t: int, k: int, i: int) -> u8 {
    g[unit_cell(t, k, i).0][unit_cell(t, k, i).1]
}

/// Unit `k` of kind `t` respects the rules.
pub open spec fn unit_ok(g: Seq<Seq<u8>>, t: int, k: int, allow_empty: bool) -> bool {
    &&& forall|i: int|
        0 <= i < 9 ==> (#[trigger] uval(g, t, k, i) == 0 ==> allow_empty) && uval(g, t, k, i) <= 9
    &&& forall|i: int, j: int|
        0 <= i < 9 && 0 <= j < 9 && i != j && #[trigger] uval(g, t, k, i) != 0 ==> #[trigger] uval(
            g,
            t,
            k,
            j,
        ) != uval(g, t, k, i)
}

proof fn lemma_unit_cells(t: int, k: int, i: int, j: int)
    requires
        0 <= t < 3,
        0 <= k < 9,
        0 <= i < 9,
        0 <= j < 9,
    ensures
        0 <= unit_cell(t, k, i).0 < 9,
        0 <= unit_cell(t, k, i).1 < 9,
        peers(unit_cell(t, k, i).0, unit_cell(t, k, i).1, unit_cell(t, k, j).0, unit_cell(t, k, j).1),
        i != j ==> unit_cell(t, k, i) != unit_cell(t, k, j),
{
    if t == 2 {
        assert((k / 3) * 3 + i / 3 == 3 * (k / 3) + i / 3);
        assert(((k / 3) * 3 + i / 3) / 3 == k / 3);
        assert(((k / 3) * 3 + j / 3) / 3 == k / 3);
        assert(((k % 3) * 3 + i % 3) / 3 == k % 3);
        assert(((k % 3) * 3 + j % 3) / 3 == k % 3);
        if i != j {
            assert(i == 3 * (i / 3) + i % 3);
            assert(j == 3 * (j / 3) + j % 3);
        }
    }
}

/// Two different cells that share a row, column or box lie in one unit.
proof fn lemma_peers_in_unit(r: int, c: int, r2: int, c2: int) -> (tkij: (int, int, int, int))
    requires
        0 <= r < 9,
        0 <= c < 9,
        0 <= r2 < 9,
        0 <= c2 < 9,
        peers(r, c, r2, c2),
        r != r2 || c != c2,
    ensures
        0 <= tkij.0 < 3,
        0 <= tkij.1 < 9,
        0 <= tkij.2 < 9,
        0 <= tkij.3 < 9,
        tkij.2 != tkij.3,
        unit_cell(tkij.0, tkij.1, tkij.2) == (r, c),
        unit_cell(tkij.0, tkij.1, tkij.3) == (r2, c2),
{
    if r == r2 {
        (0, r, c, c2)
    } else if c == c2 {
        (1, c, r, r2)
    } else {
        let k = (r / 3) * 3 + c / 3;
        let i = (r % 3) * 3 + c % 3;
        let j = (r2 % 3) * 3 + c2 % 3;
        assert(k / 3 == r / 3 && k % 3 == c / 3);
        assert(i / 3 == r % 3 && i % 3 == c % 3);
        assert(j / 3 == r2 % 3 && j % 3 == c2 % 3);
        assert(r == 3 * (r / 3) + r % 3);
        assert(c == 3 * (c / 3) + c % 3);
        assert(r2 == 3 * (r2 / 3) + r2 % 3);
        assert(c2 == 3 * (c2 / 3) + c2 % 3);
        (2, k, i, j)
    }
}

/// Coordinates of cell `i` of unit `k` of kind `t`.
fn unit_coords(t: usize, k: usize, i: usize) -> (rc: (usize, usize))
    requires
        t < 3,
        k < 9,
        i < 9,
    ensures
        rc.0 == unit_cell(t as int, k as int, i as int).0,
        rc.1 == unit_cell(t as int, k as int, i as int).1,
{
    if t == 0 {
        (k, i)
    } else if t == 1 {
        (i, k)
    } else {
        ((k / 3) * 3 + i / 3, (k % 3) * 3 + i % 3)
    }
}

/// Checks every row, then every column, then every box for values above 9,
/// for repeated digits and (unless allowed) for empty cells.
fn check_units(board: &Board, allow_empty: bool) -> (ok: bool)
    ensures
        ok == units_ok(board@, allow_empty),
{
    let ghost g = board@;
    let mut t: usize = 0;
    while t < 3
        invariant
            t <= 3,
            g == board@,
            forall|t2: int, k2: int| 0 <= t2 < t && 0 <= k2 < 9 ==> #[trigger] unit_ok(g, t2, k2, allow_empty),
        decreases 3 - t,
    {
        let mut k: usize = 0;
        while k < 9
            invariant
                t < 3,
                k <= 9,
                g == board@,
                forall|t2: int, k2: int|
                    0 <= t2 < t && 0 <= k2 < 9 ==> #[trigger] unit_ok(g, t2, k2, allow_empty),
                forall|k2: int| 0 <= k2 < k ==> #[trigger] unit_ok(g, t as int, k2, allow_empty),
            decreases 9 - k,
        {
            let mut seen = [false;10];
            let mut i: usize = 0;
            while i < 9
                invariant
                    t < 3,
                    k < 9,
                    i <= 9,
                    g == board@,
                    forall|t2: int, k2: int|
                        0 <= t2 < t && 0 <= k2 < 9 ==> #[trigger] unit_ok(g, t2, k2, allow_empty),
                    forall|k2: int| 0 <= k2 < k ==> #[trigger] unit_ok(g, t as int, k2, allow_empty),
                    forall|i2: int|
                        0 <= i2 < i ==> (#[trigger] uval(g, t as int, k as int, i2) == 0
                            ==> allow_empty) && uval(g, t as int, k as int, i2) <= 9,
                    forall|i2: int, j2: int|
                        0 <= i2 < i && 0 <= j2 < i && i2 != j2 && #[trigger] uval(g, t as int, k as int, i2)
                            != 0 ==> #[trigger] uval(g, t as int, k as int, j2) != uval(
                            g,
                            t as int,
                            k as int,
                            i2,
                        ),
                    forall|i2: int|
                        0 <= i2 < i && #[trigger] uval(g, t as int, k as int, i2) != 0 ==> seen@[uval(
                            g,
                            t as int,
                            k as int,
                            i2,
                        ) as int],
                    forall|x: int|
                        1 <= x <= 9 && #[trigger] seen@[x] ==> exists|i2: int|
                            0 <= i2 < i && #[trigger] uval(g, t as int, k as int, i2) == x,
                decreases 9 - i,
            {
                let (r, c) = unit_coords(t, k, i);
                proof {
                    lemma_unit_cells(t as int, k as int, i as int, i as int);
                }
                let v = board.get(r, c) as usize;
                assert(v == uval(g, t as int, k as int, i as int));
                if v == 0 {
                    if !allow_empty {
                        assert(!cell_ok(g, r as int, c as int, allow_empty));
                        return false;
                    }
                } else {
                    if v > 9 {
                        assert(!cell_ok(g, r as int, c as int, allow_empty));
                        return false;
                    }
                    if seen[v] {
                        proof {
                            let i2 = choose|i2: int|
                                0 <= i2 < i && #[trigger] uval(g, t as int, k as int, i2) == v;
                            lemma_unit_cells(t as int, k as int, i as int, i2);
                            let (r2, c2) = unit_cell(t as int, k as int, i2);
                            assert(g[r2][c2] == g[r as int][c as int]);
                            assert(!apart(g, r as int, c as int));
                            assert(!cell_ok(g, r as int, c as int, allow_empty));
                        }
                        return false;
                    }
                    seen[v] = true;
                }
                i += 1;
            }
            assert(unit_ok(g, t as int, k as int, allow_empty));
            k += 1;
        }
        t += 1;
    }
    proof {
        assert forall|r: int, c: int| 0 <= r < 9 && 0 <= c < 9 implies #[trigger] cell_ok(
            g,
            r,
            c,
            allow_empty,
        ) by {
            assert(unit_ok(g, 0, r, allow_empty));
            assert(uval(g, 0, r, c) == g[r][c]);
            if g[r][c] != 0 {
                assert forall|r2: int, c2: int|
                    0 <= r2 < 9 && 0 <= c2 < 9 && peers(r, c, r2, c2) && (r2 != r || c2 != c) implies #[trigger] g[r2][c2]
                    != g[r][c] by {
                    let (tt, kk, ii, jj) = lemma_peers_in_unit(r, c, r2, c2);
                    assert(unit_ok(g, tt, kk, allow_empty));
                    assert(uval(g, tt, kk, ii) == g[r][c]);
                    assert(uval(g, tt, kk, jj) == g[r2][c2]);
                }
            }
        }
    }
    true
}

/// True iff the board is completely and correctly solved: every cell holds
/// 1..=9 and no digit repeats in any row, column or box.
pub fn verify(board: &Board) -> (ok: bool)
    ensures
        ok == is_solution(board@),
{
    if !board.is_complete() {
        proof {
            let (r, c) = choose|r: int, c: int| 0 <= r < 9 && 0 <= c < 9 && board@[r][c] == 0;
            assert(!cell_ok(board@, r, c, false));
        }
        return false;
    }
    check_units(board, false)
}

/// True iff no rule is broken by the filled cells: no value above 9 and no
/// digit repeated in a row, column or box; empty cells are allowed.
pub fn verify_partial(board: &Board) -> (ok: bool)
    ensures
        ok == consistent(board@),
{
    check_units(board, true)
}


/// A completion of a board whose filled cells break no rule is a solved
/// board: `solve` on a consistent board leaves a board that `verify`
/// accepts.
pub proof fn lemma_fill_of_consistent_is_solution(g: Seq<Seq<u8>>, s: Seq<Seq<u8>>)
    requires
        well_shaped(g),
        consistent(g),
        is_fill(g, s),
    ensures
        is_solution(s),
{
    assert forall|r: int, c: int| 0 <= r < 9 && 0 <= c < 9 implies #[trigger] cell_ok(s, r, c, false) by {
        assert(cell_ok(g, r, c, true));
        if g[r][c] != 0 {
            assert forall|r2: int, c2: int|
                0 <= r2 < 9 && 0 <= c2 < 9 && peers(r, c, r2, c2) && (r2 != r || c2 != c) implies #[trigger] s[r2][c2]
                != s[r][c] by {
                if g[r2][c2] != 0 {
                    assert(g[r2][c2] != g[r][c]);
                } else {
                    assert(apart(s, r2, c2));
                    assert(peers(r2, c2, r, c));
                }
            }
        }
    }
}

/// A solved board that keeps every filled cell of `g` is a completion of
/// `g`; with the lemma above, the completions of a consistent board are
/// exactly the solved boards that extend it.
pub proof fn lemma_solution_extending_is_fill(g: Seq<Seq<u8>>, s: Seq<Seq<u8>>)
    requires
        well_shaped(g),
        well_shaped(s),
        is_solution(s),
        forall|r: int, c: int| 0 <= r < 9 && 0 <= c < 9 && g[r][c] != 0 ==> #[trigger] s[r][c] == g[r][c],
    ensures
        is_fill(g, s),
{
    assert forall|r: int, c: int| 0 <= r < 9 && 0 <= c < 9 implies {
        &&& (g[r][c] != 0 ==> #[trigger] s[r][c] == g[r][c])
        &&& (g[r][c] == 0 ==> 1 <= s[r][c] <= 9 && apart(s, r, c))
    } by {
        assert(cell_ok(s, r, c, false));
    }
}

/// A solved board is consistent: whatever `verify` accepts,
/// `verify_partial` accepts too.
pub proof fn lemma_solution_is_consistent(g: Seq<Seq<u8>>)
    requires
        is_solution(g),
    ensures
        consistent(g),
{
    assert forall|r: int, c: int| 0 <= r < 9 && 0 <= c < 9 implies #[trigger] cell_ok(g, r, c, true) by {
        assert(cell_ok(g, r, c, false));
    }
}

} // verus!
