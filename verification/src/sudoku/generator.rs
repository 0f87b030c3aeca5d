use vstd::prelude::*;
use crate::entropy::get_seed;
use crate::text::{lowercase, to_lowercase, str_eq};
use crate::sudoku::board::{Board, BOX_SIZE, SIZE, set_cell, well_shaped, in_box, peers, complete};
use crate::sudoku::solver::{
    solve, count_solutions, is_fill, has_fill, at_most_one_fill, is_solution, consistent, cell_ok,
    apart, grid_zeros, lemma_fill_of_consistent_is_solution, lemma_grid_ext, two_fills,
    lemma_grid_zeros_update, unique_fill, lemma_count_unique, search,
};
use crate::xorshift::{xorshift, xorshift_step, shuffle_from, swapped, lemma_shuffle_permutes};
use vstd::set_lib::{set_int_range, lemma_int_range, lemma_map_size, lemma_len_subset};
use vstd::relations::injective_on;

verus! {

/// Pseudo-random generator (xorshift64) used to build puzzles.
pub struct Rng {
    pub state: u64,
}

impl Rng {
    /// A generator seeded with `seed`; a zero seed becomes 1.
    pub fn new(seed: u64) -> (r: Self)
        ensures
            r.state == if seed == 0 {
                1
            } else {
                seed
            },
    {
        Rng { state: if seed == 0 { 1 } else { seed } }
    }

    /// Advances the state by one xorshift64 step and returns it.
    pub fn next(&mut self) -> (n: u64)
        ensures
            n == xorshift(old(self).state),
            final(self).state == n,
    {
        self.state = xorshift_step(self.state);
        self.state
    }

    /// The next value reduced modulo `max`.
    pub fn range(&mut self, max: usize) -> (v: usize)
        requires
            max > 0,
        ensures
            final(self).state == xorshift(old(self).state),
            v == final(self).state % (max as u64),
            v < max,
    {
        (self.next() % max as u64) as usize
    }

    /// Fisher-Yates shuffle: for i from the last index down to 1, swaps
    /// index i with index `range(i + 1)`.
    pub fn shuffle<T: Copy>(&mut self, v: &mut Vec<T>)
        ensures
            (final(v)@, final(self).state) == shuffle_from(old(v)@, old(self).state, old(v)@.len() - 1),
    {
        let n = v.len();
        if n == 0 {
            return;
        }
        let mut i = n - 1;
        while i >= 1
            invariant
                i < n,
                v@.len() == n,
                shuffle_from(v@, self.state, i as int) == shuffle_from(
                    old(v)@,
                    old(self).state,
                    n - 1,
                ),
            decreases i,
        {
            let j = self.range(i + 1);
            let a = v[i];
            let b = v[j];
            v.set(i, b);
            v.set(j, a);
            i -= 1;
        }
    }
}


/// The digits 1..=9 in increasing order.
pub open spec fn digits19() -> Seq<u8> {
    Seq::new(9, |i: int| (i + 1) as u8)
}

/// Box `b` of `g` holds the digits 1..=9, each once.
pub open spec fn box_holds_digits(g: Seq<Seq<u8>>, b: int) -> bool {
    &&& forall|r: int, c: int| #[trigger] in_box(b, r, c) ==> 1 <= g[r][c] <= 9
    &&& forall|r: int, c: int, r2: int, c2: int|
        #[trigger] in_box(b, r, c) && #[trigger] in_box(b, r2, c2) && (r != r2 || c != c2) ==> g[r][c]
            != g[r2][c2]
}

/// The digits 1..=9 as a vector, in increasing order.
fn digits_vec() -> (v: Vec<u8>)
    ensures
        v@ == digits19(),
{
    let mut v: Vec<u8> = Vec::new();
    let mut d: u8 = 1;
    while d <= 9
        invariant
            1 <= d <= 10,
            v@ == Seq::new((d - 1) as nat, |i: int| (i + 1) as u8),
        decreases 10 - d,
    {
        v.push(d);
        d += 1;
    }
    v
}

/// Fills box `box_idx` with the digits 1..=9 in shuffled order (row-major
/// within the box); every other cell is left alone.
pub fn fill_box(board: &mut Board, box_idx: usize, rng: &mut Rng)
    requires
        box_idx < 9,
    ensures
        final(rng).state == shuffle_from(digits19(), old(rng).state, 8).1,
        well_shaped(final(board)@),
        forall|r: int, c: int|
            #![trigger final(board)@[r][c]]
            0 <= r < 9 && 0 <= c < 9 ==> final(board)@[r][c] == if in_box(box_idx as int, r, c) {
                shuffle_from(digits19(), old(rng).state, 8).0[(r % 3) * 3 + c % 3]
            } else {
                old(board)@[r][c]
            },
        box_holds_digits(final(board)@, box_idx as int),
{
    let ghost g0 = board@;
    let ghost sh = shuffle_from(digits19(), rng.state, 8).0;
    let br = box_idx / 3;
    let bc = box_idx % 3;
    let start_r = br * BOX_SIZE;
    let start_c = bc * BOX_SIZE;
    let mut nums = digits_vec();
    rng.shuffle(&mut nums);
    proof {
        lemma_shuffle_permutes(digits19(), old(rng).state, 8);
        assert forall|k: int| 0 <= k < 9 implies 1 <= #[trigger] nums@[k] <= 9 by {
            assert(nums@.contains(nums@[k]));
            assert(digits19().contains(nums@[k]));
        }
        board.lemma_shape();
    }
    let mut idx: usize = 0;
    let mut r = start_r;
    while r < start_r + BOX_SIZE
        invariant
            box_idx < 9,
            start_r == (box_idx / 3) * 3,
            start_c == (box_idx % 3) * 3,
            start_r <= r <= start_r + 3,
            idx == (r - start_r) * 3,
            nums@ == sh,
            nums@.len() == 9,
            well_shaped(board@),
            forall|r2: int, c2: int|
                #![trigger board@[r2][c2]]
                0 <= r2 < 9 && 0 <= c2 < 9 ==> board@[r2][c2] == if in_box(box_idx as int, r2, c2)
                    && r2 < r {
                    sh[(r2 % 3) * 3 + c2 % 3]
                } else {
                    g0[r2][c2]
                },
        decreases start_r + 3 - r,
    {
        let mut c = start_c;
        while c < start_c + BOX_SIZE
            invariant
                box_idx < 9,
                start_r == (box_idx / 3) * 3,
                start_c == (box_idx % 3) * 3,
                start_r <= r < start_r + 3,
                start_c <= c <= start_c + 3,
                idx == (r - start_r) * 3 + (c - start_c),
                nums@ == sh,
                nums@.len() == 9,
                well_shaped(board@),
                forall|r2: int, c2: int|
                    #![trigger board@[r2][c2]]
                    0 <= r2 < 9 && 0 <= c2 < 9 ==> board@[r2][c2] == if in_box(
                        box_idx as int,
                        r2,
                        c2,
                    ) && (r2 < r || (r2 == r && c2 < c)) {
                        sh[(r2 % 3) * 3 + c2 % 3]
                    } else {
                        g0[r2][c2]
                    },
            decreases start_c + 3 - c,
        {
            assert(r / 3 == box_idx / 3 && r % 3 == r - start_r);
            assert(c / 3 == box_idx % 3 && c % 3 == c - start_c);
            board.set(r, c, nums[idx]);
            proof {
                board.lemma_shape();
            }
            idx += 1;
            c += 1;
        }
        r += 1;
    }
    proof {
        assert forall|r1: int, c1: int, r2: int, c2: int|
            #[trigger] in_box(box_idx as int, r1, c1) && #[trigger] in_box(box_idx as int, r2, c2) && (r1
                != r2 || c1 != c2) implies board@[r1][c1] != board@[r2][c2] by {
            assert(r1 == 3 * (r1 / 3) + r1 % 3);
            assert(r2 == 3 * (r2 / 3) + r2 % 3);
            assert(c1 == 3 * (c1 / 3) + c1 % 3);
            assert(c2 == 3 * (c2 / 3) + c2 % 3);
            let a = (r1 % 3) * 3 + c1 % 3;
            let b = (r2 % 3) * 3 + c2 % 3;
            assert(a != b);
            if a < b {
                assert(sh[a] != sh[b]);
            } else {
                assert(sh[b] != sh[a]);
            }
        }
    }
}

/// Cell (r, c) lies in one of the boxes 0, 4 and 8 on the main diagonal.
pub open spec fn in_diagonal_box(r: int, c: int) -> bool {
    0 <= r < 9 && 0 <= c < 9 && r / 3 == c / 3
}

/// The generator state after `n` shuffles of the nine digits from `st`.
pub open spec fn shuffles_state(st: u64, n: nat) -> u64
    decreases n,
{
    if n == 0 {
        st
    } else {
        shuffle_from(digits19(), shuffles_state(st, (n - 1) as nat), 8).1
    }
}

/// The digit that the diagonal box of (r, c) gets from the generator
/// state `st`: box r / 3 is filled with the digits shuffled after r / 3
/// earlier shuffles, read row by row.
pub open spec fn seed_digit(st: u64, r: int, c: int) -> u8 {
    shuffle_from(digits19(), shuffles_state(st, (r / 3) as nat), 8).0[(r % 3) * 3 + c % 3]
}

/// The empty board with its diagonal boxes filled from the generator
/// state `st`.
pub open spec fn diagonal_seed(st: u64) -> Seq<Seq<u8>> {
    Seq::new(9, |r: int| Seq::new(9, |c: int| if in_diagonal_box(r, c) { seed_digit(st, r, c) } else { 0u8 }))
}

/// The solved board built from the generator state `st`: the first
/// completion the search finds for the seeded board, or the seeded board
/// itself when it has none.
pub open spec fn solved_from(st: u64) -> Seq<Seq<u8>> {
    match search(diagonal_seed(st)) {
        Some(s) => s,
        None => diagonal_seed(st),
    }
}

/// Fills the three boxes on the main diagonal (0, 4, 8) with shuffled
/// digits; they share no row or column, so any such filling breaks no rule.
pub fn fill_diagonal_boxes(board: &mut Board, rng: &mut Rng)
    ensures
        well_shaped(final(board)@),
        forall|r: int, c: int|
            0 <= r < 9 && 0 <= c < 9 && !in_diagonal_box(r, c) ==> #[trigger] final(board)@[r][c]
                == old(board)@[r][c],
        box_holds_digits(final(board)@, 0),
        box_holds_digits(final(board)@, 4),
        box_holds_digits(final(board)@, 8),
        final(rng).state == shuffles_state(old(rng).state, 3),
        forall|r: int, c: int|
            in_diagonal_box(r, c) ==> #[trigger] final(board)@[r][c] == seed_digit(old(rng).state, r, c),
{
    let ghost g0 = board@;
    let ghost st0 = rng.state;
    let mut k: usize = 0;
    while k < 3
        invariant
            k <= 3,
            rng.state == shuffles_state(st0, k as nat),
            forall|r: int, c: int| in_diagonal_box(r, c) && r / 3 < k ==> #[trigger] board@[r][c] == seed_digit(st0, r, c),
            well_shaped(board@),
            forall|r: int, c: int|
                0 <= r < 9 && 0 <= c < 9 && !(in_diagonal_box(r, c) && r / 3 < k) ==> #[trigger] board@[r][c]
                    == g0[r][c],
            forall|j: int| 0 <= j < k ==> #[trigger] box_holds_digits(board@, 4 * j),
        decreases 3 - k,
    {
        let ghost before = board@;
        fill_box(board, k * 4, rng);
        proof {
            assert forall|r: int, c: int| #[trigger] in_box(4 * k as int, r, c) <==> (in_diagonal_box(r, c) && r / 3 == k) by {}
            assert forall|r: int, c: int| in_diagonal_box(r, c) && r / 3 < k + 1 implies #[trigger] board@[r][c] == seed_digit(st0, r, c) by {
                if r / 3 == k {
                    assert(in_box(4 * k as int, r, c));
                } else {
                    assert(!in_box(4 * k as int, r, c));
                    assert(board@[r][c] == before[r][c]);
                }
            }
            assert forall|j: int| 0 <= j < k + 1 implies #[trigger] box_holds_digits(board@, 4 * j) by {
                if j < k {
                    assert(box_holds_digits(before, 4 * j));
                    assert forall|r: int, c: int| #[trigger] in_box(4 * j, r, c) implies board@[r][c] == before[r][c] by {}
                }
            }
        }
        k += 1;
    }
    proof {
        assert(box_holds_digits(board@, 4 * (0 as int)));
        assert(box_holds_digits(board@, 4 * (1 as int)));
        assert(box_holds_digits(board@, 4 * (2 as int)));
    }
}

/// An empty board with the three diagonal boxes filled with digits breaks
/// no rule.
pub(crate) proof fn lemma_diagonal_seed_consistent(g0: Seq<Seq<u8>>, g: Seq<Seq<u8>>)
    requires
        well_shaped(g),
        forall|r: int, c: int| 0 <= r < 9 && 0 <= c < 9 ==> #[trigger] g0[r][c] == 0,
        forall|r: int, c: int|
            0 <= r < 9 && 0 <= c < 9 && !in_diagonal_box(r, c) ==> #[trigger] g[r][c] == g0[r][c],
        box_holds_digits(g, 0),
        box_holds_digits(g, 4),
        box_holds_digits(g, 8),
    ensures
        consistent(g),
{
    assert forall|r: int, c: int| 0 <= r < 9 && 0 <= c < 9 implies #[trigger] cell_ok(g, r, c, true) by {
        if in_diagonal_box(r, c) {
            let b = 4 * (r / 3);
            assert(in_box(b, r, c));
            assert(box_holds_digits(g, b));
            assert forall|r2: int, c2: int|
                0 <= r2 < 9 && 0 <= c2 < 9 && peers(r, c, r2, c2) && (r2 != r || c2 != c) implies #[trigger] g[r2][c2]
                != g[r][c] by {
                if in_diagonal_box(r2, c2) && r2 / 3 == r / 3 {
                    assert(in_box(b, r2, c2));
                } else if in_diagonal_box(r2, c2) {
                    assert(!peers(r, c, r2, c2));
                } else {
                    assert(g[r2][c2] == g0[r2][c2]);
                }
            }
        } else {
            assert(g[r][c] == g0[r][c]);
        }
    }
}


/// A fully solved board: the diagonal boxes are filled with shuffled digits
/// and the rest is solved. Should the solver find no completion, the seeded
/// board is returned as it is, and it has no completion.
pub fn generate_solved(rng: &mut Rng) -> (b: Board)
    ensures
        is_solution(b@) || !has_fill(b@),
        box_holds_digits(b@, 8),
        final(rng).state == shuffles_state(old(rng).state, 3),
        b@ == solved_from(old(rng).state),
{
    let mut board = Board::new();
    let ghost g0 = board@;
    let ghost st = rng.state;
    fill_diagonal_boxes(&mut board, rng);
    proof {
        lemma_diagonal_seed_consistent(g0, board@);
        assert forall|r: int, c: int| 0 <= r < 9 && 0 <= c < 9 implies #[trigger] board@[r][c] == diagonal_seed(st)[r][c] by {
            if !in_diagonal_box(r, c) {
                assert(board@[r][c] == g0[r][c]);
            }
        }
        lemma_grid_ext(board@, diagonal_seed(st));
    }
    let ghost seed = board@;
    if solve(&mut board) {
        proof {
            lemma_fill_of_consistent_is_solution(seed, board@);
            lemma_fill_keeps_box(seed, board@, 8);
        }
    }
    board
}

/// A completion keeps a box that holds the digits.
pub(crate) proof fn lemma_fill_keeps_box(g: Seq<Seq<u8>>, s: Seq<Seq<u8>>, b: int)
    requires
        box_holds_digits(g, b),
        is_fill(g, s),
    ensures
        box_holds_digits(s, b),
{
    assert forall|r: int, c: int| #[trigger] in_box(b, r, c) implies s[r][c] == g[r][c] by {
        assert(1 <= g[r][c]);
    }
    assert forall|r: int, c: int, r2: int, c2: int|
        #[trigger] in_box(b, r, c) && #[trigger] in_box(b, r2, c2) && (r != r2 || c != c2) implies s[r][c] != s[r2][c2] by {
        assert(s[r][c] == g[r][c]);
        assert(s[r2][c2] == g[r2][c2]);
    }
}

/// Puzzle difficulty.
#[derive(Clone, Copy, Debug, PartialEq, Eq, Structural)]
pub enum Difficulty {
    Easy,
    Medium,
    Hard,
}

/// Number of cells to remove for a difficulty.
pub open spec fn removal_target(d: Difficulty) -> usize {
    match d {
        Difficulty::Easy => 36,
        Difficulty::Medium => 46,
        Difficulty::Hard => 54,
    }
}

impl Difficulty {
    /// Number of cells to remove.
    fn cells_to_remove(self) -> (n: usize)
        ensures
            n == removal_target(self),
    {
        match self {
            Difficulty::Easy => 36,
            Difficulty::Medium => 46,
            Difficulty::Hard => 54,
        }
    }
}

/// The difficulty named by `s`, ignoring case ("easy", "medium", "hard");
/// any other text gives Medium.
pub fn difficulty_from_str(s: &str) -> (d: Difficulty)
    ensures
        d == if lowercase(s@) == "easy"@ {
            Difficulty::Easy
        } else if lowercase(s@) == "hard"@ {
            Difficulty::Hard
        } else {
            Difficulty::Medium
        },
{
    let lower = to_lowercase(s);
    if str_eq(lower.as_str(), "easy") {
        Difficulty::Easy
    } else if str_eq(lower.as_str(), "medium") {
        proof {
            reveal_strlit("medium");
            reveal_strlit("easy");
            reveal_strlit("hard");
            assert("medium"@.len() != "hard"@.len());
        }
        Difficulty::Medium
    } else if str_eq(lower.as_str(), "hard") {
        Difficulty::Hard
    } else {
        Difficulty::Medium
    }
}

/// The 81 cell positions in row-major order.
pub open spec fn grid_positions() -> Seq<(usize, usize)> {
    Seq::new(81, |k: int| ((k / 9) as usize, (k % 9) as usize))
}

/// All 81 cell positions in row-major order.
pub(crate) fn all_positions() -> (v: Vec<(usize, usize)>)
    ensures
        v@.len() == 81,
        forall|k: int| 0 <= k < v@.len() ==> #[trigger] v@[k].0 < 9 && v@[k].1 < 9,
        v@ == grid_positions(),
{
    let mut positions: Vec<(usize, usize)> = Vec::with_capacity(81);
    let mut r: usize = 0;
    while r < SIZE
        invariant
            r <= 9,
            positions@.len() == r * 9,
            forall|k: int| 0 <= k < positions@.len() ==> #[trigger] positions@[k].0 < 9 && positions@[k].1 < 9,
            forall|k: int| 0 <= k < positions@.len() ==> #[trigger] positions@[k] == grid_positions()[k],
        decreases 9 - r,
    {
        let mut c: usize = 0;
        while c < SIZE
            invariant
                r < 9,
                c <= 9,
                positions@.len() == r * 9 + c,
                forall|k: int|
                    0 <= k < positions@.len() ==> #[trigger] positions@[k].0 < 9 && positions@[k].1 < 9,
                forall|k: int| 0 <= k < positions@.len() ==> #[trigger] positions@[k] == grid_positions()[k],
            decreases 9 - c,
        {
            proof {
                let k = r * 9 + c;
                assert(k / 9 == r && k % 9 == c) by (nonlinear_arith)
                    requires
                        k == r * 9 + c,
                        c < 9,
                ;
            }
            positions.push((r, c));
            c += 1;
        }
        r += 1;
    }
    assert(positions@ =~= grid_positions());
    positions
}

/// Clearing a filled cell adds one empty cell.
pub(crate) proof fn lemma_clear_adds_zero(g: Seq<Seq<u8>>, r: int, c: int)
    requires
        well_shaped(g),
        0 <= r < 9,
        0 <= c < 9,
        g[r][c] != 0,
    ensures
        grid_zeros(set_cell(g, r, c, 0)) == grid_zeros(g) + 1,
        set_cell(set_cell(g, r, c, 0), r, c, g[r][c]) == g,
{
    let h = set_cell(g, r, c, 0);
    lemma_grid_zeros_update(h, r, c, g[r][c]);
    assert forall|r2: int, c2: int| 0 <= r2 < 9 && 0 <= c2 < 9 implies #[trigger] set_cell(h, r, c, g[r][c])[r2][c2] == g[r2][c2] by {}
    lemma_grid_ext(set_cell(h, r, c, g[r][c]), g);
}

/// Each row of a solved board holds every digit 1..=9.
pub proof fn lemma_row_holds_digit(s: Seq<Seq<u8>>, r: int, v: u8)
    requires
        well_shaped(s),
        is_solution(s),
        0 <= r < 9,
        1 <= v <= 9,
    ensures
        exists|c: int| 0 <= c < 9 && #[trigger] s[r][c] == v,
{
    if forall|c: int| 0 <= c < 9 ==> #[trigger] s[r][c] != v {
        let cols = set_int_range(0, 9);
        let f = |c: int| s[r][c] as int;
        let vals = cols.map(f);
        lemma_int_range(0, 9);
        assert(injective_on(f, cols)) by {
            assert forall|c1: int, c2: int| cols.contains(c1) && cols.contains(c2) && #[trigger] f(c1) == #[trigger] f(c2) implies c1 == c2 by {
                if c1 != c2 {
                    assert(cell_ok(s, r, c1, false));
                    assert(peers(r, c1, r, c2));
                }
            }
        }
        lemma_map_size(cols, vals, f);
        let digits = set_int_range(1, 10).remove(v as int);
        lemma_int_range(1, 10);
        assert(vals.subset_of(digits)) by {
            assert forall|x: int| vals.contains(x) implies digits.contains(x) by {
                let c = choose|c: int| cols.contains(c) && f(c) == x;
                assert(cell_ok(s, r, c, false));
            }
        }
        lemma_len_subset(vals, digits);
        assert(false);
    }
}

/// Clearing one cell of a solved board leaves a board whose only
/// completion is that solved board.
pub proof fn lemma_one_blank_unique(sol: Seq<Seq<u8>>, r: int, c: int)
    requires
        well_shaped(sol),
        is_solution(sol),
        0 <= r < 9,
        0 <= c < 9,
    ensures
        is_fill(set_cell(sol, r, c, 0), sol),
        at_most_one_fill(set_cell(sol, r, c, 0)),
{
    let g = set_cell(sol, r, c, 0);
    assert forall|r2: int, c2: int| #![trigger sol[r2][c2]] 0 <= r2 < 9 && 0 <= c2 < 9 implies sol[r2][c2] != 0 && apart(sol, r2, c2) by {
        assert(cell_ok(sol, r2, c2, false));
    }
    assert forall|r2: int, c2: int| #![trigger sol[r2][c2]] 0 <= r2 < 9 && 0 <= c2 < 9 implies
        (g[r2][c2] != 0 ==> sol[r2][c2] == g[r2][c2]) && (g[r2][c2] == 0 ==> 1 <= sol[r2][c2] <= 9 && apart(sol, r2, c2)) by {
        assert(cell_ok(sol, r2, c2, false));
        if r2 != r || c2 != c {
            assert(g[r2][c2] == sol[r2][c2]);
        }
    }
    assert(is_fill(g, sol));
    assert forall|s: Seq<Seq<u8>>| is_fill(g, s) implies s == sol by {
        assert forall|r2: int, c2: int| 0 <= r2 < 9 && 0 <= c2 < 9 implies #[trigger] s[r2][c2] == sol[r2][c2] by {
            if r2 != r || c2 != c {
                assert(g[r2][c2] == sol[r2][c2]);
            } else {
                let v = s[r][c];
                assert(g[r][c] == 0);
                if v != sol[r][c] {
                    lemma_row_holds_digit(sol, r, v);
                    let c3 = choose|c3: int| 0 <= c3 < 9 && #[trigger] sol[r][c3] == v;
                    assert(g[r][c3] == sol[r][c3]);
                    assert(s[r][c3] == v);
                    assert(peers(r, c, r, c3));
                }
            }
        }
        lemma_grid_ext(s, sol);
    }
}

/// The puzzle left by clearing, from position `p` of `positions` on, each
/// filled cell whose clearing keeps a single completion, until `target`
/// cells in all are cleared (`removed` of them already).
pub open spec fn removal(puzzle: Seq<Seq<u8>>, positions: Seq<(usize, usize)>, p: int, removed: int, target: int) -> Seq<Seq<u8>>
    decreases positions.len() - p,
{
    if 0 <= p < positions.len() && removed < target {
        let r = positions[p].0 as int;
        let c = positions[p].1 as int;
        if puzzle[r][c] != 0 && unique_fill(set_cell(puzzle, r, c, 0)) {
            removal(set_cell(puzzle, r, c, 0), positions, p + 1, removed + 1, target)
        } else {
            removal(puzzle, positions, p + 1, removed, target)
        }
    } else {
        puzzle
    }
}

/// The (puzzle, solution) dealt for difficulty `d` from the generator
/// state `st`: the solved board built from `st`, and the puzzle left by
/// clearing it in the order shuffled from the state after.
pub open spec fn deal(d: Difficulty, st: u64) -> (Seq<Seq<u8>>, Seq<Seq<u8>>) {
    (
        removal(
            solved_from(st),
            shuffle_from(grid_positions(), shuffles_state(st, 3), 80).0,
            0,
            0,
            removal_target(d) as int,
        ),
        solved_from(st),
    )
}

/// Every filled cell of `q` holds the value `p` holds there.
pub open spec fn clues_within(q: Seq<Seq<u8>>, p: Seq<Seq<u8>>) -> bool {
    forall|r: int, c: int| 0 <= r < 9 && 0 <= c < 9 ==> #[trigger] q[r][c] == 0 || q[r][c] == p[r][c]
}

/// No clue of `g` can be cleared keeping a single completion: clearing any
/// filled cell leaves two different completions.
pub open spec fn minimal_puzzle(g: Seq<Seq<u8>>) -> bool {
    forall|r: int, c: int| 0 <= r < 9 && 0 <= c < 9 && #[trigger] g[r][c] != 0 ==> two_fills(set_cell(g, r, c, 0))
}

/// Cells to clear for a difficulty, written out.
pub open spec fn clear_count(d: Difficulty) -> int {
    match d {
        Difficulty::Easy => 36,
        Difficulty::Medium => 46,
        Difficulty::Hard => 54,
    }
}

/// A board whose clues are those of a solved board breaks no rule.
proof fn lemma_within_solution_consistent(g: Seq<Seq<u8>>, sol: Seq<Seq<u8>>)
    requires
        well_shaped(g),
        is_solution(sol),
        clues_within(g, sol),
    ensures
        consistent(g),
{
    assert forall|r: int, c: int| 0 <= r < 9 && 0 <= c < 9 implies #[trigger] cell_ok(g, r, c, true) by {
        assert(cell_ok(sol, r, c, false));
        assert(g[r][c] == 0 || g[r][c] == sol[r][c]);
        if g[r][c] != 0 {
            assert forall|r2: int, c2: int|
                0 <= r2 < 9 && 0 <= c2 < 9 && peers(r, c, r2, c2) && (r2 != r || c2 != c) implies #[trigger] g[r2][c2]
                != g[r][c] by {
                assert(g[r2][c2] == 0 || g[r2][c2] == sol[r2][c2]);
                assert(sol[r2][c2] != sol[r][c]);
            }
        }
    }
}

/// Fewer clues keep every completion: when `p` (whose clues are those of a
/// solved board) has two completions, so has any `q` whose clues are
/// among those of `p`.
pub(crate) proof fn lemma_two_fills_widen(q: Seq<Seq<u8>>, p: Seq<Seq<u8>>, sol: Seq<Seq<u8>>)
    requires
        well_shaped(q),
        well_shaped(p),
        is_solution(sol),
        clues_within(p, sol),
        clues_within(q, p),
        two_fills(p),
    ensures
        two_fills(q),
{
    let (s1, s2) = choose|s1: Seq<Seq<u8>>, s2: Seq<Seq<u8>>| is_fill(p, s1) && is_fill(p, s2) && s1 != s2;
    lemma_within_solution_consistent(p, sol);
    lemma_fill_of_consistent_is_solution(p, s1);
    lemma_fill_of_consistent_is_solution(p, s2);
    assert forall|r: int, c: int| 0 <= r < 9 && 0 <= c < 9 && q[r][c] != 0 implies #[trigger] s1[r][c] == q[r][c] by {
        assert(q[r][c] == p[r][c]);
    }
    assert forall|r: int, c: int| 0 <= r < 9 && 0 <= c < 9 && q[r][c] != 0 implies #[trigger] s2[r][c] == q[r][c] by {
        assert(q[r][c] == p[r][c]);
    }
    crate::sudoku::solver::lemma_solution_extending_is_fill(q, s1);
    crate::sudoku::solver::lemma_solution_extending_is_fill(q, s2);
}

/// A board whose clues are those of a solved board and which has not a
/// single completion has two: the solved board is one.
pub(crate) proof fn lemma_not_unique_two_fills(g: Seq<Seq<u8>>, sol: Seq<Seq<u8>>)
    requires
        well_shaped(g),
        well_shaped(sol),
        is_solution(sol),
        clues_within(g, sol),
        !unique_fill(g),
    ensures
        two_fills(g),
{
    assert forall|r: int, c: int| 0 <= r < 9 && 0 <= c < 9 && g[r][c] != 0 implies #[trigger] sol[r][c] == g[r][c] by {
        assert(g[r][c] == 0 || g[r][c] == sol[r][c]);
    }
    crate::sudoku::solver::lemma_solution_extending_is_fill(g, sol);
    assert(has_fill(g));
}

/// The removal from position `p` on clears at most the cells still owed,
/// keeps only clues of the board it starts from, and when it clears fewer
/// than owed, every filled cell it leaves at the later positions can no
/// longer be cleared keeping a single completion.
proof fn lemma_removal_tries(
    g: Seq<Seq<u8>>,
    sol: Seq<Seq<u8>>,
    positions: Seq<(usize, usize)>,
    p: int,
    removed: int,
    target: int,
)
    requires
        well_shaped(g),
        well_shaped(sol),
        is_solution(sol),
        clues_within(g, sol),
        0 <= p <= positions.len(),
        0 <= removed <= target,
        forall|k: int| 0 <= k < positions.len() ==> #[trigger] positions[k].0 < 9 && positions[k].1 < 9,
    ensures
        ({
            let res = removal(g, positions, p, removed, target);
            &&& well_shaped(res)
            &&& clues_within(res, g)
            &&& grid_zeros(res) + removed <= grid_zeros(g) + target
            &&& (grid_zeros(res) + removed < grid_zeros(g) + target ==> forall|k: int|
                p <= k < positions.len() && #[trigger] res[positions[k].0 as int][positions[k].1 as int] != 0
                    ==> two_fills(set_cell(res, positions[k].0 as int, positions[k].1 as int, 0)))
        }),
    decreases positions.len() - p,
{
    if p < positions.len() && removed < target {
        let r = positions[p].0 as int;
        let c = positions[p].1 as int;
        let g2 = set_cell(g, r, c, 0);
        assert(well_shaped(g2));
        assert(clues_within(g2, sol)) by {
            assert forall|r2: int, c2: int| 0 <= r2 < 9 && 0 <= c2 < 9 implies #[trigger] g2[r2][c2] == 0 || g2[r2][c2] == sol[r2][c2] by {
                assert(g[r2][c2] == 0 || g[r2][c2] == sol[r2][c2]);
            }
        }
        if g[r][c] != 0 && unique_fill(g2) {
            lemma_clear_adds_zero(g, r, c);
            lemma_removal_tries(g2, sol, positions, p + 1, removed + 1, target);
            let res = removal(g2, positions, p + 1, removed + 1, target);
            assert(res == removal(g, positions, p, removed, target));
            assert(clues_within(res, g)) by {
                assert forall|r2: int, c2: int| 0 <= r2 < 9 && 0 <= c2 < 9 implies #[trigger] res[r2][c2] == 0 || res[r2][c2] == g[r2][c2] by {
                    assert(res[r2][c2] == 0 || res[r2][c2] == g2[r2][c2]);
                }
            }
            assert(res[r][c] == 0 || res[r][c] == g2[r][c]);
        } else {
            lemma_removal_tries(g, sol, positions, p + 1, removed, target);
            let res = removal(g, positions, p + 1, removed, target);
            assert(res == removal(g, positions, p, removed, target));
            if grid_zeros(res) + removed < grid_zeros(g) + target && res[r][c] != 0 {
                assert(res[r][c] == g[r][c]);
                let h = set_cell(res, r, c, 0);
                assert(is_fill(g2, sol)) by {
                    assert forall|r2: int, c2: int| 0 <= r2 < 9 && 0 <= c2 < 9 && g2[r2][c2] != 0 implies #[trigger] sol[r2][c2] == g2[r2][c2] by {
                        assert(g2[r2][c2] == 0 || g2[r2][c2] == sol[r2][c2]);
                    }
                    crate::sudoku::solver::lemma_solution_extending_is_fill(g2, sol);
                }
                assert(has_fill(g2));
                assert(two_fills(g2));
                assert(well_shaped(h));
                assert(clues_within(h, g2)) by {
                    assert forall|r2: int, c2: int| 0 <= r2 < 9 && 0 <= c2 < 9 implies #[trigger] h[r2][c2] == 0 || h[r2][c2] == g2[r2][c2] by {
                        assert(res[r2][c2] == 0 || res[r2][c2] == g[r2][c2]);
                    }
                }
                lemma_two_fills_widen(h, g2, sol);
            }
        }
    }
}

/// Clearing a solved board in an order that lists every cell clears
/// exactly 36 cells for Easy, 46 for Medium and 54 for Hard, unless the
/// puzzle left is minimal (no clue can then be cleared keeping a single
/// completion), in which case it clears fewer.
pub proof fn lemma_removal_clears_target(sol: Seq<Seq<u8>>, positions: Seq<(usize, usize)>, d: Difficulty)
    requires
        well_shaped(sol),
        is_solution(sol),
        forall|k: int| 0 <= k < positions.len() ==> #[trigger] positions[k].0 < 9 && positions[k].1 < 9,
        forall|r: usize, c: usize| r < 9 && c < 9 ==> #[trigger] positions.contains((r, c)),
    ensures
        ({
            let puzzle = removal(sol, positions, 0, 0, removal_target(d) as int);
            ||| grid_zeros(puzzle) == grid_zeros(sol) + clear_count(d)
            ||| grid_zeros(puzzle) < grid_zeros(sol) + clear_count(d) && minimal_puzzle(puzzle)
        }),
{
    let target = removal_target(d) as int;
    assert(clues_within(sol, sol));
    lemma_removal_tries(sol, sol, positions, 0, 0, target);
    let puzzle = removal(sol, positions, 0, 0, target);
    assert(target == clear_count(d));
    if grid_zeros(puzzle) < grid_zeros(sol) + target {
        assert forall|r: int, c: int| 0 <= r < 9 && 0 <= c < 9 && #[trigger] puzzle[r][c] != 0 implies two_fills(
            set_cell(puzzle, r, c, 0),
        ) by {
            assert(positions.contains((r as usize, c as usize)));
            let k = choose|k: int| 0 <= k < positions.len() && positions[k] == (r as usize, c as usize);
            assert(puzzle[positions[k].0 as int][positions[k].1 as int] != 0);
        }
    }
}

/// Generates (puzzle, solution) with a fresh seed; see `generate_with`.
pub fn generate(difficulty: Difficulty) -> (res: (Board, Board))
    ensures
        is_solution(res.1@) || !has_fill(res.1@),
        at_most_one_fill(res.0@),
        forall|r: int, c: int|
            0 <= r < 9 && 0 <= c < 9 ==> #[trigger] res.0@[r][c] == 0 || res.0@[r][c] == res.1@[r][c],
        is_solution(res.1@) ==> is_fill(res.0@, res.1@),
        grid_zeros(res.0@) <= grid_zeros(res.1@) + removal_target(difficulty),
        is_solution(res.1@) ==> grid_zeros(res.0@) >= 1,
        exists|st: u64| (res.0@, res.1@) == #[trigger] deal(difficulty, st),
        is_solution(res.1@) ==> grid_zeros(res.0@) == grid_zeros(res.1@) + clear_count(difficulty) || grid_zeros(
            res.0@,
        ) < grid_zeros(res.1@) + clear_count(difficulty) && minimal_puzzle(res.0@),
{
    let mut rng = Rng::new(get_seed());
    let ghost st = rng.state;
    let res = generate_with(difficulty, &mut rng);
    assert((res.0@, res.1@) == deal(difficulty, st));
    res
}

/// Generates (puzzle, solution) from the generator `rng`: a solved board,
/// then cells removed in shuffled order as long as the puzzle keeps a single
/// completion, until the difficulty's number of cells is removed.
pub fn generate_with(difficulty: Difficulty, rng: &mut Rng) -> (res: (Board, Board))
    ensures
        is_solution(res.1@) || !has_fill(res.1@),
        at_most_one_fill(res.0@),
        forall|r: int, c: int|
            0 <= r < 9 && 0 <= c < 9 ==> #[trigger] res.0@[r][c] == 0 || res.0@[r][c] == res.1@[r][c],
        is_solution(res.1@) ==> is_fill(res.0@, res.1@),
        grid_zeros(res.0@) <= grid_zeros(res.1@) + removal_target(difficulty),
        is_solution(res.1@) ==> grid_zeros(res.0@) >= 1,        res.0@ == removal(
            res.1@,
            shuffle_from(grid_positions(), shuffles_state(old(rng).state, 3), 80).0,
            0,
            0,
            removal_target(difficulty) as int,
        ),
        final(rng).state == shuffle_from(grid_positions(), shuffles_state(old(rng).state, 3), 80).1,
        res.1@ == solved_from(old(rng).state),
        (res.0@, res.1@) == deal(difficulty, old(rng).state),
        is_solution(res.1@) ==> grid_zeros(res.0@) == grid_zeros(res.1@) + clear_count(difficulty) || grid_zeros(
            res.0@,
        ) < grid_zeros(res.1@) + clear_count(difficulty) && minimal_puzzle(res.0@),
{
    let solution = generate_solved(rng);
    let mut puzzle = solution.clone();
    proof {
        solution.lemma_shape();
        assert forall|s1: Seq<Seq<u8>>, s2: Seq<Seq<u8>>|
            is_fill(solution@, s1) && is_fill(solution@, s2) implies s1 == s2 by {
            assert(has_fill(solution@));
            assert(complete(solution@)) by {
                assert forall|r: int, c: int| #![trigger solution@[r][c]] 0 <= r < 9 && 0 <= c < 9 implies solution@[r][c] != 0 by {
                    assert(cell_ok(solution@, r, c, false));
                }
            }
            assert forall|r: int, c: int| 0 <= r < 9 && 0 <= c < 9 implies #[trigger] s1[r][c] == s2[r][c] by {
                assert(solution@[r][c] != 0);
            }
            lemma_grid_ext(s1, s2);
        }
    }
    let to_remove = difficulty.cells_to_remove();
    let mut positions = all_positions();
    let ghost pos0 = positions@;
    let ghost st0 = rng.state;
    rng.shuffle(&mut positions);
    let ghost shuffled = positions@;
    proof {
        lemma_shuffle_permutes(pos0, st0, 80);
        assert forall|k: int| 0 <= k < positions@.len() implies #[trigger] positions@[k].0 < 9 && positions@[k].1 < 9 by {
            assert(positions@.contains(positions@[k]));
            assert(pos0.contains(positions@[k]));
        }
    }
    let mut removed: usize = 0;
    let mut p: usize = 0;
    while p < positions.len() && removed < to_remove
        invariant
            p <= positions@.len(),
            positions@.len() == 81,
            removed <= to_remove,
            to_remove == removal_target(difficulty),
            forall|k: int| 0 <= k < positions@.len() ==> #[trigger] positions@[k].0 < 9 && positions@[k].1 < 9,
            well_shaped(puzzle@),
            well_shaped(solution@),
            at_most_one_fill(puzzle@),
            forall|r: int, c: int|
                0 <= r < 9 && 0 <= c < 9 ==> #[trigger] puzzle@[r][c] == 0 || puzzle@[r][c] == solution@[r][c],
            grid_zeros(puzzle@) == grid_zeros(solution@) + removed,
            p == 0 ==> puzzle@ == solution@,
            p > 0 && is_solution(solution@) ==> removed >= 1,
            positions@ == shuffled,
            removal(puzzle@, shuffled, p as int, removed as int, to_remove as int) == removal(
                solution@,
                shuffled,
                0,
                0,
                to_remove as int,
            ),
        decreases positions@.len() - p,
    {
        let (r, c) = positions[p];
        let val = puzzle.get(r, c);
        proof {
            if p == 0 && is_solution(solution@) {
                assert(cell_ok(solution@, r as int, c as int, false));
            }
        }
        if val != 0 {
            let ghost before = puzzle@;
            puzzle.set(r, c, 0);
            proof {
                lemma_clear_adds_zero(before, r as int, c as int);
                puzzle.lemma_shape();
                if p == 0 && is_solution(solution@) {
                    lemma_one_blank_unique(solution@, r as int, c as int);
                }
            }
            let mut test = puzzle.clone();
            let count = count_solutions(&mut test, 2);
            proof {
                lemma_count_unique(puzzle@, count);
            }
            if count == 1 {
                removed += 1;
            } else {
                puzzle.set(r, c, val);
            }
        }
        p += 1;
    }
    proof {
        if is_solution(solution@) {
            crate::sudoku::solver::lemma_solution_extending_is_fill(puzzle@, solution@);
            assert forall|r: usize, c: usize| r < 9 && c < 9 implies #[trigger] shuffled.contains((r, c)) by {
                let k = r * 9 + c;
                assert(k / 9 == r as int && k % 9 == c as int) by (nonlinear_arith)
                    requires
                        k == r * 9 + c,
                        c < 9,
                ;
                assert(grid_positions()[k as int] == (r, c));
                assert(grid_positions().contains((r, c)));
            }
            lemma_removal_clears_target(solution@, shuffled, difficulty);
        }
    }
    (puzzle, solution)
}

} // verus!
