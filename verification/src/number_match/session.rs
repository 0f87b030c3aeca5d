use vstd::prelude::*;
use crate::number_match::grid::{
    Grid, Rng, Cell, COLS, MAX_ROWS, SCORE_MATCH, SCORE_CLEAR_BONUS, SCORE_ADD_ROW_PENALTY, valid_match, some_match,
    first_match, trimmed, draw_digits, padded_cells, digit_cells, digits_upto, flat_values,
};

verus! {

/// What a game in play holds, as values: the grid (cells and rows), the
/// generator state, the score and counters, the states that undo goes back
/// to, and whether the game is over or won.
pub struct NumberMatchView {
    pub cells: Seq<Cell>,
    pub rows: int,
    pub rng: u64,
    pub score: int,
    pub matches: int,
    pub rows_added: int,
    pub past: Seq<(Seq<Cell>, int, int, int, int)>,
    pub over: bool,
    pub won: bool,
}

/// Every cell is empty.
pub open spec fn all_clear(cells: Seq<Cell>) -> bool {
    forall|i: int| 0 <= i < cells.len() ==> #[trigger] cells[i] is Empty
}

/// The state kept for undo.
pub open spec fn snapshot(v: NumberMatchView) -> (Seq<Cell>, int, int, int, int) {
    (v.cells, v.rows, v.score, v.matches, v.rows_added)
}

/// The game after matching cells `a` and `b`: both emptied, trailing empty
/// rows dropped, 10 points, and 100 more with the game won when the grid
/// is cleared. Nothing changes when the game is over or the pair is not a
/// match.
pub open spec fn match_view(v: NumberMatchView, a: int, b: int) -> NumberMatchView {
    if v.over || !valid_match(v.cells, a, b) {
        v
    } else {
        let t = trimmed(v.cells.update(a, Cell::Empty).update(b, Cell::Empty), v.rows);
        let cleared = all_clear(t.0);
        NumberMatchView {
            cells: t.0,
            rows: t.1,
            score: v.score + 10 + if cleared {
                100int
            } else {
                0int
            },
            matches: v.matches + 1,
            past: v.past.push(snapshot(v)),
            over: cleared,
            won: cleared,
            ..v
        }
    }
}

/// The game after asking for a row: nothing when over; over, with no row,
/// at 50 rows; otherwise nine random digits appended and 20 points off.
pub open spec fn add_row_view(v: NumberMatchView) -> NumberMatchView {
    if v.over {
        v
    } else if v.rows >= 50 {
        NumberMatchView { over: true, ..v }
    } else {
        let (d, s) = draw_digits(v.rng, 9);
        NumberMatchView {
            cells: v.cells + digit_cells(d),
            rows: v.rows + 1,
            rng: s,
            score: v.score - 20,
            rows_added: v.rows_added + 1,
            past: v.past.push(snapshot(v)),
            ..v
        }
    }
}

/// The game after undo: back to the last state kept, not over, not won.
pub open spec fn undo_view(v: NumberMatchView) -> NumberMatchView {
    if v.past.len() == 0 {
        v
    } else {
        let p = v.past.last();
        NumberMatchView {
            cells: p.0,
            rows: p.1,
            score: p.2,
            matches: p.3,
            rows_added: p.4,
            past: v.past.drop_last(),
            over: false,
            won: false,
            ..v
        }
    }
}

/// A copy of a grid.
fn copy_grid(g: &Grid) -> (c: Grid)
    ensures
        c.cells@ == g.cells@,
        c.rows == g.rows,
{
    let mut cells: Vec<Cell> = Vec::new();
    let mut i: usize = 0;
    while i < g.cells.len()
        invariant
            i <= g.cells@.len(),
            cells@ == g.cells@.subrange(0, i as int),
        decreases g.cells@.len() - i,
    {
        cells.push(g.cells[i]);
        assert(cells@ =~= g.cells@.subrange(0, i + 1));
        i += 1;
    }
    assert(cells@ =~= g.cells@);
    Grid { cells, rows: g.rows }
}

/// A number-match game in play.
pub struct NumberMatchGame {
    grid: Grid,
    rng: Rng,
    score: i32,
    matches_made: u32,
    rows_added: u32,
    history: Vec<(Grid, i32, u32, u32)>,
    game_over: bool,
    game_won: bool,
}

impl View for NumberMatchGame {
    type V = NumberMatchView;

    closed spec fn view(&self) -> NumberMatchView {
        NumberMatchView {
            cells: self.grid.cells@,
            rows: self.grid.rows as int,
            rng: self.rng.state,
            score: self.score as int,
            matches: self.matches_made as int,
            rows_added: self.rows_added as int,
            past: Seq::new(
                self.history@.len(),
                |i: int|
                    (
                        self.history@[i].0.cells@,
                        self.history@[i].0.rows as int,
                        self.history@[i].1 as int,
                        self.history@[i].2 as int,
                        self.history@[i].3 as int,
                    ),
            ),
            over: self.game_over,
            won: self.game_won,
        }
    }
}

impl NumberMatchGame {
    /// Well-formed: rows fit the grid arithmetic, now and in every state
    /// kept for undo, and a won game is over.
    pub closed spec fn wf(&self) -> bool {
        &&& self.grid.rows * 9 <= usize::MAX
        &&& forall|i: int| 0 <= i < self.history@.len() ==> (#[trigger] self.history@[i]).0.rows * 9 <= usize::MAX
        &&& self.game_won ==> self.game_over
    }

    /// A game of `initial_rows` rows (3 when fewer than 2 are asked for)
    /// drawn from `rng`.
    pub fn with_rng(initial_rows: usize, rng: Rng) -> (g: Self)
        requires
            initial_rows * 9 <= usize::MAX,
        ensures
            g.wf(),
            ({
                let rows = if initial_rows < 2 {
                    3
                } else {
                    initial_rows as int
                };
                let (d, s) = draw_digits(rng.state, (rows * 9) as nat);
                &&& g@.cells == padded_cells(d)
                &&& g@.rng == s
                &&& g@.rows == rows
            }),
            g@.score == 0,
            g@.matches == 0,
            g@.rows_added == 0,
            g@.past.len() == 0,
            !g@.over,
            !g@.won,
    {
        let mut rng = rng;
        let rows = if initial_rows < 2 {
            3
        } else {
            initial_rows
        };
        let grid = Grid::generate(rows, &mut rng);
        let g = NumberMatchGame {
            grid,
            rng,
            score: 0,
            matches_made: 0,
            rows_added: 0,
            history: Vec::new(),
            game_over: false,
            game_won: false,
        };
        assert(g@.past =~= Seq::<(Seq<Cell>, int, int, int, int)>::empty());
        g
    }

    /// A game of `initial_rows` rows (3 when fewer than 2 are asked for)
    /// with a generator seeded from the system's random source.
    pub fn new(initial_rows: usize) -> (g: Self)
        requires
            initial_rows * 9 <= usize::MAX,
        ensures
            g.wf(),
            g@.rows == if initial_rows < 2 {
                3
            } else {
                initial_rows as int
            },
            g@.score == 0,
            g@.matches == 0,
            g@.rows_added == 0,
            g@.past.len() == 0,
            !g@.over,
            !g@.won,
    {
        Self::with_rng(initial_rows, Rng::from_entropy())
    }

    /// The cells as values: 0 for empty, the digit otherwise.
    pub fn grid_values(&self) -> (v: Vec<u8>)
        ensures
            v@ == flat_values(self@.cells),
    {
        self.grid.to_flat()
    }

    /// Number of columns: 9.
    pub fn cols(&self) -> (n: usize)
        ensures
            n == 9,
    {
        COLS
    }

    /// Number of rows.
    pub fn rows(&self) -> (n: usize)
        ensures
            n == self@.rows,
    {
        self.grid.rows
    }

    pub fn score(&self) -> (s: i32)
        ensures
            s == self@.score,
    {
        self.score
    }

    pub fn matches_made(&self) -> (n: u32)
        ensures
            n == self@.matches,
    {
        self.matches_made
    }

    pub fn rows_added(&self) -> (n: u32)
        ensures
            n == self@.rows_added,
    {
        self.rows_added
    }

    /// Number of cells holding digits.
    pub fn remaining(&self) -> (n: usize)
        ensures
            n == digits_upto(self@.cells, self@.cells.len() as int),
    {
        self.grid.remaining_count()
    }

    pub fn is_won(&self) -> (b: bool)
        ensures
            b == self@.won,
    {
        self.game_won
    }

    pub fn is_over(&self) -> (b: bool)
        ensures
            b == self@.over,
    {
        self.game_over
    }

    /// True iff cells `a` and `b` form a match.
    pub fn is_valid_match(&self, a: usize, b: usize) -> (m: bool)
        ensures
            m == valid_match(self@.cells, a as int, b as int),
    {
        self.grid.is_valid_match(a, b)
    }

    /// Matches cells `a` and `b` when the game is not over and they form a
    /// match, keeping the state before for undo. Returns whether it did.
    pub fn make_match(&mut self, a: usize, b: usize) -> (done: bool)
        requires
            old(self).wf(),
            old(self)@.score + 110 <= i32::MAX,
            old(self)@.matches < u32::MAX,
        ensures
            final(self).wf(),
            final(self)@ == match_view(old(self)@, a as int, b as int),
            done == (!old(self)@.over && valid_match(old(self)@.cells, a as int, b as int)),
    {
        if self.game_over {
            return false;
        }
        if !self.grid.is_valid_match(a, b) {
            return false;
        }
        let ghost v0 = self@;
        self.history.push((copy_grid(&self.grid), self.score, self.matches_made, self.rows_added));
        self.grid.set(a, Cell::Empty);
        self.grid.set(b, Cell::Empty);
        self.score += SCORE_MATCH;
        self.matches_made += 1;
        self.grid.trim_trailing_empty_rows();
        if self.grid.is_cleared() {
            self.score += SCORE_CLEAR_BONUS;
            self.game_won = true;
            self.game_over = true;
        }
        proof {
            lemma_trimmed_rows(v0.cells.update(a as int, Cell::Empty).update(b as int, Cell::Empty), v0.rows);
            assert(self@.past =~= v0.past.push(snapshot(v0)));
        }
        true
    }

    /// Adds a row of nine random digits, keeping the state before for
    /// undo, when the game is not over and has fewer than 50 rows; at 50
    /// rows the game ends instead. Returns whether a row was added.
    pub fn add_row(&mut self) -> (done: bool)
        requires
            old(self).wf(),
            old(self)@.score - 20 >= i32::MIN,
            old(self)@.rows_added < u32::MAX,
        ensures
            final(self).wf(),
            final(self)@ == add_row_view(old(self)@),
            done == (!old(self)@.over && old(self)@.rows < 50),
    {
        if self.game_over {
            return false;
        }
        if self.grid.rows >= MAX_ROWS {
            self.game_over = true;
            return false;
        }
        let ghost v0 = self@;
        self.history.push((copy_grid(&self.grid), self.score, self.matches_made, self.rows_added));
        self.grid.add_row(&mut self.rng);
        self.score += SCORE_ADD_ROW_PENALTY;
        self.rows_added += 1;
        proof {
            assert(self@.past =~= v0.past.push(snapshot(v0)));
        }
        true
    }

    /// Goes back to the state before the last match or added row, not over
    /// and not won. False when there is nothing to undo.
    pub fn undo(&mut self) -> (done: bool)
        requires
            old(self).wf(),
        ensures
            final(self).wf(),
            final(self)@ == undo_view(old(self)@),
            done == (old(self)@.past.len() > 0),
    {
        let ghost v0 = self@;
        match self.history.pop() {
            Some((grid, score, matches, rows)) => {
                self.grid = grid;
                self.score = score;
                self.matches_made = matches;
                self.rows_added = rows;
                self.game_over = false;
                self.game_won = false;
                proof {
                    assert(self@.past =~= v0.past.drop_last());
                }
                true
            },
            None => false,
        }
    }

    /// True iff some pair of cells forms a match.
    pub fn has_moves(&self) -> (m: bool)
        ensures
            m == some_match(self@.cells),
    {
        self.grid.has_valid_match()
    }

    /// The first matching pair, or None when no pair matches.
    pub fn hint(&self) -> (h: Option<(usize, usize)>)
        ensures
            h matches Some(p) ==> first_match(self@.cells, p.0 as int, p.1 as int),
            h is None <==> !some_match(self@.cells),
    {
        self.grid.find_hint()
    }

    /// How many actions can be undone.
    pub fn undo_count(&self) -> (n: usize)
        ensures
            n == self@.past.len(),
    {
        self.history.len()
    }

    /// The cell at `idx`; empty outside the grid.
    pub fn cell_at(&self, idx: usize) -> (c: Cell)
        ensures
            c == if idx < self@.cells.len() {
                self@.cells[idx as int]
            } else {
                Cell::Empty
            },
    {
        self.grid.get(idx)
    }

    /// The digit at `idx`, 0 for an empty cell or outside the grid.
    pub fn cell_value(&self, idx: usize) -> (v: u8)
        ensures
            v == if idx < self@.cells.len() {
                match self@.cells[idx as int] {
                    Cell::Digit(d) => d,
                    Cell::Empty => 0,
                }
            } else {
                0
            },
    {
        match self.grid.get(idx) {
            Cell::Digit(v) => v,
            Cell::Empty => 0,
        }
    }
}

/// Trimming never adds rows.
proof fn lemma_trimmed_rows(cells: Seq<Cell>, rows: int)
    ensures
        trimmed(cells, rows).1 <= rows || trimmed(cells, rows).1 == rows,
        rows >= 1 ==> 1 <= trimmed(cells, rows).1 <= rows,
    decreases rows,
{
    if rows > 1 && crate::number_match::grid::clear_between(cells, (rows - 1) * 9 - 1, cells.len() as int) {
        let start = (rows - 1) * 9;
        lemma_trimmed_rows(
            if start < cells.len() {
                cells.subrange(0, start)
            } else {
                cells
            },
            rows - 1,
        );
    }
}

/// Undo right after a match gives back the game as it was.
pub proof fn lemma_undo_after_match(v: NumberMatchView, a: int, b: int)
    requires
        !v.over,
        !v.won,
        valid_match(v.cells, a, b),
    ensures
        undo_view(match_view(v, a, b)) == v,
{
    assert(v.past.push(snapshot(v)).drop_last() =~= v.past);
}

/// Undo right after an added row gives back the game as it was, except
/// for the generator, which has moved on.
pub proof fn lemma_undo_after_add_row(v: NumberMatchView)
    requires
        !v.over,
        !v.won,
        v.rows < 50,
    ensures
        undo_view(add_row_view(v)) == (NumberMatchView { rng: add_row_view(v).rng, ..v }),
{
    assert(v.past.push(snapshot(v)).drop_last() =~= v.past);
}

} // verus!
