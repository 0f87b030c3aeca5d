use vstd::prelude::*;
use crate::entropy::get_seed;
use crate::xorshift::{xorshift, xorshift_step};

verus! {

/// Side length of the sliding board.
pub const GRID_SIZE: usize = 4;
/// Number of cells of the sliding board.
pub const TOTAL_CELLS: usize = 16;

/// A cell is empty or holds a tile value.
#[derive(Clone, Copy, Debug, PartialEq, Eq, Structural)]
pub enum Cell {
    Empty,
    Value(u32),
}

impl Cell {
    pub fn is_empty(self) -> (b: bool)
        ensures
            b == (self is Empty),
    {
        match self {
            Cell::Empty => true,
            Cell::Value(_) => false,
        }
    }

    pub fn value(self) -> (v: Option<u32>)
        ensures
            v == match self {
                Cell::Value(x) => Some(x),
                Cell::Empty => None::<u32>,
            },
    {
        match self {
            Cell::Value(v) => Some(v),
            Cell::Empty => None,
        }
    }
}

/// Slide directions.
#[derive(Clone, Copy, Debug, PartialEq, Eq, Structural)]
pub enum Direction {
    Up,
    Down,
    Left,
    Right,
}

/// The sliding-tile board: 16 cells in row-major order, with the score,
/// the highest tile seen and the number of merges.
#[derive(Clone, Copy, Debug)]
pub struct Board {
    pub cells: [Cell; TOTAL_CELLS],
    pub score: u64,
    pub highest: u32,
    pub merges: u32,
}

/// Board index of position `i` (0 = the end tiles slide toward) of line `k`
/// for a slide in direction `d`.
pub open spec fn line_idx(d: Direction, k: int, i: int) -> int {
    match d {
        Direction::Left => k * 4 + i,
        Direction::Right => k * 4 + (3 - i),
        Direction::Up => i * 4 + k,
        Direction::Down => (3 - i) * 4 + k,
    }
}

/// Line `k` of the board for a slide in direction `d`, front first.
pub open spec fn line_of(cells: Seq<Cell>, d: Direction, k: int) -> Seq<Cell> {
    Seq::new(4, |i: int| cells[line_idx(d, k, i)])
}

/// The tile values of a line, in order, empties skipped.
pub open spec fn values_of(line: Seq<Cell>) -> Seq<u32>
    decreases line.len(),
{
    if line.len() == 0 {
        Seq::empty()
    } else {
        let p = values_of(line.drop_last());
        match line.last() {
            Cell::Value(x) => p.push(x),
            Cell::Empty => p,
        }
    }
}

/// Values from index `i` on after merging, left to right, each pair of
/// equal neighbours into one tile of twice the value.
pub open spec fn merged_from(v: Seq<u32>, i: int) -> Seq<u32>
    decreases v.len() - i,
{
    if i >= v.len() || i < 0 {
        Seq::empty()
    } else if i + 1 < v.len() && v[i] == v[i + 1] {
        seq![(2 * v[i]) as u32] + merged_from(v, i + 2)
    } else {
        seq![v[i]] + merged_from(v, i + 1)
    }
}

/// Score of the merges from index `i` on: the sum of the new tile values.
pub open spec fn score_from(v: Seq<u32>, i: int) -> int
    decreases v.len() - i,
{
    if i >= v.len() || i < 0 {
        0
    } else if i + 1 < v.len() && v[i] == v[i + 1] {
        2 * v[i] + score_from(v, i + 2)
    } else {
        score_from(v, i + 1)
    }
}

/// Number of merges from index `i` on.
pub open spec fn count_from(v: Seq<u32>, i: int) -> int
    decreases v.len() - i,
{
    if i >= v.len() || i < 0 {
        0
    } else if i + 1 < v.len() && v[i] == v[i + 1] {
        1 + count_from(v, i + 2)
    } else {
        count_from(v, i + 1)
    }
}

/// Every merge from index `i` on gives a value that fits in a `u32`.
pub open spec fn merges_fit(v: Seq<u32>, i: int) -> bool
    decreases v.len() - i,
{
    if i >= v.len() || i < 0 {
        true
    } else if i + 1 < v.len() && v[i] == v[i + 1] {
        2 * v[i] <= u32::MAX && merges_fit(v, i + 2)
    } else {
        merges_fit(v, i + 1)
    }
}

/// A line after sliding: the merged values at the front, then empties.
pub open spec fn slid_line(line: Seq<Cell>) -> Seq<Cell> {
    let m = merged_from(values_of(line), 0);
    Seq::new(4, |i: int| if i < m.len() { Cell::Value(m[i]) } else { Cell::Empty })
}

/// Score gained by sliding line `k`.
pub open spec fn line_score(cells: Seq<Cell>, d: Direction, k: int) -> int {
    score_from(values_of(line_of(cells, d, k)), 0)
}

/// Merges made by sliding line `k`.
pub open spec fn line_merges(cells: Seq<Cell>, d: Direction, k: int) -> int {
    count_from(values_of(line_of(cells, d, k)), 0)
}

/// Score gained by sliding lines 0..n.
pub open spec fn partial_score(cells: Seq<Cell>, d: Direction, n: int) -> int
    decreases n,
{
    if n <= 0 {
        0
    } else {
        partial_score(cells, d, n - 1) + line_score(cells, d, n - 1)
    }
}

/// Merges made by sliding lines 0..n.
pub open spec fn partial_merges(cells: Seq<Cell>, d: Direction, n: int) -> int
    decreases n,
{
    if n <= 0 {
        0
    } else {
        partial_merges(cells, d, n - 1) + line_merges(cells, d, n - 1)
    }
}

/// Score gained by a whole slide.
pub open spec fn slide_score(cells: Seq<Cell>, d: Direction) -> int {
    partial_score(cells, d, 4)
}

/// Merges made by a whole slide.
pub open spec fn slide_merges(cells: Seq<Cell>, d: Direction) -> int {
    partial_merges(cells, d, 4)
}

/// The counters and tile values of a slide in direction `d` fit their types
/// (the merged tiles in `u32`, the score in `u64`, the merge count in `u32`).
pub open spec fn slide_fits(b: Board, d: Direction) -> bool {
    &&& forall|k: int| 0 <= k < 4 ==> #[trigger] merges_fit(values_of(line_of(b.cells@, d, k)), 0)
    &&& b.score + slide_score(b.cells@, d) <= u64::MAX
    &&& b.merges + slide_merges(b.cells@, d) <= u32::MAX
}

/// The cells after a slide in direction `d`.
pub open spec fn slid_cells(cells: Seq<Cell>, d: Direction) -> Seq<Cell> {
    Seq::new(
        16,
        |j: int| slid_line(line_of(cells, d, line_pos(d, j).0))[line_pos(d, j).1],
    )
}

/// Line number and position within the line of board index `j` for
/// direction `d` (inverse of `line_idx`).
pub open spec fn line_pos(d: Direction, j: int) -> (int, int) {
    match d {
        Direction::Left => (j / 4, j % 4),
        Direction::Right => (j / 4, 3 - j % 4),
        Direction::Up => (j % 4, j / 4),
        Direction::Down => (j % 4, 3 - j / 4),
    }
}

/// `h` is the largest of `init` and the tile values of `cells`.
pub open spec fn is_highest(h: u32, init: u32, cells: Seq<Cell>) -> bool {
    &&& h >= init
    &&& forall|i: int| 0 <= i < cells.len() ==> (#[trigger] cells[i] matches Cell::Value(v) ==> v <= h)
    &&& (h == init || exists|i: int| 0 <= i < cells.len() && cells[i] == Cell::Value(h))
}

/// Number of empty cells among the first `n`.
pub open spec fn empties_upto(cells: Seq<Cell>, n: int) -> Seq<usize>
    decreases n,
{
    if n <= 0 {
        Seq::empty()
    } else {
        let p = empties_upto(cells, n - 1);
        if cells[n - 1] is Empty {
            p.push((n - 1) as usize)
        } else {
            p
        }
    }
}

/// Indices of the empty cells, in increasing order.
pub open spec fn empty_cells(cells: Seq<Cell>) -> Seq<usize> {
    empties_upto(cells, cells.len() as int)
}

/// Some move can change the board: a cell is empty, or two neighbours in a
/// row or a column hold the same value.
pub open spec fn movable(cells: Seq<Cell>) -> bool {
    ||| empty_cells(cells).len() > 0
    ||| exists|r: int, c: int|
        0 <= r < 4 && 0 <= c < 3 && #[trigger] cells[r * 4 + c] is Value && cells[r * 4 + c] == cells[r * 4 + c + 1]
    ||| exists|r: int, c: int|
        0 <= r < 3 && 0 <= c < 4 && #[trigger] cells[r * 4 + c] is Value && cells[r * 4 + c] == cells[(r + 1) * 4 + c]
}


proof fn lemma_values_len(line: Seq<Cell>)
    ensures
        values_of(line).len() <= line.len(),
    decreases line.len(),
{
    if line.len() > 0 {
        lemma_values_len(line.drop_last());
    }
}

proof fn lemma_merge_bounds(v: Seq<u32>, i: int)
    requires
        0 <= i,
    ensures
        merged_from(v, i).len() <= if i <= v.len() {
            v.len() - i
        } else {
            0
        },
        0 <= score_from(v, i) <= 2 * u32::MAX * (if i <= v.len() {
            v.len() - i
        } else {
            0
        }),
        0 <= count_from(v, i) <= (if i <= v.len() {
            v.len() - i
        } else {
            0
        }),
    decreases v.len() - i,
{
    if i < v.len() {
        lemma_merge_bounds(v, i + 1);
        if i + 1 < v.len() {
            lemma_merge_bounds(v, i + 2);
        }
    }
}

proof fn lemma_line_pos(d: Direction, k: int, i: int)
    requires
        0 <= k < 4,
        0 <= i < 4,
    ensures
        0 <= line_idx(d, k, i) < 16,
        line_pos(d, line_idx(d, k, i)) == (k, i),
{
}

proof fn lemma_partial_nonneg(cells: Seq<Cell>, d: Direction, n: int)
    requires
        0 <= n <= 4,
    ensures
        0 <= partial_score(cells, d, n) <= slide_score(cells, d),
        0 <= partial_merges(cells, d, n) <= slide_merges(cells, d),
    decreases 4 - n,
{
    assert forall|k: int| 0 <= k < 4 implies 0 <= #[trigger] line_score(cells, d, k) && 0 <= line_merges(cells, d, k) by {
        lemma_merge_bounds(values_of(line_of(cells, d, k)), 0);
    }
    reveal_with_fuel(partial_score, 5);
    reveal_with_fuel(partial_merges, 5);
}

impl Board {
    pub fn new() -> (b: Self)
        ensures
            forall|i: int| 0 <= i < 16 ==> #[trigger] b.cells@[i] == Cell::Empty,
            b.score == 0,
            b.highest == 0,
            b.merges == 0,
    {
        Board { cells: [Cell::Empty;TOTAL_CELLS], score: 0, highest: 0, merges: 0 }
    }

    /// (row, column) of a board index.
    pub fn to_rc(idx: usize) -> (rc: (usize, usize))
        ensures
            rc == (idx / 4, idx % 4),
    {
        (idx / GRID_SIZE, idx % GRID_SIZE)
    }

    /// Board index of (row, column).
    pub fn to_idx(row: usize, col: usize) -> (i: usize)
        requires
            row * 4 + col <= usize::MAX,
        ensures
            i == row * 4 + col,
    {
        row * GRID_SIZE + col
    }

    /// Number of empty cells.
    pub fn empty_count(&self) -> (n: usize)
        ensures
            n == empty_cells(self.cells@).len(),
    {
        self.empty_indices().len()
    }

    /// Indices of the empty cells, in increasing order.
    pub fn empty_indices(&self) -> (v: Vec<usize>)
        ensures
            v@ == empty_cells(self.cells@),
    {
        let mut v: Vec<usize> = Vec::new();
        let mut i: usize = 0;
        while i < TOTAL_CELLS
            invariant
                i <= 16,
                self.cells@.len() == 16,
                v@ == empties_upto(self.cells@, i as int),
            decreases 16 - i,
        {
            if self.cells[i].is_empty() {
                v.push(i);
            }
            i += 1;
        }
        v
    }

    /// Puts a tile of value `val` at `idx` and raises `highest` to it.
    pub fn place(&mut self, idx: usize, val: u32)
        requires
            idx < 16,
        ensures
            final(self).cells@ == old(self).cells@.update(idx as int, Cell::Value(val)),
            final(self).highest == if val > old(self).highest {
                val
            } else {
                old(self).highest
            },
            final(self).score == old(self).score,
            final(self).merges == old(self).merges,
    {
        self.cells[idx] = Cell::Value(val);
        if val > self.highest {
            self.highest = val;
        }
    }

    /// Slides and merges one line toward its index 0: returns the new line,
    /// the score gained and the number of merges.
    fn slide_line(line: &[Cell; GRID_SIZE]) -> (res: ([Cell; GRID_SIZE], u64, u32))
        requires
            merges_fit(values_of(line@), 0),
        ensures
            res.0@ == slid_line(line@),
            res.1 == score_from(values_of(line@), 0),
            res.2 == count_from(values_of(line@), 0),
    {
        let mut vals: Vec<u32> = Vec::new();
        let mut j: usize = 0;
        while j < GRID_SIZE
            invariant
                j <= 4,
                line@.len() == 4,
                vals@ == values_of(line@.subrange(0, j as int)),
            decreases 4 - j,
        {
            assert(line@.subrange(0, j + 1).drop_last() =~= line@.subrange(0, j as int));
            match line[j] {
                Cell::Value(x) => vals.push(x),
                Cell::Empty => {},
            }
            j += 1;
        }
        assert(line@.subrange(0, 4) =~= line@);
        let ghost v = vals@;
        proof {
            lemma_values_len(line@);
            lemma_merge_bounds(v, 0);
        }
        let mut score: u64 = 0;
        let mut merge_count: u32 = 0;
        let mut merged: Vec<u32> = Vec::new();
        let mut i: usize = 0;
        while i < vals.len()
            invariant
                v == vals@,
                v.len() <= 4,
                i <= v.len(),
                merged@ + merged_from(v, i as int) == merged_from(v, 0),
                score + score_from(v, i as int) == score_from(v, 0),
                merge_count + count_from(v, i as int) == count_from(v, 0),
                score_from(v, 0) <= 2 * u32::MAX * 4,
                count_from(v, 0) <= 4,
                merges_fit(v, i as int),
            decreases v.len() - i,
        {
            proof {
                lemma_merge_bounds(v, i as int + 1);
                if i + 1 < v.len() {
                    lemma_merge_bounds(v, i as int + 2);
                }
            }
            if i + 1 < vals.len() && vals[i] == vals[i + 1] {
                let new_val = vals[i] * 2;
                merged.push(new_val);
                score += new_val as u64;
                merge_count += 1;
                assert(merged@ + merged_from(v, i + 2) =~= merged_from(v, 0));
                i += 2;
            } else {
                merged.push(vals[i]);
                assert(merged@ + merged_from(v, i + 1) =~= merged_from(v, 0));
                i += 1;
            }
        }
        assert(merged@ =~= merged_from(v, 0));
        proof {
            lemma_merge_bounds(v, 0);
        }
        let mut result = [Cell::Empty;GRID_SIZE];
        let mut k: usize = 0;
        while k < merged.len()
            invariant
                merged@ == merged_from(v, 0),
                merged@.len() <= 4,
                k <= merged@.len(),
                result@.len() == 4,
                forall|t: int|
                    0 <= t < 4 ==> #[trigger] result@[t] == if t < k {
                        Cell::Value(merged@[t])
                    } else {
                        Cell::Empty
                    },
            decreases merged@.len() - k,
        {
            result[k] = Cell::Value(merged[k]);
            k += 1;
        }
        assert(result@ =~= slid_line(line@));
        (result, score, merge_count)
    }

    /// Board index of position `i` of line `k` for direction `dir`.
    fn line_index(dir: Direction, k: usize, i: usize) -> (j: usize)
        requires
            k < 4,
            i < 4,
        ensures
            j == line_idx(dir, k as int, i as int),
    {
        match dir {
            Direction::Left => k * GRID_SIZE + i,
            Direction::Right => k * GRID_SIZE + (GRID_SIZE - 1 - i),
            Direction::Up => i * GRID_SIZE + k,
            Direction::Down => (GRID_SIZE - 1 - i) * GRID_SIZE + k,
        }
    }

    /// Slides every line in direction `dir`, merging equal neighbours once
    /// each; adds the merged values to the score, counts the merges, raises
    /// `highest` to the largest tile. Returns true iff a cell changed.
    pub fn slide(&mut self, dir: Direction) -> (changed: bool)
        requires
            slide_fits(*old(self), dir),
        ensures
            final(self).cells@ == slid_cells(old(self).cells@, dir),
            final(self).score == old(self).score + slide_score(old(self).cells@, dir),
            final(self).merges == old(self).merges + slide_merges(old(self).cells@, dir),
            is_highest(final(self).highest, old(self).highest, final(self).cells@),
            changed == (final(self).cells@ != old(self).cells@),
    {
        let old_cells = self.cells;
        let ghost oc = old_cells@;
        let ghost target = slid_cells(oc, dir);
        proof {
            lemma_partial_nonneg(oc, dir, 0);
        }
        let mut k: usize = 0;
        while k < GRID_SIZE
            invariant
                k <= 4,
                oc == old(self).cells@,
                target == slid_cells(oc, dir),
                self.cells@.len() == 16,
                slide_fits(*old(self), dir),
                forall|j: int|
                    0 <= j < 16 ==> #[trigger] self.cells@[j] == if line_pos(dir, j).0 < k {
                        target[j]
                    } else {
                        oc[j]
                    },
                self.score == old(self).score + partial_score(oc, dir, k as int),
                self.merges == old(self).merges + partial_merges(oc, dir, k as int),
                self.highest == old(self).highest,
            decreases 4 - k,
        {
            let mut line = [Cell::Empty;GRID_SIZE];
            let mut i: usize = 0;
            while i < GRID_SIZE
                invariant
                    k < 4,
                    i <= 4,
                    line@.len() == 4,
                    self.cells@.len() == 16,
                    forall|j: int|
                        0 <= j < 16 ==> #[trigger] self.cells@[j] == if line_pos(dir, j).0 < k {
                            target[j]
                        } else {
                            oc[j]
                        },
                    forall|t: int| 0 <= t < i ==> #[trigger] line@[t] == oc[line_idx(dir, k as int, t)],
                decreases 4 - i,
            {
                proof {
                    lemma_line_pos(dir, k as int, i as int);
                }
                line[i] = self.cells[Self::line_index(dir, k, i)];
                i += 1;
            }
            assert(line@ =~= line_of(oc, dir, k as int));
            proof {
                lemma_partial_nonneg(oc, dir, k as int + 1);
            }
            let (new_line, score, merges) = Self::slide_line(&line);
            assert(score == line_score(oc, dir, k as int));
            assert(merges == line_merges(oc, dir, k as int));
            assert(partial_score(oc, dir, k as int + 1) == partial_score(oc, dir, k as int) + line_score(oc, dir, k as int));
            assert(partial_merges(oc, dir, k as int + 1) == partial_merges(oc, dir, k as int) + line_merges(oc, dir, k as int));
            self.score += score;
            self.merges += merges;
            let mut i: usize = 0;
            while i < GRID_SIZE
                invariant
                    k < 4,
                    i <= 4,
                    new_line@ == slid_line(line_of(oc, dir, k as int)),
                    target == slid_cells(oc, dir),
                    self.score == old(self).score + partial_score(oc, dir, k as int + 1),
                    self.merges == old(self).merges + partial_merges(oc, dir, k as int + 1),
                    self.highest == old(self).highest,
                    self.cells@.len() == 16,
                    forall|j: int|
                        0 <= j < 16 ==> #[trigger] self.cells@[j] == if line_pos(dir, j).0 < k || (
                        line_pos(dir, j).0 == k && line_pos(dir, j).1 < i) {
                            target[j]
                        } else {
                            oc[j]
                        },
                decreases 4 - i,
            {
                proof {
                    lemma_line_pos(dir, k as int, i as int);
                }
                let j = Self::line_index(dir, k, i);
                self.cells[j] = new_line[i];
                i += 1;
            }
            k += 1;
        }
        assert(self.cells@ =~= target);
        let ghost h0 = self.highest;
        assert(h0 == old(self).highest);
        let mut i: usize = 0;
        while i < TOTAL_CELLS
            invariant
                i <= 16,
                self.cells@ == target,
                target.len() == 16,
                self.score == old(self).score + slide_score(oc, dir),
                self.merges == old(self).merges + slide_merges(oc, dir),
                self.highest >= h0,
                forall|t: int|
                    0 <= t < i ==> (#[trigger] target[t] matches Cell::Value(v) ==> v <= self.highest),
                self.highest == h0 || exists|t: int| 0 <= t < i && target[t] == Cell::Value(self.highest),
            decreases 16 - i,
        {
            if let Cell::Value(v) = self.cells[i] {
                if v > self.highest {
                    self.highest = v;
                }
            }
            i += 1;
        }
        let mut changed = false;
        let mut i: usize = 0;
        while i < TOTAL_CELLS
            invariant
                i <= 16,
                self.cells@ == target,
                old_cells@ == oc,
                is_highest(self.highest, h0, target),
                self.score == old(self).score + slide_score(oc, dir),
                self.merges == old(self).merges + slide_merges(oc, dir),
                changed == exists|t: int| 0 <= t < i && target[t] != oc[t],
            decreases 16 - i,
        {
            if self.cells[i] != old_cells[i] {
                changed = true;
            }
            i += 1;
        }
        if !changed {
            assert(target =~= oc);
        }
        changed
    }
}


proof fn lemma_empties_upto(cells: Seq<Cell>, n: int)
    requires
        0 <= n <= cells.len(),
        cells.len() <= usize::MAX,
    ensures
        forall|k: int| 0 <= k < empties_upto(cells, n).len() ==> #[trigger] empties_upto(cells, n)[k] < n
            && cells[empties_upto(cells, n)[k] as int] is Empty,
        forall|i: int| 0 <= i < n && #[trigger] cells[i] is Empty ==> empties_upto(cells, n).contains(i as usize),
        forall|a: int, b: int|
            0 <= a < b < empties_upto(cells, n).len() ==> #[trigger] empties_upto(cells, n)[a]
                < #[trigger] empties_upto(cells, n)[b],
    decreases n,
{
    if n > 0 {
        lemma_empties_upto(cells, n - 1);
        let p = empties_upto(cells, n - 1);
        let q = empties_upto(cells, n);
        assert forall|i: int| 0 <= i < n && #[trigger] cells[i] is Empty implies q.contains(i as usize) by {
            if i < n - 1 {
                let k = choose|k: int| 0 <= k < p.len() && p[k] == i as usize;
                assert(q[k] == i as usize);
            } else {
                assert(q[q.len() - 1] == i as usize);
            }
        }
    }
}

impl Board {
    /// True iff some move can change the board: an empty cell exists, or
    /// two horizontal or vertical neighbours hold the same value.
    pub fn can_move(&self) -> (b: bool)
        ensures
            b == movable(self.cells@),
    {
        if self.empty_count() > 0 {
            return true;
        }
        let mut row: usize = 0;
        while row < GRID_SIZE
            invariant
                row <= 4,
                self.cells@.len() == 16,
                empty_cells(self.cells@).len() == 0,
                forall|r: int, c: int|
                    0 <= r < row && 0 <= c < 3 && #[trigger] self.cells@[r * 4 + c] is Value ==> self.cells@[r * 4 + c]
                        != self.cells@[r * 4 + c + 1],
                forall|r: int, c: int|
                    0 <= r < row && r < 3 && 0 <= c < 4 && #[trigger] self.cells@[r * 4 + c] is Value ==> self.cells@[r
                        * 4 + c] != self.cells@[(r + 1) * 4 + c],
            decreases 4 - row,
        {
            let mut col: usize = 0;
            while col < GRID_SIZE
                invariant
                    row < 4,
                    col <= 4,
                    self.cells@.len() == 16,
                    empty_cells(self.cells@).len() == 0,
                    forall|r: int, c: int|
                        0 <= r < row && 0 <= c < 3 && #[trigger] self.cells@[r * 4 + c] is Value ==> self.cells@[r * 4
                            + c] != self.cells@[r * 4 + c + 1],
                    forall|r: int, c: int|
                        0 <= r < row && r < 3 && 0 <= c < 4 && #[trigger] self.cells@[r * 4 + c] is Value
                            ==> self.cells@[r * 4 + c] != self.cells@[(r + 1) * 4 + c],
                    forall|c: int|
                        0 <= c < col && c < 3 && #[trigger] self.cells@[row * 4 + c] is Value ==> self.cells@[row * 4
                            + c] != self.cells@[row * 4 + c + 1],
                    forall|c: int|
                        0 <= c < col && row < 3 && #[trigger] self.cells@[row * 4 + c] is Value ==> self.cells@[row
                            * 4 + c] != self.cells@[(row + 1) * 4 + c],
                decreases 4 - col,
            {
                if let Cell::Value(v) = self.cells[Self::to_idx(row, col)] {
                    if col + 1 < GRID_SIZE {
                        if self.cells[Self::to_idx(row, col + 1)] == Cell::Value(v) {
                            assert(self.cells@[row * 4 + col] is Value);
                            return true;
                        }
                    }
                    if row + 1 < GRID_SIZE {
                        if self.cells[Self::to_idx(row + 1, col)] == Cell::Value(v) {
                            assert(self.cells@[row * 4 + col] is Value);
                            return true;
                        }
                    }
                }
                col += 1;
            }
            row += 1;
        }
        false
    }

    /// No move can change the board.
    pub fn is_game_over(&self) -> (b: bool)
        ensures
            b == !movable(self.cells@),
    {
        !self.can_move()
    }
}

/// Pseudo-random generator (xorshift64).
pub struct Rng {
    pub state: u64,
}

impl Rng {
    /// A generator seeded from the system's random source; a zero seed
    /// becomes 1.
    pub fn from_entropy() -> (r: Self)
        ensures
            r.state != 0,
    {
        let state = get_seed();
        Rng { state: if state == 0 { 1 } else { state } }
    }

    /// Advances the state by one xorshift64 step and returns it.
    pub fn next(&mut self) -> (n: u64)
        ensures
            n == xorshift(old(self).state),
            final(self).state == n,
    {
        self.state = xorshift_step(self.state);
        self.state
    }

    /// The next value reduced modulo `max`.
    pub fn range(&mut self, max: usize) -> (v: usize)
        requires
            max > 0,
        ensures
            final(self).state == xorshift(old(self).state),
            v == final(self).state % (max as u64),
            v < max,
    {
        (self.next() % max as u64) as usize
    }
}

/// The tile values of a line in order, when every cell holds a tile.
proof fn lemma_values_of_full(line: Seq<Cell>)
    requires
        forall|i: int| 0 <= i < line.len() ==> #[trigger] line[i] is Value,
    ensures
        values_of(line).len() == line.len(),
        forall|i: int| 0 <= i < line.len() ==> Cell::Value(#[trigger] values_of(line)[i]) == line[i],
    decreases line.len(),
{
    if line.len() > 0 {
        lemma_values_of_full(line.drop_last());
    }
}

/// Without equal neighbours nothing merges.
proof fn lemma_merge_none(v: Seq<u32>, i: int)
    requires
        0 <= i <= v.len(),
        forall|j: int| i <= j < v.len() - 1 ==> #[trigger] v[j] != v[j + 1],
    ensures
        merged_from(v, i) == v.subrange(i, v.len() as int),
        score_from(v, i) == 0,
        count_from(v, i) == 0,
    decreases v.len() - i,
{
    if i < v.len() {
        lemma_merge_none(v, i + 1);
        assert(merged_from(v, i) =~= v.subrange(i, v.len() as int));
    }
}

/// On a board where no move is possible, a slide in any direction changes
/// no cell, gains no score and makes no merge.
pub proof fn lemma_stuck_board_does_not_slide(cells: Seq<Cell>, d: Direction)
    requires
        cells.len() == 16,
        !movable(cells),
    ensures
        slid_cells(cells, d) == cells,
        slide_score(cells, d) == 0,
        slide_merges(cells, d) == 0,
{
    lemma_empties_upto(cells, 16);
    assert forall|i: int| 0 <= i < 16 implies #[trigger] cells[i] is Value by {
        if cells[i] is Empty {
            assert(empty_cells(cells).contains(i as usize));
        }
    }
    assert forall|k: int| 0 <= k < 4 implies slid_line(#[trigger] line_of(cells, d, k)) == line_of(cells, d, k)
        && line_score(cells, d, k) == 0 && line_merges(cells, d, k) == 0 by {
        let line = line_of(cells, d, k);
        assert forall|i: int| 0 <= i < 4 implies #[trigger] line[i] is Value by {
            lemma_line_pos(d, k, i);
        }
        lemma_values_of_full(line);
        let v = values_of(line);
        assert forall|j: int| 0 <= j < v.len() - 1 implies #[trigger] v[j] != v[j + 1] by {
            lemma_line_pos(d, k, j);
            lemma_line_pos(d, k, j + 1);
            assert(Cell::Value(v[j]) == line[j]);
            assert(Cell::Value(v[j + 1]) == line[j + 1]);
            match d {
                Direction::Left => {
                    assert(cells[k * 4 + j] is Value);
                },
                Direction::Right => {
                    let c = 2 - j;
                    assert(cells[k * 4 + c] is Value);
                    assert(cells[k * 4 + c] != cells[k * 4 + c + 1]);
                },
                Direction::Up => {
                    assert(cells[j * 4 + k] is Value);
                },
                Direction::Down => {
                    let r = 2 - j;
                    assert(cells[r * 4 + k] is Value);
                    assert(cells[r * 4 + k] != cells[(r + 1) * 4 + k]);
                },
            }
        }
        lemma_merge_none(v, 0);
        assert(v.subrange(0, v.len() as int) =~= v);
        assert(slid_line(line) =~= line);
    }
    assert forall|j: int| 0 <= j < 16 implies #[trigger] slid_cells(cells, d)[j] == cells[j] by {
        let (k, i) = line_pos(d, j);
        assert(0 <= k < 4 && 0 <= i < 4);
        assert(line_idx(d, k, i) == j);
        assert(slid_line(line_of(cells, d, k)) == line_of(cells, d, k));
    }
    assert(slid_cells(cells, d) =~= cells);
    reveal_with_fuel(partial_score, 5);
    reveal_with_fuel(partial_merges, 5);
}


/// Some pair of equal neighbours from index `i` on merges, so fewer values
/// come out than go in.
proof fn lemma_merge_shrinks(v: Seq<u32>, i: int, j: int)
    requires
        0 <= i <= j,
        j + 1 < v.len(),
        v[j] == v[j + 1],
    ensures
        merged_from(v, i).len() < v.len() - i,
    decreases v.len() - i,
{
    if i + 1 < v.len() && v[i] == v[i + 1] {
        lemma_merge_bounds(v, i + 2);
    } else {
        lemma_merge_shrinks(v, i + 1, j);
    }
}

/// A line that a slide leaves as it is holds its tiles at the front and,
/// when full, no two equal neighbours.
proof fn lemma_fixed_line(line: Seq<Cell>)
    requires
        line.len() == 4,
        slid_line(line) == line,
    ensures
        forall|i: int, j: int| 0 <= i < j < 4 && #[trigger] line[i] is Empty ==> #[trigger] line[j] is Empty,
        (forall|i: int| 0 <= i < 4 ==> #[trigger] line[i] is Value) ==> forall|j: int|
            0 <= j < 3 ==> #[trigger] line[j] != line[j + 1],
{
    let m = merged_from(values_of(line), 0);
    assert forall|i: int, j: int| 0 <= i < j < 4 && #[trigger] line[i] is Empty implies #[trigger] line[j] is Empty by {
        assert(slid_line(line)[i] == line[i]);
        assert(slid_line(line)[j] == line[j]);
    }
    if forall|i: int| 0 <= i < 4 ==> #[trigger] line[i] is Value {
        lemma_values_of_full(line);
        let v = values_of(line);
        assert forall|j: int| 0 <= j < 3 implies #[trigger] line[j] != line[j + 1] by {
            if line[j] == line[j + 1] {
                assert(Cell::Value(v[j]) == line[j]);
                assert(Cell::Value(v[j + 1]) == line[j + 1]);
                lemma_merge_shrinks(v, 0, j);
                assert(slid_line(line)[3] == line[3]);
            }
        }
    }
}

/// Line `k` of direction `d` is left as it is when the whole board is.
proof fn lemma_line_fixed(cells: Seq<Cell>, d: Direction, k: int)
    requires
        cells.len() == 16,
        0 <= k < 4,
        slid_cells(cells, d) == cells,
    ensures
        slid_line(line_of(cells, d, k)) == line_of(cells, d, k),
{
    assert forall|i: int| 0 <= i < 4 implies slid_line(line_of(cells, d, k))[i] == #[trigger] line_of(cells, d, k)[i] by {
        lemma_line_pos(d, k, i);
        assert(slid_cells(cells, d)[line_idx(d, k, i)] == cells[line_idx(d, k, i)]);
    }
    assert(slid_line(line_of(cells, d, k)) =~= line_of(cells, d, k));
}

/// When left and right slides leave the board as it is, a row with an
/// empty cell is empty.
proof fn lemma_fixed_rows(cells: Seq<Cell>)
    requires
        cells.len() == 16,
        slid_cells(cells, Direction::Left) == cells,
        slid_cells(cells, Direction::Right) == cells,
    ensures
        forall|r: int, c1: int, c: int|
            0 <= r < 4 && 0 <= c1 < 4 && 0 <= c < 4 && #[trigger] cells[r * 4 + c1] is Empty ==> #[trigger] cells[r * 4 + c] is Empty,
{
    assert forall|r: int, c1: int, c: int|
        0 <= r < 4 && 0 <= c1 < 4 && 0 <= c < 4 && #[trigger] cells[r * 4 + c1] is Empty implies #[trigger] cells[r * 4 + c] is Empty by {
        if c > c1 {
            lemma_line_fixed(cells, Direction::Left, r);
            let line = line_of(cells, Direction::Left, r);
            lemma_fixed_line(line);
            assert(line[c1] == cells[r * 4 + c1]);
            assert(line[c] == cells[r * 4 + c]);
        } else if c < c1 {
            lemma_line_fixed(cells, Direction::Right, r);
            let line = line_of(cells, Direction::Right, r);
            lemma_fixed_line(line);
            assert(line[3 - c1] == cells[r * 4 + c1]);
            assert(line[3 - c] == cells[r * 4 + c]);
        }
    }
}

/// When up and down slides leave the board as it is, a column with an
/// empty cell is empty.
proof fn lemma_fixed_cols(cells: Seq<Cell>)
    requires
        cells.len() == 16,
        slid_cells(cells, Direction::Up) == cells,
        slid_cells(cells, Direction::Down) == cells,
    ensures
        forall|c: int, r1: int, r: int|
            0 <= c < 4 && 0 <= r1 < 4 && 0 <= r < 4 && #[trigger] cells[r1 * 4 + c] is Empty ==> #[trigger] cells[r * 4 + c] is Empty,
{
    assert forall|c: int, r1: int, r: int|
        0 <= c < 4 && 0 <= r1 < 4 && 0 <= r < 4 && #[trigger] cells[r1 * 4 + c] is Empty implies #[trigger] cells[r * 4 + c] is Empty by {
        if r > r1 {
            lemma_line_fixed(cells, Direction::Up, c);
            let line = line_of(cells, Direction::Up, c);
            lemma_fixed_line(line);
            assert(line_idx(Direction::Up, c, r1) == r1 * 4 + c);
            assert(line_idx(Direction::Up, c, r) == r * 4 + c);
            assert(line[r1] == cells[r1 * 4 + c]);
            assert(line[r] == cells[r * 4 + c]);
        } else if r < r1 {
            lemma_line_fixed(cells, Direction::Down, c);
            let line = line_of(cells, Direction::Down, c);
            lemma_fixed_line(line);
            assert(line_idx(Direction::Down, c, 3 - r1) == r1 * 4 + c);
            assert(line_idx(Direction::Down, c, 3 - r) == r * 4 + c);
            assert(line[3 - r1] == cells[r1 * 4 + c]);
            assert(line[3 - r] == cells[r * 4 + c]);
        }
    }
}

/// On a full board that left and up slides leave as it is, no two
/// neighbours are equal.
proof fn lemma_fixed_full(cells: Seq<Cell>)
    requires
        cells.len() == 16,
        slid_cells(cells, Direction::Left) == cells,
        slid_cells(cells, Direction::Up) == cells,
        forall|i: int| 0 <= i < 16 ==> #[trigger] cells[i] is Value,
    ensures
        forall|r: int, c: int| 0 <= r < 4 && 0 <= c < 3 ==> #[trigger] cells[r * 4 + c] != cells[r * 4 + c + 1],
        forall|r: int, c: int| 0 <= r < 3 && 0 <= c < 4 ==> #[trigger] cells[r * 4 + c] != cells[(r + 1) * 4 + c],
{
    assert forall|r: int, c: int| 0 <= r < 4 && 0 <= c < 3 implies #[trigger] cells[r * 4 + c] != cells[r * 4 + c + 1] by {
        lemma_line_fixed(cells, Direction::Left, r);
        let line = line_of(cells, Direction::Left, r);
        assert forall|i: int| 0 <= i < 4 implies #[trigger] line[i] is Value by {
            assert(cells[r * 4 + i] is Value);
        }
        lemma_fixed_line(line);
        assert(line[c] == cells[r * 4 + c]);
        assert(line[c + 1] == cells[r * 4 + c + 1]);
    }
    assert forall|r: int, c: int| 0 <= r < 3 && 0 <= c < 4 implies #[trigger] cells[r * 4 + c] != cells[(r + 1) * 4 + c] by {
        lemma_line_fixed(cells, Direction::Up, c);
        let line = line_of(cells, Direction::Up, c);
        assert forall|i: int| 0 <= i < 4 implies #[trigger] line[i] is Value by {
            assert(cells[i * 4 + c] is Value);
        }
        lemma_fixed_line(line);
        assert(line[r] == cells[r * 4 + c]);
        assert(line[r + 1] == cells[(r + 1) * 4 + c]);
    }
}

/// On a board with a tile where some move is possible, a slide in some
/// direction changes the board.
pub proof fn lemma_movable_board_slides(cells: Seq<Cell>)
    requires
        cells.len() == 16,
        movable(cells),
        exists|i: int| 0 <= i < 16 && #[trigger] cells[i] is Value,
    ensures
        slid_cells(cells, Direction::Up) != cells || slid_cells(cells, Direction::Down) != cells
            || slid_cells(cells, Direction::Left) != cells || slid_cells(cells, Direction::Right) != cells,
{
    if slid_cells(cells, Direction::Up) == cells && slid_cells(cells, Direction::Down) == cells
        && slid_cells(cells, Direction::Left) == cells && slid_cells(cells, Direction::Right) == cells {
        lemma_fixed_rows(cells);
        lemma_fixed_cols(cells);
        lemma_empties_upto(cells, 16);
        let t = choose|i: int| 0 <= i < 16 && #[trigger] cells[i] is Value;
        let rt = t / 4;
        let ct = t % 4;
        assert(rt * 4 + ct == t);
        if empty_cells(cells).len() > 0 {
            let e = empty_cells(cells)[0] as int;
            let re = e / 4;
            let ce = e % 4;
            assert(re * 4 + ce == e);
            assert(cells[re * 4 + ce] is Empty);
            if cells[rt * 4 + ce] is Empty {
                assert(cells[rt * 4 + ct] is Empty);
            } else {
                assert(cells[rt * 4 + ce] is Empty);
            }
        } else {
            assert forall|i: int| 0 <= i < 16 implies #[trigger] cells[i] is Value by {
                if cells[i] is Empty {
                    assert(empty_cells(cells).contains(i as usize));
                }
            }
            lemma_fixed_full(cells);
        }
    }
}

/// Value of a tile (0 for an empty cell).
pub open spec fn tile_value(c: Cell) -> int {
    match c {
        Cell::Value(v) => v as int,
        Cell::Empty => 0,
    }
}

/// 1 for a tile, 0 for an empty cell.
pub open spec fn tile_one(c: Cell) -> int {
    match c {
        Cell::Value(_) => 1,
        Cell::Empty => 0,
    }
}

/// Sum of the tile values of the cells.
pub open spec fn total_value(s: Seq<Cell>) -> int
    decreases s.len(),
{
    if s.len() == 0 {
        0
    } else {
        total_value(s.drop_last()) + tile_value(s.last())
    }
}

/// Number of tiles among the cells.
pub open spec fn total_tiles(s: Seq<Cell>) -> int
    decreases s.len(),
{
    if s.len() == 0 {
        0
    } else {
        total_tiles(s.drop_last()) + tile_one(s.last())
    }
}

/// Sum of a sequence of values.
pub open spec fn vsum(v: Seq<u32>) -> int
    decreases v.len(),
{
    if v.len() == 0 {
        0
    } else {
        vsum(v.drop_last()) + v.last()
    }
}

proof fn lemma_vsum_concat(a: Seq<u32>, b: Seq<u32>)
    ensures
        vsum(a + b) == vsum(a) + vsum(b),
    decreases b.len(),
{
    if b.len() > 0 {
        assert((a + b).drop_last() =~= a + b.drop_last());
        lemma_vsum_concat(a, b.drop_last());
    }
}

proof fn lemma_values_totals(line: Seq<Cell>)
    ensures
        total_value(line) == vsum(values_of(line)),
        total_tiles(line) == values_of(line).len(),
    decreases line.len(),
{
    if line.len() > 0 {
        lemma_values_totals(line.drop_last());
        let p = values_of(line.drop_last());
        if let Cell::Value(x) = line.last() {
            assert(p.push(x).drop_last() =~= p);
        }
    }
}

proof fn lemma_merge_totals(v: Seq<u32>, i: int)
    requires
        0 <= i <= v.len(),
        merges_fit(v, i),
    ensures
        vsum(merged_from(v, i)) == vsum(v.subrange(i, v.len() as int)),
        merged_from(v, i).len() + count_from(v, i) == v.len() - i,
    decreases v.len() - i,
{
    reveal_with_fuel(vsum, 3);
    if i == v.len() {
        assert(v.subrange(i, v.len() as int) =~= Seq::<u32>::empty());
    }
    if i < v.len() {
        let n = v.len() as int;
        if i + 1 < n && v[i] == v[i + 1] {
            lemma_merge_totals(v, i + 2);
            lemma_vsum_concat(seq![(2 * v[i]) as u32], merged_from(v, i + 2));
            assert(v.subrange(i, n) =~= seq![v[i], v[i + 1]] + v.subrange(i + 2, n));
            lemma_vsum_concat(seq![v[i], v[i + 1]], v.subrange(i + 2, n));
            assert(seq![v[i], v[i + 1]].drop_last() =~= seq![v[i]]);
            assert(seq![v[i]].drop_last() =~= Seq::<u32>::empty());
            assert(seq![(2 * v[i]) as u32].drop_last() =~= Seq::<u32>::empty());
        } else {
            lemma_merge_totals(v, i + 1);
            lemma_vsum_concat(seq![v[i]], merged_from(v, i + 1));
            assert(v.subrange(i, n) =~= seq![v[i]] + v.subrange(i + 1, n));
            lemma_vsum_concat(seq![v[i]], v.subrange(i + 1, n));
            assert(seq![v[i]].drop_last() =~= Seq::<u32>::empty());
        }
    }
}

/// Totals of cells that hold the values `m` first and are empty after.
proof fn lemma_front_totals(l: Seq<Cell>, m: Seq<u32>)
    requires
        m.len() <= l.len(),
        forall|i: int| 0 <= i < l.len() ==> #[trigger] l[i] == if i < m.len() {
            Cell::Value(m[i])
        } else {
            Cell::Empty
        },
    ensures
        total_value(l) == vsum(m),
        total_tiles(l) == m.len(),
    decreases l.len(),
{
    if l.len() > 0 {
        if l.len() > m.len() {
            lemma_front_totals(l.drop_last(), m);
        } else {
            lemma_front_totals(l.drop_last(), m.drop_last());
        }
    }
}

/// Totals of a line after sliding.
proof fn lemma_slid_line_totals(line: Seq<Cell>)
    requires
        line.len() == 4,
        merges_fit(values_of(line), 0),
    ensures
        total_value(slid_line(line)) == total_value(line),
        total_tiles(slid_line(line)) == total_tiles(line) - count_from(values_of(line), 0),
{
    let v = values_of(line);
    lemma_values_totals(line);
    lemma_values_len(line);
    lemma_merge_totals(v, 0);
    assert(v.subrange(0, v.len() as int) =~= v);
    lemma_merge_bounds(v, 0);
    lemma_front_totals(slid_line(line), merged_from(v, 0));
}

/// Sum of the tile values of the first `n` cells, by index.
pub open spec fn value_upto(x: Seq<Cell>, n: int) -> int
    decreases n,
{
    if n <= 0 {
        0
    } else {
        value_upto(x, n - 1) + tile_value(x[n - 1])
    }
}

/// Number of tiles among the first `n` cells, by index.
pub open spec fn tiles_upto(x: Seq<Cell>, n: int) -> int
    decreases n,
{
    if n <= 0 {
        0
    } else {
        tiles_upto(x, n - 1) + tile_one(x[n - 1])
    }
}

proof fn lemma_upto_agree(x: Seq<Cell>, y: Seq<Cell>, n: int)
    requires
        0 <= n <= x.len(),
        n <= y.len(),
        forall|i: int| 0 <= i < n ==> #[trigger] x[i] == y[i],
    ensures
        value_upto(x, n) == value_upto(y, n),
        tiles_upto(x, n) == tiles_upto(y, n),
    decreases n,
{
    if n > 0 {
        lemma_upto_agree(x, y, n - 1);
    }
}

proof fn lemma_totals_by_index(x: Seq<Cell>)
    ensures
        total_value(x) == value_upto(x, x.len() as int),
        total_tiles(x) == tiles_upto(x, x.len() as int),
    decreases x.len(),
{
    if x.len() > 0 {
        lemma_totals_by_index(x.drop_last());
        lemma_upto_agree(x.drop_last(), x, x.len() - 1);
    }
}

proof fn lemma_upto_16(x: Seq<Cell>)
    ensures
        value_upto(x, 16) == tile_value(x[0]) + tile_value(x[1]) + tile_value(x[2]) + tile_value(x[3]) + tile_value(x[4]) + tile_value(x[5]) + tile_value(x[6]) + tile_value(x[7]) + tile_value(x[8]) + tile_value(x[9]) + tile_value(x[10]) + tile_value(x[11]) + tile_value(x[12]) + tile_value(x[13]) + tile_value(x[14]) + tile_value(x[15]),
        tiles_upto(x, 16) == tile_one(x[0]) + tile_one(x[1]) + tile_one(x[2]) + tile_one(x[3]) + tile_one(x[4]) + tile_one(x[5]) + tile_one(x[6]) + tile_one(x[7]) + tile_one(x[8]) + tile_one(x[9]) + tile_one(x[10]) + tile_one(x[11]) + tile_one(x[12]) + tile_one(x[13]) + tile_one(x[14]) + tile_one(x[15]),
{
    reveal_with_fuel(value_upto, 17);
    reveal_with_fuel(tiles_upto, 17);
}

proof fn lemma_line_4(x: Seq<Cell>, d: Direction, k: int)
    ensures
        value_upto(line_of(x, d, k), 4) == tile_value(x[line_idx(d, k, 0)]) + tile_value(x[line_idx(d, k, 1)])
            + tile_value(x[line_idx(d, k, 2)]) + tile_value(x[line_idx(d, k, 3)]),
        tiles_upto(line_of(x, d, k), 4) == tile_one(x[line_idx(d, k, 0)]) + tile_one(x[line_idx(d, k, 1)])
            + tile_one(x[line_idx(d, k, 2)]) + tile_one(x[line_idx(d, k, 3)]),
{
    reveal_with_fuel(value_upto, 5);
    reveal_with_fuel(tiles_upto, 5);
}

proof fn lemma_line_total(x: Seq<Cell>, d: Direction, k: int)
    ensures
        total_value(line_of(x, d, k)) == tile_value(x[line_idx(d, k, 0)]) + tile_value(x[line_idx(d, k, 1)])
            + tile_value(x[line_idx(d, k, 2)]) + tile_value(x[line_idx(d, k, 3)]),
        total_tiles(line_of(x, d, k)) == tile_one(x[line_idx(d, k, 0)]) + tile_one(x[line_idx(d, k, 1)])
            + tile_one(x[line_idx(d, k, 2)]) + tile_one(x[line_idx(d, k, 3)]),
{
    lemma_totals_by_index(line_of(x, d, k));
    lemma_line_4(x, d, k);
}

proof fn lemma_board_total(x: Seq<Cell>)
    requires
        x.len() == 16,
    ensures
        total_value(x) == value_upto(x, 16),
        total_tiles(x) == tiles_upto(x, 16),
{
    lemma_totals_by_index(x);
}

/// A 16-cell board totals the same as its four lines in any direction.
#[verifier::rlimit(40)]
proof fn lemma_board_by_lines(x: Seq<Cell>, d: Direction)
    requires
        x.len() == 16,
    ensures
        total_value(x) == total_value(line_of(x, d, 0)) + total_value(line_of(x, d, 1)) + total_value(
            line_of(x, d, 2),
        ) + total_value(line_of(x, d, 3)),
        total_tiles(x) == total_tiles(line_of(x, d, 0)) + total_tiles(line_of(x, d, 1)) + total_tiles(
            line_of(x, d, 2),
        ) + total_tiles(line_of(x, d, 3)),
{
    lemma_board_total(x);
    lemma_upto_16(x);
    lemma_line_total(x, d, 0);
    lemma_line_total(x, d, 1);
    lemma_line_total(x, d, 2);
    lemma_line_total(x, d, 3);
    match d {
        Direction::Left => {},
        Direction::Right => {},
        Direction::Up => {},
        Direction::Down => {},
    }
}

/// A slide keeps the sum of the tile values (two equal tiles become one
/// tile of their sum) and removes one tile per merge.
pub proof fn lemma_slide_conserves(b: Board, d: Direction)
    requires
        slide_fits(b, d),
    ensures
        total_value(slid_cells(b.cells@, d)) == total_value(b.cells@),
        total_tiles(slid_cells(b.cells@, d)) == total_tiles(b.cells@) - slide_merges(b.cells@, d),
{
    let x = b.cells@;
    let y = slid_cells(x, d);
    assert forall|k: int| 0 <= k < 4 implies #[trigger] line_of(y, d, k) == slid_line(line_of(x, d, k)) by {
        assert forall|i: int| 0 <= i < 4 implies line_of(y, d, k)[i] == slid_line(line_of(x, d, k))[i] by {
            lemma_line_pos(d, k, i);
        }
        assert(line_of(y, d, k) =~= slid_line(line_of(x, d, k)));
    }
    assert forall|k: int| 0 <= k < 4 implies total_value(#[trigger] slid_line(line_of(x, d, k)))
        == total_value(line_of(x, d, k)) && total_tiles(slid_line(line_of(x, d, k))) == total_tiles(
        line_of(x, d, k),
    ) - line_merges(x, d, k) by {
        assert(merges_fit(values_of(line_of(x, d, k)), 0));
        lemma_slid_line_totals(line_of(x, d, k));
    }
    lemma_board_by_lines(x, d);
    lemma_board_by_lines(y, d);
    assert(line_of(y, d, 0) == slid_line(line_of(x, d, 0)));
    assert(line_of(y, d, 1) == slid_line(line_of(x, d, 1)));
    assert(line_of(y, d, 2) == slid_line(line_of(x, d, 2)));
    assert(line_of(y, d, 3) == slid_line(line_of(x, d, 3)));
    reveal_with_fuel(partial_merges, 5);
}

} // verus!
