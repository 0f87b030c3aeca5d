use vstd::prelude::*;
use crate::entropy::get_seed;
use crate::xorshift::{xorshift, xorshift_step};

verus! {

/// Side length of the merge board.
pub const GRID_SIZE: usize = 8;
/// Number of cells of the merge board.
pub const TOTAL_CELLS: usize = 64;
/// Largest number of tiles the board holds.
pub const MAX_TILES: usize = 64;
/// Milliseconds between two spawned tiles.
pub const SPAWN_INTERVAL_MS: u32 = 3000;

/// A cell is empty or holds a tile value.
#[derive(Clone, Copy, Debug, PartialEq, Eq, Structural)]
pub enum Cell {
    Empty,
    Value(u32),
}

/// The merge game: cells in row-major order, score, merge count and
/// highest tile made.
#[derive(Clone, Debug)]
pub struct GameState {
    pub cells: Vec<Cell>,
    pub score: u64,
    pub merges: u32,
    pub highest: u32,
}

/// Indices below `n` of the empty cells, in increasing order.
pub open spec fn empties_upto(cells: Seq<Cell>, n: int) -> Seq<usize>
    decreases n,
{
    if n <= 0 {
        Seq::empty()
    } else {
        let p = empties_upto(cells, n - 1);
        if cells[n - 1] == Cell::Empty {
            p.push((n - 1) as usize)
        } else {
            p
        }
    }
}

/// Number of tiles among the first `n` cells.
pub open spec fn tiles_upto(cells: Seq<Cell>, n: int) -> int
    decreases n,
{
    if n <= 0 {
        0
    } else {
        tiles_upto(cells, n - 1) + if cells[n - 1] != Cell::Empty {
            1int
        } else {
            0int
        }
    }
}

/// Sum of the tile values among the first `n` cells.
pub open spec fn value_upto(cells: Seq<Cell>, n: int) -> int
    decreases n,
{
    if n <= 0 {
        0
    } else {
        value_upto(cells, n - 1) + match cells[n - 1] {
            Cell::Value(v) => v as int,
            Cell::Empty => 0,
        }
    }
}

/// Tiles at `a` and `b` can merge: two different cells holding equal values.
pub open spec fn mergeable(cells: Seq<Cell>, a: int, b: int) -> bool {
    a != b && cells[a] is Value && cells[a] == cells[b]
}

impl GameState {
    /// An empty board of 64 cells.
    pub fn new() -> (g: Self)
        ensures
            g.cells@.len() == 64,
            forall|i: int| 0 <= i < 64 ==> #[trigger] g.cells@[i] == Cell::Empty,
            g.score == 0,
            g.merges == 0,
            g.highest == 0,
    {
        let mut cells: Vec<Cell> = Vec::new();
        let mut i: usize = 0;
        while i < TOTAL_CELLS
            invariant
                i <= 64,
                cells@.len() == i,
                forall|j: int| 0 <= j < i ==> #[trigger] cells@[j] == Cell::Empty,
            decreases 64 - i,
        {
            cells.push(Cell::Empty);
            i += 1;
        }
        GameState { cells, score: 0, merges: 0, highest: 0 }
    }

    /// Indices of the empty cells, in increasing order.
    pub fn empty_indices(&self) -> (v: Vec<usize>)
        ensures
            v@ == empties_upto(self.cells@, self.cells@.len() as int),
    {
        let mut v: Vec<usize> = Vec::new();
        let mut i: usize = 0;
        while i < self.cells.len()
            invariant
                i <= self.cells@.len(),
                v@ == empties_upto(self.cells@, i as int),
            decreases self.cells@.len() - i,
        {
            if self.cells[i] == Cell::Empty {
                v.push(i);
            }
            i += 1;
        }
        v
    }

    /// Number of tiles on the board.
    pub fn tile_count(&self) -> (n: usize)
        ensures
            n == tiles_upto(self.cells@, self.cells@.len() as int),
    {
        let mut n: usize = 0;
        let mut i: usize = 0;
        while i < self.cells.len()
            invariant
                i <= self.cells@.len(),
                n == tiles_upto(self.cells@, i as int),
                n <= i,
            decreases self.cells@.len() - i,
        {
            if self.cells[i] != Cell::Empty {
                n += 1;
            }
            i += 1;
        }
        n
    }

    /// Puts a tile of value 1 on the empty cell chosen by `rng` among the
    /// empty cells; false (nothing changes) when no cell is empty.
    pub fn spawn_tile(&mut self, rng: &mut Rng) -> (spawned: bool)
        ensures
            spawned == (empties_upto(old(self).cells@, old(self).cells@.len() as int).len() > 0),
            spawned ==> {
                let e = empties_upto(old(self).cells@, old(self).cells@.len() as int);
                &&& final(rng).state == xorshift(old(rng).state)
                &&& final(self).cells@ == old(self).cells@.update(
                    e[(final(rng).state % (e.len() as u64)) as int] as int,
                    Cell::Value(1),
                )
            },
            !spawned ==> final(self).cells@ == old(self).cells@ && final(rng).state == old(rng).state,
            final(self).cells@.len() == old(self).cells@.len(),
            final(self).score == old(self).score,
            final(self).merges == old(self).merges,
            final(self).highest == old(self).highest,
    {
        let empty = self.empty_indices();
        if empty.len() == 0 {
            return false;
        }
        assert(self.cells@.len() == self.cells.len());
        proof {
            lemma_empties_upto(self.cells@, self.cells@.len() as int);
        }
        let k = rng.range(empty.len());
        let idx = empty[k];
        self.cells.set(idx, Cell::Value(1));
        true
    }

    /// True iff `a` and `b` are different cells holding equal values.
    pub fn can_merge(&self, a: usize, b: usize) -> (m: bool)
        requires
            a < self.cells@.len(),
            b < self.cells@.len(),
        ensures
            m == mergeable(self.cells@, a as int, b as int),
    {
        if a == b {
            return false;
        }
        match (self.cells[a], self.cells[b]) {
            (Cell::Value(va), Cell::Value(vb)) => va == vb,
            _ => false,
        }
    }

    /// Merges the tile at `a` into the tile at `b` when they hold equal
    /// values: `b` gets twice the value, `a` becomes empty, the score grows
    /// by the new value, the merge count by one, and `highest` is raised to
    /// the new value. Returns the new value, or None (no change).
    pub fn merge(&mut self, a: usize, b: usize) -> (res: Option<u32>)
        requires
            a < old(self).cells@.len(),
            b < old(self).cells@.len(),
            mergeable(old(self).cells@, a as int, b as int) ==> {
                let v = old(self).cells@[a as int]->Value_0;
                &&& 2 * v <= u32::MAX
                &&& old(self).score + 2 * v <= u64::MAX
                &&& old(self).merges < u32::MAX
            },
        ensures
            !mergeable(old(self).cells@, a as int, b as int) ==> res is None && *final(self) == *old(self),
            mergeable(old(self).cells@, a as int, b as int) ==> {
                let v = old(self).cells@[a as int]->Value_0;
                &&& res == Some((2 * v) as u32)
                &&& final(self).cells@ == old(self).cells@.update(b as int, Cell::Value((2 * v) as u32)).update(
                    a as int,
                    Cell::Empty,
                )
                &&& final(self).score == old(self).score + 2 * v
                &&& final(self).merges == old(self).merges + 1
                &&& final(self).highest == if 2 * v > old(self).highest {
                    (2 * v) as u32
                } else {
                    old(self).highest
                }
            },
    {
        if !self.can_merge(a, b) {
            return None;
        }
        if let Cell::Value(v) = self.cells[a] {
            let new_val = v * 2;
            self.cells.set(b, Cell::Value(new_val));
            self.cells.set(a, Cell::Empty);
            self.score += new_val as u64;
            self.merges += 1;
            if new_val > self.highest {
                self.highest = new_val;
            }
            Some(new_val)
        } else {
            None
        }
    }
}

proof fn lemma_empties_upto(cells: Seq<Cell>, n: int)
    requires
        0 <= n <= cells.len(),
        cells.len() <= usize::MAX,
    ensures
        forall|k: int| 0 <= k < empties_upto(cells, n).len() ==> #[trigger] empties_upto(cells, n)[k] < n
            && cells[empties_upto(cells, n)[k] as int] == Cell::Empty,
        empties_upto(cells, n).len() <= n,
    decreases n,
{
    if n > 0 {
        lemma_empties_upto(cells, n - 1);
    }
}

/// Changing one cell changes the tile count and value sum by the
/// difference at that cell.
proof fn lemma_totals_update(cells: Seq<Cell>, n: int, i: int, c: Cell)
    requires
        0 <= i < cells.len(),
        0 <= n <= cells.len(),
    ensures
        value_upto(cells.update(i, c), n) == value_upto(cells, n) + if i < n {
            value_upto(seq![c], 1) - value_upto(seq![cells[i]], 1)
        } else {
            0
        },
        tiles_upto(cells.update(i, c), n) == tiles_upto(cells, n) + if i < n {
            tiles_upto(seq![c], 1) - tiles_upto(seq![cells[i]], 1)
        } else {
            0
        },
    decreases n,
{
    reveal_with_fuel(value_upto, 2);
    reveal_with_fuel(tiles_upto, 2);
    if n > 0 {
        lemma_totals_update(cells, n - 1, i, c);
    }
}

/// A merge keeps the sum of the tile values and removes one tile.
pub proof fn lemma_merge_conserves(cells: Seq<Cell>, a: int, b: int)
    requires
        0 <= a < cells.len(),
        0 <= b < cells.len(),
        mergeable(cells, a, b),
        2 * cells[a]->Value_0 <= u32::MAX,
    ensures
        ({
            let v = cells[a]->Value_0;
            let after = cells.update(b, Cell::Value((2 * v) as u32)).update(a, Cell::Empty);
            &&& value_upto(after, cells.len() as int) == value_upto(cells, cells.len() as int)
            &&& tiles_upto(after, cells.len() as int) == tiles_upto(cells, cells.len() as int) - 1
        }),
{
    let v = cells[a]->Value_0;
    let mid = cells.update(b, Cell::Value((2 * v) as u32));
    let n = cells.len() as int;
    lemma_totals_update(cells, n, b, Cell::Value((2 * v) as u32));
    lemma_totals_update(mid, n, a, Cell::Empty);
    reveal_with_fuel(value_upto, 2);
    reveal_with_fuel(tiles_upto, 2);
}

/// Pseudo-random generator (xorshift64).
pub struct Rng {
    pub state: u64,
}

impl Rng {
    /// A generator seeded from the system's random source; a zero seed
    /// becomes 1.
    pub fn from_entropy() -> (r: Self)
        ensures
            r.state != 0,
    {
        let state = get_seed();
        Rng { state: if state == 0 { 1 } else { state } }
    }

    /// Advances the state by one xorshift64 step and returns it.
    pub fn next(&mut self) -> (n: u64)
        ensures
            n == xorshift(old(self).state),
            final(self).state == n,
    {
        self.state = xorshift_step(self.state);
        self.state
    }

    /// The next value reduced modulo `max`.
    pub fn range(&mut self, max: usize) -> (v: usize)
        requires
            max > 0,
        ensures
            final(self).state == xorshift(old(self).state),
            v == final(self).state % (max as u64),
            v < max,
    {
        (self.next() % max as u64) as usize
    }
}

} // verus!
