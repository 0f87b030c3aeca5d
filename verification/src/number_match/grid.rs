use vstd::prelude::*;
use crate::entropy::get_seed;
use crate::xorshift::{xorshift, xorshift_step};
use crate::text::digit_char;

verus! {

/// Number of columns of the grid.
pub const COLS: usize = 9;
/// Largest number of rows.
pub const MAX_ROWS: usize = 50;
/// Points for a match.
pub const SCORE_MATCH: i32 = 10;
/// Bonus for clearing the grid.
pub const SCORE_CLEAR_BONUS: i32 = 100;
/// Penalty for adding a row.
pub const SCORE_ADD_ROW_PENALTY: i32 = -20;

/// A cell is empty or holds a digit 1..=9.
#[derive(Clone, Copy, Debug, PartialEq, Eq, Structural)]
pub enum Cell {
    Empty,
    Digit(u8),
}

impl Cell {
    pub fn is_empty(self) -> (b: bool)
        ensures
            b == (self is Empty),
    {
        match self {
            Cell::Empty => true,
            Cell::Digit(_) => false,
        }
    }

    pub fn value(self) -> (v: Option<u8>)
        ensures
            v == match self {
                Cell::Digit(d) => Some(d),
                Cell::Empty => None::<u8>,
            },
    {
        match self {
            Cell::Digit(v) => Some(v),
            Cell::Empty => None,
        }
    }
}

/// The number grid: cells in row-major order, 9 per row.
#[derive(Clone, Debug)]
pub struct Grid {
    pub cells: Vec<Cell>,
    pub rows: usize,
}

/// Every cell strictly between flat indices `lo` and `hi` is empty.
pub open spec fn clear_between(cells: Seq<Cell>, lo: int, hi: int) -> bool {
    forall|i: int| lo < i < hi ==> #[trigger] cells[i] is Empty
}

/// Flat index of the cell `t` steps from `a` toward `b` along a diagonal.
pub open spec fn diag_cell(a: int, b: int, t: int) -> int {
    let ra = a / 9;
    let ca = a % 9;
    let rb = b / 9;
    let cb = b % 9;
    (if rb > ra { ra + t } else { ra - t }) * 9 + (if cb > ca { ca + t } else { ca - t })
}

/// The cells between `a` and `b` are all empty along the first line that
/// joins them: their row, their column, their diagonal, or else the
/// row-major reading order.
pub open spec fn path_clear_spec(cells: Seq<Cell>, a: int, b: int) -> bool {
    let ra = a / 9;
    let ca = a % 9;
    let rb = b / 9;
    let cb = b % 9;
    if ra == rb {
        forall|c: int| #![trigger cells[ra * 9 + c]] (if ca < cb { ca } else { cb }) < c < (if ca < cb { cb } else { ca })
            ==> cells[ra * 9 + c] is Empty
    } else if ca == cb {
        forall|r: int| #![trigger cells[r * 9 + ca]] (if ra < rb { ra } else { rb }) < r < (if ra < rb { rb } else { ra })
            ==> cells[r * 9 + ca] is Empty
    } else if (if ra < rb { rb - ra } else { ra - rb }) == (if ca < cb { cb - ca } else { ca - cb }) {
        forall|t: int|
            #![trigger diag_cell(a, b, t)]
            0 < t < (if ra < rb { rb - ra } else { ra - rb }) ==> cells[diag_cell(a, b, t)] is Empty
    } else {
        clear_between(cells, if a < b { a } else { b }, if a < b { b } else { a })
    }
}

/// Cells `a` and `b` form a match: two different cells in the grid, both
/// digits, equal or summing to 10, with a clear path between them.
pub open spec fn valid_match(cells: Seq<Cell>, a: int, b: int) -> bool {
    &&& a != b
    &&& 0 <= a < cells.len()
    &&& 0 <= b < cells.len()
    &&& cells[a] is Digit
    &&& cells[b] is Digit
    &&& (cells[a]->Digit_0 == cells[b]->Digit_0 || cells[a]->Digit_0 + cells[b]->Digit_0 == 10)
    &&& path_clear_spec(cells, a, b)
}

/// Some pair of cells forms a match.
pub open spec fn some_match(cells: Seq<Cell>) -> bool {
    exists|a: int, b: int| 0 <= a < b < cells.len() && valid_match(cells, a, b)
}

/// (a, b) with a < b is a match and no pair before it (in the order of the
/// first index, then the second) is.
pub open spec fn first_match(cells: Seq<Cell>, a: int, b: int) -> bool {
    &&& 0 <= a < b < cells.len()
    &&& valid_match(cells, a, b)
    &&& forall|a2: int, b2: int|
        0 <= a2 < b2 < cells.len() && (a2 < a || (a2 == a && b2 < b)) ==> !#[trigger] valid_match(cells, a2, b2)
}

/// Indices below `n` of the cells holding digits, in increasing order.
pub open spec fn filled_upto(cells: Seq<Cell>, n: int) -> Seq<usize>
    decreases n,
{
    if n <= 0 {
        Seq::empty()
    } else {
        let p = filled_upto(cells, n - 1);
        if cells[n - 1] is Digit {
            p.push((n - 1) as usize)
        } else {
            p
        }
    }
}

proof fn lemma_filled_upto(cells: Seq<Cell>, n: int)
    requires
        0 <= n <= cells.len(),
        cells.len() <= usize::MAX,
    ensures
        forall|k: int| 0 <= k < filled_upto(cells, n).len() ==> #[trigger] filled_upto(cells, n)[k] < n
            && cells[filled_upto(cells, n)[k] as int] is Digit,
        forall|i: int| 0 <= i < n && #[trigger] cells[i] is Digit ==> filled_upto(cells, n).contains(i as usize),
        forall|x: int, y: int|
            0 <= x < y < filled_upto(cells, n).len() ==> #[trigger] filled_upto(cells, n)[x]
                < #[trigger] filled_upto(cells, n)[y],
        filled_upto(cells, n).len() <= n,
    decreases n,
{
    if n > 0 {
        lemma_filled_upto(cells, n - 1);
        let p = filled_upto(cells, n - 1);
        let q = filled_upto(cells, n);
        assert forall|i: int| 0 <= i < n && #[trigger] cells[i] is Digit implies q.contains(i as usize) by {
            if i < n - 1 {
                let k = choose|k: int| 0 <= k < p.len() && p[k] == i as usize;
                assert(q[k] == i as usize);
            } else {
                assert(q[q.len() - 1] == i as usize);
            }
        }
    }
}

/// Number of cells holding digits among the first `n`.
pub open spec fn digits_upto(cells: Seq<Cell>, n: int) -> int
    decreases n,
{
    if n <= 0 {
        0
    } else {
        digits_upto(cells, n - 1) + if cells[n - 1] is Digit {
            1int
        } else {
            0int
        }
    }
}


/// `n` digits 1..=9 drawn one by one from generator state `st` (each is
/// the next xorshift value modulo 9, plus 1), with the final state.
pub open spec fn draw_digits(st: u64, n: nat) -> (Seq<u8>, u64)
    decreases n,
{
    if n == 0 {
        (Seq::empty(), st)
    } else {
        let (p, s) = draw_digits(st, (n - 1) as nat);
        let s2 = xorshift(s);
        (p.push(((s2 % 9) + 1) as u8), s2)
    }
}

/// The cells of a grid built from `d`: one digit cell per entry, then
/// empty cells up to a whole number of rows.
pub open spec fn padded_cells(d: Seq<u8>) -> Seq<Cell> {
    let n = if d.len() % 9 == 0 {
        d.len() as int
    } else {
        d.len() + 9 - d.len() % 9
    };
    Seq::new(n as nat, |i: int| if i < d.len() { Cell::Digit(d[i]) } else { Cell::Empty })
}

/// Grid cells and row count after dropping trailing rows that are wholly
/// empty, keeping at least one row.
pub open spec fn trimmed(cells: Seq<Cell>, rows: int) -> (Seq<Cell>, int)
    decreases rows,
{
    if rows > 1 && clear_between(cells, (rows - 1) * 9 - 1, cells.len() as int) {
        let start = (rows - 1) * 9;
        trimmed(
            if start < cells.len() {
                cells.subrange(0, start)
            } else {
                cells
            },
            rows - 1,
        )
    } else {
        (cells, rows)
    }
}

proof fn lemma_draw_len(st: u64, n: nat)
    ensures
        draw_digits(st, n).0.len() == n,
    decreases n,
{
    if n > 0 {
        lemma_draw_len(st, (n - 1) as nat);
    }
}

proof fn lemma_rc(a: int)
    requires
        0 <= a,
    ensures
        a == (a / 9) * 9 + a % 9,
        0 <= a % 9 < 9,
{
    assert(a == (a / 9) * 9 + a % 9) by (nonlinear_arith)
        requires
            0 <= a,
    ;
}

/// A digit standing strictly between two cells of one column, or of one
/// row, blocks them: the two cells do not form a match, whatever digits
/// they hold.
pub proof fn lemma_digit_between_blocks(cells: Seq<Cell>, a: int, b: int, m: int)
    requires
        0 <= a,
        0 <= b,
        a < m < b || b < m < a,
        (m % 9 == a % 9 && b % 9 == a % 9) || (m / 9 == a / 9 && b / 9 == a / 9),
        0 <= m < cells.len(),
        cells[m] is Digit,
    ensures
        !valid_match(cells, a, b),
{
    lemma_rc(a);
    lemma_rc(b);
    lemma_rc(m);
    let ra = a / 9;
    let ca = a % 9;
    let rb = b / 9;
    let cb = b % 9;
    let rm = m / 9;
    let cm = m % 9;
    if valid_match(cells, a, b) {
        if ra == rb {
            assert(rm == ra);
            assert((if ca < cb { ca } else { cb }) < cm < (if ca < cb { cb } else { ca }));
            assert(cells[ra * 9 + cm] is Empty);
        } else {
            assert(ca == cb && cm == ca);
            assert((if ra < rb { ra } else { rb }) < rm < (if ra < rb { rb } else { ra }));
            assert(cells[rm * 9 + ca] is Empty);
        }
    }
}

/// A digit on the diagonal strictly between two cells of one diagonal
/// blocks them: they do not form a match.
pub proof fn lemma_digit_on_diagonal_blocks(cells: Seq<Cell>, a: int, b: int, m: int)
    requires
        0 <= a,
        0 <= b,
        0 <= m < cells.len(),
        cells[m] is Digit,
        a / 9 != b / 9,
        a / 9 - b / 9 == a % 9 - b % 9 || a / 9 - b / 9 == b % 9 - a % 9,
        a / 9 < m / 9 < b / 9 || b / 9 < m / 9 < a / 9,
        m / 9 - a / 9 == m % 9 - a % 9 && b / 9 - m / 9 == b % 9 - m % 9 || m / 9 - a / 9 == a % 9 - m % 9 && b / 9
            - m / 9 == m % 9 - b % 9,
    ensures
        !valid_match(cells, a, b),
{
    lemma_rc(a);
    lemma_rc(b);
    lemma_rc(m);
    let ra = a / 9;
    let ca = a % 9;
    let rb = b / 9;
    let cb = b % 9;
    let rm = m / 9;
    let cm = m % 9;
    let t = if ra < rm { rm - ra } else { ra - rm };
    if valid_match(cells, a, b) {
        assert(ca != cb);
        assert(0 < t < (if ra < rb { rb - ra } else { ra - rb }));
        assert(diag_cell(a, b, t) == m);
        assert(cells[diag_cell(a, b, t)] is Empty);
    }
}

/// Two cells sharing no row, column or diagonal match only when every cell
/// between them in reading order is empty: a digit there blocks them.
pub proof fn lemma_digit_in_reading_order_blocks(cells: Seq<Cell>, a: int, b: int, m: int)
    requires
        0 <= a,
        0 <= b,
        a / 9 != b / 9,
        a % 9 != b % 9,
        a / 9 - b / 9 != a % 9 - b % 9,
        a / 9 - b / 9 != b % 9 - a % 9,
        a < m < b || b < m < a,
        0 <= m < cells.len(),
        cells[m] is Digit,
    ensures
        !valid_match(cells, a, b),
{
    if valid_match(cells, a, b) {
        assert(cells[m] is Empty);
    }
}

impl Grid {
    /// A grid holding the given digits in row-major order, the last row
    /// padded with empty cells.
    pub fn new(initial_digits: &[u8]) -> (g: Self)
        ensures
            g.cells@ == padded_cells(initial_digits@),
            g.rows * 9 == g.cells@.len(),
    {
        let mut cells: Vec<Cell> = Vec::new();
        let mut i: usize = 0;
        while i < initial_digits.len()
            invariant
                i <= initial_digits@.len(),
                cells@.len() == i,
                forall|j: int| 0 <= j < i ==> #[trigger] cells@[j] == Cell::Digit(initial_digits@[j]),
            decreases initial_digits@.len() - i,
        {
            cells.push(Cell::Digit(initial_digits[i]));
            i += 1;
        }
        let ghost n = initial_digits@.len();
        let ghost target = padded_cells(initial_digits@);
        while cells.len() % COLS != 0
            invariant
                n == initial_digits@.len(),
                target == padded_cells(initial_digits@),
                n <= cells@.len() <= target.len(),
                target.len() % 9 == 0,
                target.len() - n < 9,
                forall|j: int| 0 <= j < cells@.len() ==> #[trigger] cells@[j] == target[j],
            decreases target.len() - cells@.len(),
        {
            cells.push(Cell::Empty);
        }
        assert(cells@ =~= target);
        let rows = cells.len() / COLS;
        Grid { cells, rows }
    }

    /// A grid of `num_rows` rows of random digits 1..=9.
    pub fn generate(num_rows: usize, rng: &mut Rng) -> (g: Self)
        requires
            num_rows * 9 <= usize::MAX,
        ensures
            (g.cells@, final(rng).state) == ({
                let (d, s) = draw_digits(old(rng).state, (num_rows * 9) as nat);
                (padded_cells(d), s)
            }),
            g.rows == num_rows,
    {
        proof {
            lemma_draw_len(old(rng).state, (num_rows * 9) as nat);
        }
        let total = num_rows * COLS;
        let mut digits: Vec<u8> = Vec::with_capacity(total);
        let mut k: usize = 0;
        while k < total
            invariant
                k <= total,
                (digits@, rng.state) == draw_digits(old(rng).state, k as nat),
            decreases total - k,
        {
            digits.push((rng.range(9) as u8) + 1);
            k += 1;
        }
        Grid::new(digits.as_slice())
    }

    pub fn total_cells(&self) -> (n: usize)
        ensures
            n == self.cells@.len(),
    {
        self.cells.len()
    }

    /// The cell at `idx`, or an empty cell outside the grid.
    pub fn get(&self, idx: usize) -> (c: Cell)
        ensures
            c == if idx < self.cells@.len() {
                self.cells@[idx as int]
            } else {
                Cell::Empty
            },
    {
        if idx < self.cells.len() {
            self.cells[idx]
        } else {
            Cell::Empty
        }
    }

    /// Sets the cell at `idx`; no change outside the grid.
    pub fn set(&mut self, idx: usize, cell: Cell)
        ensures
            final(self).cells@ == if idx < old(self).cells@.len() {
                old(self).cells@.update(idx as int, cell)
            } else {
                old(self).cells@
            },
            final(self).rows == old(self).rows,
    {
        if idx < self.cells.len() {
            self.cells.set(idx, cell);
        }
    }

    /// (row, column) of a flat index.
    pub fn to_rc(&self, idx: usize) -> (rc: (usize, usize))
        ensures
            rc == (idx / 9, idx % 9),
    {
        (idx / COLS, idx % COLS)
    }

    /// Flat index of (row, column).
    pub fn to_idx(&self, row: usize, col: usize) -> (i: usize)
        requires
            row * 9 + col <= usize::MAX,
        ensures
            i == row * 9 + col,
    {
        row * COLS + col
    }

    /// True iff every cell is empty.
    pub fn is_cleared(&self) -> (b: bool)
        ensures
            b == forall|i: int| 0 <= i < self.cells@.len() ==> #[trigger] self.cells@[i] is Empty,
    {
        let mut i: usize = 0;
        while i < self.cells.len()
            invariant
                i <= self.cells@.len(),
                forall|j: int| 0 <= j < i ==> #[trigger] self.cells@[j] is Empty,
            decreases self.cells@.len() - i,
        {
            if !self.cells[i].is_empty() {
                return false;
            }
            i += 1;
        }
        true
    }

    /// Number of cells holding digits.
    pub fn remaining_count(&self) -> (n: usize)
        ensures
            n == digits_upto(self.cells@, self.cells@.len() as int),
    {
        let mut n: usize = 0;
        let mut i: usize = 0;
        while i < self.cells.len()
            invariant
                i <= self.cells@.len(),
                n == digits_upto(self.cells@, i as int),
                n <= i,
            decreases self.cells@.len() - i,
        {
            if !self.cells[i].is_empty() {
                n += 1;
            }
            i += 1;
        }
        n
    }

    /// True iff cells `a` and `b` form a match.
    pub fn is_valid_match(&self, a: usize, b: usize) -> (m: bool)
        ensures
            m == valid_match(self.cells@, a as int, b as int),
    {
        if a == b || a >= self.cells.len() || b >= self.cells.len() {
            return false;
        }
        let va = match self.cells[a].value() {
            Some(v) => v,
            None => return false,
        };
        let vb = match self.cells[b].value() {
            Some(v) => v,
            None => return false,
        };
        if va != vb && va as u16 + vb as u16 != 10 {
            return false;
        }
        self.path_clear(a, b)
    }

    /// True iff the cells between `a` and `b` along their row, column,
    /// diagonal, or else reading order, are all empty.
    fn path_clear(&self, a: usize, b: usize) -> (p: bool)
        requires
            a < self.cells@.len(),
            b < self.cells@.len(),
        ensures
            p == path_clear_spec(self.cells@, a as int, b as int),
    {
        let (ra, ca) = self.to_rc(a);
        let (rb, cb) = self.to_rc(b);
        proof {
            lemma_rc(a as int);
            lemma_rc(b as int);
        }
        if ra == rb {
            let (lo, hi) = if ca < cb {
                (ca, cb)
            } else {
                (cb, ca)
            };
            let mut c = lo + 1;
            while c < hi
                invariant
                    ra == a / 9,
                    ca == a % 9,
                    rb == b / 9,
                    cb == b % 9,
                    a == ra * 9 + ca,
                    b == rb * 9 + cb,
                    a < self.cells@.len(),
                    b < self.cells@.len(),
                    ra == rb,
                    lo == if ca < cb { ca } else { cb },
                    hi == if ca < cb { cb } else { ca },
                    lo < c <= hi || (c == lo + 1 && hi <= lo + 1),
                    hi < 9,
                    ra * 9 + hi < self.cells@.len(),
                    forall|c2: int| lo < c2 < c ==> #[trigger] self.cells@[ra * 9 + c2] is Empty,
                decreases hi - c,
            {
                if !self.cells[self.to_idx(ra, c)].is_empty() {
                    assert(!(self.cells@[ra * 9 + c] is Empty));
                    return false;
                }
                c += 1;
            }
            return true;
        }
        if ca == cb {
            let (lo, hi) = if ra < rb {
                (ra, rb)
            } else {
                (rb, ra)
            };
            let mut r = lo + 1;
            while r < hi
                invariant
                    ra == a / 9,
                    ca == a % 9,
                    rb == b / 9,
                    cb == b % 9,
                    a == ra * 9 + ca,
                    b == rb * 9 + cb,
                    a < self.cells@.len(),
                    b < self.cells@.len(),
                    ra != rb,
                    ca == cb,
                    lo == if ra < rb { ra } else { rb },
                    hi == if ra < rb { rb } else { ra },
                    lo < r <= hi || (r == lo + 1 && hi <= lo + 1),
                    ca < 9,
                    hi * 9 + ca < self.cells@.len(),
                    forall|r2: int| lo < r2 < r ==> #[trigger] self.cells@[r2 * 9 + ca] is Empty,
                decreases hi - r,
            {
                if !self.cells[self.to_idx(r, ca)].is_empty() {
                    assert(!(self.cells@[r * 9 + ca] is Empty));
                    return false;
                }
                r += 1;
            }
            return true;
        }
        let row_diff = if ra < rb {
            rb - ra
        } else {
            ra - rb
        };
        let col_diff = if ca < cb {
            cb - ca
        } else {
            ca - cb
        };
        if row_diff == col_diff {
            let mut t: usize = 1;
            while t < row_diff
                invariant
                    1 <= t <= row_diff || (t == 1 && row_diff <= 1),
                    ra == a / 9,
                    ca == a % 9,
                    rb == b / 9,
                    cb == b % 9,
                    row_diff == if ra < rb { rb - ra } else { ra - rb },
                    a == ra * 9 + ca,
                    b == rb * 9 + cb,
                    ra != rb,
                    ca != cb,
                    col_diff == row_diff,
                    col_diff == if ca < cb { cb - ca } else { ca - cb },
                    a < self.cells@.len(),
                    b < self.cells@.len(),
                    forall|t2: int| 0 < t2 < t ==> #[trigger] self.cells@[diag_cell(a as int, b as int, t2)] is Empty,
                decreases row_diff - t,
            {
                let r = if rb > ra {
                    ra + t
                } else {
                    ra - t
                };
                let c = if cb > ca {
                    ca + t
                } else {
                    ca - t
                };
                assert(r * 9 + c < self.cells@.len()) by {
                    if rb > ra {
                        assert(r < rb);
                        assert(r * 9 + c < rb * 9);
                    } else {
                        assert(r < ra);
                        assert(r * 9 + c < ra * 9);
                    }
                }
                if !self.cells[self.to_idx(r, c)].is_empty() {
                    assert(diag_cell(a as int, b as int, t as int) == r * 9 + c);
                    return false;
                }
                t += 1;
            }
            return true;
        }
        let (lo, hi) = if a < b {
            (a, b)
        } else {
            (b, a)
        };
        let mut i = lo + 1;
        while i < hi
            invariant
                ra == a / 9,
                ca == a % 9,
                rb == b / 9,
                cb == b % 9,
                a == ra * 9 + ca,
                b == rb * 9 + cb,
                a < self.cells@.len(),
                b < self.cells@.len(),
                ra != rb,
                ca != cb,
                (if ra < rb { rb - ra } else { ra - rb }) != (if ca < cb { cb - ca } else { ca - cb }),
                lo == if a < b { a } else { b },
                hi == if a < b { b } else { a },
                lo < i <= hi || (i == lo + 1 && hi <= lo + 1),
                hi < self.cells@.len(),
                forall|j: int| lo < j < i ==> #[trigger] self.cells@[j] is Empty,
            decreases hi - i,
        {
            if !self.cells[i].is_empty() {
                assert(!(self.cells@[i as int] is Empty));
                return false;
            }
            i += 1;
        }
        true
    }
}

/// Pseudo-random generator (xorshift64).
pub struct Rng {
    pub state: u64,
}

impl Rng {
    /// A generator seeded with `seed`; a zero seed becomes 1.
    pub fn new(seed: u64) -> (r: Self)
        ensures
            r.state == if seed == 0 {
                1
            } else {
                seed
            },
    {
        Rng { state: if seed == 0 { 1 } else { seed } }
    }

    /// A generator seeded from the system's random source.
    pub fn from_entropy() -> (r: Self)
        ensures
            r.state != 0,
    {
        Rng::new(get_seed())
    }

    /// Advances the state by one xorshift64 step and returns it.
    pub fn next(&mut self) -> (n: u64)
        ensures
            n == xorshift(old(self).state),
            final(self).state == n,
    {
        self.state = xorshift_step(self.state);
        self.state
    }

    /// The next value reduced modulo `max`.
    pub fn range(&mut self, max: usize) -> (v: usize)
        requires
            max > 0,
        ensures
            final(self).state == xorshift(old(self).state),
            v == final(self).state % (max as u64),
            v < max,
    {
        (self.next() % max as u64) as usize
    }
}


/// Digit cells for the given digits.
pub open spec fn digit_cells(d: Seq<u8>) -> Seq<Cell> {
    Seq::new(d.len(), |i: int| Cell::Digit(d[i]))
}

/// The grid cells as values: 0 for empty, the digit otherwise.
pub open spec fn flat_values(cells: Seq<Cell>) -> Seq<u8> {
    Seq::new(
        cells.len(),
        |i: int|
            match cells[i] {
                Cell::Digit(v) => v,
                Cell::Empty => 0u8,
            },
    )
}

impl Grid {
    /// Appends a row of nine random digits 1..=9.
    pub fn add_row(&mut self, rng: &mut Rng)
        requires
            old(self).rows < usize::MAX,
        ensures
            final(self).cells@ == old(self).cells@ + digit_cells(draw_digits(old(rng).state, 9).0),
            final(rng).state == draw_digits(old(rng).state, 9).1,
            final(self).rows == old(self).rows + 1,
    {
        let ghost c0 = self.cells@;
        let mut k: usize = 0;
        while k < COLS
            invariant
                k <= 9,
                self.rows == old(self).rows,
                c0 == old(self).cells@,
                self.cells@ == c0 + digit_cells(draw_digits(old(rng).state, k as nat).0),
                rng.state == draw_digits(old(rng).state, k as nat).1,
            decreases 9 - k,
        {
            let d = (rng.range(9) as u8) + 1;
            self.cells.push(Cell::Digit(d));
            proof {
                lemma_draw_len(old(rng).state, k as nat);
            }
            assert(self.cells@ =~= c0 + digit_cells(draw_digits(old(rng).state, k as nat + 1).0));
            k += 1;
        }
        self.rows += 1;
    }

    /// Drops trailing rows that hold only empty cells, keeping one row.
    pub fn trim_trailing_empty_rows(&mut self)
        requires
            old(self).rows <= 1 || (old(self).rows - 1) * 9 <= usize::MAX,
        ensures
            (final(self).cells@, final(self).rows as int) == trimmed(old(self).cells@, old(self).rows as int),
    {
        let mut done = false;
        while self.rows > 1 && !done
            invariant
                self.rows <= old(self).rows,
                old(self).rows <= 1 || (old(self).rows - 1) * 9 <= usize::MAX,
                trimmed(self.cells@, self.rows as int) == trimmed(old(self).cells@, old(self).rows as int),
                done ==> trimmed(self.cells@, self.rows as int) == (self.cells@, self.rows as int),
            decreases self.rows, if done { 0int } else { 1int },
        {
            let start = (self.rows - 1) * COLS;
            let mut all_empty = true;
            let mut i = start;
            while i < self.cells.len()
                invariant
                    start == (self.rows - 1) * 9,
                    self.rows > 1,
                    i == start || (start <= i <= self.cells@.len()),
                    all_empty == forall|j: int| start <= j < i ==> #[trigger] self.cells@[j] is Empty,
                decreases self.cells@.len() - i,
            {
                if !self.cells[i].is_empty() {
                    all_empty = false;
                }
                i += 1;
            }
            assert(all_empty == clear_between(self.cells@, (self.rows - 1) * 9 - 1, self.cells@.len() as int));
            if all_empty {
                let ghost before = self.cells@;
                self.cells.truncate(start);
                assert(self.cells@ =~= if start < before.len() {
                    before.subrange(0, start as int)
                } else {
                    before
                });
                self.rows -= 1;
            } else {
                done = true;
            }
        }
    }

    /// Indices of the cells holding digits, in increasing order.
    fn filled_indices(&self) -> (v: Vec<usize>)
        ensures
            v@ == filled_upto(self.cells@, self.cells@.len() as int),
    {
        let mut v: Vec<usize> = Vec::new();
        let mut i: usize = 0;
        while i < self.cells.len()
            invariant
                i <= self.cells@.len(),
                v@ == filled_upto(self.cells@, i as int),
            decreases self.cells@.len() - i,
        {
            if !self.cells[i].is_empty() {
                v.push(i);
            }
            i += 1;
        }
        v
    }

    /// True iff some pair of cells forms a match.
    pub fn has_valid_match(&self) -> (m: bool)
        ensures
            m == some_match(self.cells@),
    {
        match self.find_first() {
            Some(_) => true,
            None => false,
        }
    }

    /// The first matching pair (smallest first index, then smallest second
    /// index), or None when no pair matches.
    pub fn find_hint(&self) -> (h: Option<(usize, usize)>)
        ensures
            h matches Some(p) ==> first_match(self.cells@, p.0 as int, p.1 as int),
            h is None <==> !some_match(self.cells@),
    {
        self.find_first()
    }

    /// Scans the pairs of filled cells in order for the first match.
    fn find_first(&self) -> (h: Option<(usize, usize)>)
        ensures
            h matches Some(p) ==> first_match(self.cells@, p.0 as int, p.1 as int),
            h is None <==> !some_match(self.cells@),
    {
        let filled = self.filled_indices();
        let ghost cells = self.cells@;
        proof {
            assert(cells.len() == self.cells.len());
            lemma_filled_upto(cells, cells.len() as int);
        }
        let ghost f = filled@;
        let mut i: usize = 0;
        while i < filled.len()
            invariant
                f == filled@,
                cells == self.cells@,
                i <= f.len(),
                forall|k: int| 0 <= k < f.len() ==> #[trigger] f[k] < cells.len() && cells[f[k] as int] is Digit,
                forall|x: int, y: int| 0 <= x < y < f.len() ==> #[trigger] f[x] < #[trigger] f[y],
                forall|a: int| 0 <= a < cells.len() && #[trigger] cells[a] is Digit ==> f.contains(a as usize),
                cells.len() <= usize::MAX,
                forall|x: int, y: int|
                    0 <= x < i && x < y < f.len() ==> !#[trigger] valid_match(cells, f[x] as int, #[trigger] f[y] as int),
            decreases f.len() - i,
        {
            let mut j = i + 1;
            while j < filled.len()
                invariant
                    f == filled@,
                    cells == self.cells@,
                    i < f.len(),
                    i + 1 <= j <= f.len(),
                    forall|k: int| 0 <= k < f.len() ==> #[trigger] f[k] < cells.len() && cells[f[k] as int] is Digit,
                    forall|x: int, y: int| 0 <= x < y < f.len() ==> #[trigger] f[x] < #[trigger] f[y],
                    forall|a: int| 0 <= a < cells.len() && #[trigger] cells[a] is Digit ==> f.contains(a as usize),
                    cells.len() <= usize::MAX,
                forall|a: int| 0 <= a < cells.len() && #[trigger] cells[a] is Digit ==> f.contains(a as usize),
                cells.len() <= usize::MAX,
                    forall|x: int, y: int|
                        0 <= x < i && x < y < f.len() ==> !#[trigger] valid_match(cells, f[x] as int, #[trigger] f[y] as int),
                    forall|y: int| i < y < j ==> !#[trigger] valid_match(cells, f[i as int] as int, f[y] as int),
                decreases f.len() - j,
            {
                if self.is_valid_match(filled[i], filled[j]) {
                    proof {
                        let a = f[i as int] as int;
                        let b = f[j as int] as int;
                        assert forall|a2: int, b2: int|
                            0 <= a2 < b2 < cells.len() && (a2 < a || (a2 == a && b2 < b)) implies !#[trigger] valid_match(
                            cells,
                            a2,
                            b2,
                        ) by {
                            if valid_match(cells, a2, b2) {
                                assert(f.contains(a2 as usize));
                                assert(f.contains(b2 as usize));
                                let x = choose|x: int| 0 <= x < f.len() && f[x] == a2 as usize;
                                let y = choose|y: int| 0 <= y < f.len() && f[y] == b2 as usize;
                                if x >= y {
                                    if x > y {
                                        assert(f[y] < f[x]);
                                    }
                                }
                                if x > i {
                                    assert(f[i as int] < f[x]);
                                }
                                if x == i && y >= j {
                                    if y > j {
                                        assert(f[j as int] < f[y]);
                                    }
                                }
                            }
                        }
                    }
                    return Some((filled[i], filled[j]));
                }
                j += 1;
            }
            i += 1;
        }
        proof {
            assert forall|a: int, b: int| 0 <= a < b < cells.len() implies !#[trigger] valid_match(cells, a, b) by {
                if valid_match(cells, a, b) {
                    assert(f.contains(a as usize));
                    assert(f.contains(b as usize));
                    let x = choose|x: int| 0 <= x < f.len() && f[x] == a as usize;
                    let y = choose|y: int| 0 <= y < f.len() && f[y] == b as usize;
                    if x > y {
                        assert(f[y] < f[x]);
                    }
                }
            }
        }
        None
    }

    /// The cells as values: 0 for empty, the digit otherwise.
    pub fn to_flat(&self) -> (v: Vec<u8>)
        ensures
            v@ == flat_values(self.cells@),
    {
        let mut v: Vec<u8> = Vec::new();
        let mut i: usize = 0;
        while i < self.cells.len()
            invariant
                i <= self.cells@.len(),
                v@ == flat_values(self.cells@).subrange(0, i as int),
            decreases self.cells@.len() - i,
        {
            let x = match self.cells[i] {
                Cell::Digit(d) => d,
                Cell::Empty => 0,
            };
            v.push(x);
            assert(v@ =~= flat_values(self.cells@).subrange(0, i + 1));
            i += 1;
        }
        assert(v@ =~= flat_values(self.cells@));
        v
    }
}

/// Style class of a digit: "d1" to "d9", "d0" for anything else.
pub fn digit_class(v: u8) -> (s: &'static str)
    ensures
        s@ == if 1 <= v <= 9 {
            seq!['d', digit_char(v as nat)]
        } else {
            seq!['d', '0']
        },
{
    let s = match v {
        1 => "d1",
        2 => "d2",
        3 => "d3",
        4 => "d4",
        5 => "d5",
        6 => "d6",
        7 => "d7",
        8 => "d8",
        9 => "d9",
        _ => "d0",
    };
    proof {
        reveal_strlit("d1");
        reveal_strlit("d2");
        reveal_strlit("d3");
        reveal_strlit("d4");
        reveal_strlit("d5");
        reveal_strlit("d6");
        reveal_strlit("d7");
        reveal_strlit("d8");
        reveal_strlit("d9");
        reveal_strlit("d0");
    }
    assert(s@ =~= if 1 <= v <= 9 {
        seq!['d', digit_char(v as nat)]
    } else {
        seq!['d', '0']
    });
    s
}

} // verus!
