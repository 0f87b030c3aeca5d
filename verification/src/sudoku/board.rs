use vstd::prelude::*;

verus! {

/// Side length of a sudoku board.
pub const SIZE: usize = 9;
/// Side length of one box of a sudoku board.
pub const BOX_SIZE: usize = 3;

/// A 9x9 sudoku board; 0 marks an empty cell.
#[derive(Clone, Copy, Debug)]
pub struct Board {
    pub cells: [[u8; SIZE]; SIZE],
}

impl View for Board {
    type V = Seq<Seq<u8>>;

    open spec fn view(&self) -> Seq<Seq<u8>> {
        Seq::new(9, |r: int| self.cells@[r]@)
    }
}

/// The grid `g` with cell (r, c) set to `v`.
pub open spec fn set_cell(g: Seq<Seq<u8>>, r: int, c: int, v: u8) -> Seq<Seq<u8>> {
    g.update(r, g[r].update(c, v))
}

/// `g` is a 9x9 grid.
pub open spec fn well_shaped(g: Seq<Seq<u8>>) -> bool {
    g.len() == 9 && forall|r: int| 0 <= r < 9 ==> #[trigger] g[r].len() == 9
}

/// (r, c) and (r2, c2) lie in one row, one column or one 3x3 box.
pub open spec fn peers(r: int, c: int, r2: int, c2: int) -> bool {
    r == r2 || c == c2 || (r / 3 == r2 / 3 && c / 3 == c2 / 3)
}

/// `num` occurs nowhere in the row, the column and the box of (row, col).
pub open spec fn placement_ok(g: Seq<Seq<u8>>, row: int, col: int, num: u8) -> bool {
    forall|r: int, c: int|
        #![trigger g[r][c]]
        0 <= r < 9 && 0 <= c < 9 && peers(row, col, r, c) ==> g[r][c] != num
}

/// The digits 1..n-1 that may be placed at (row, col), in increasing order.
pub open spec fn cands_upto(g: Seq<Seq<u8>>, row: int, col: int, n: int) -> Seq<u8>
    decreases n,
{
    if n <= 1 {
        Seq::empty()
    } else {
        let p = cands_upto(g, row, col, n - 1);
        if placement_ok(g, row, col, (n - 1) as u8) {
            p.push((n - 1) as u8)
        } else {
            p
        }
    }
}

/// The candidates of cell (row, col): none for a filled cell, else every
/// digit 1..=9 that may be placed there, in increasing order.
pub open spec fn candidates_of(g: Seq<Seq<u8>>, row: int, col: int) -> Seq<u8> {
    if g[row][col] != 0 {
        Seq::empty()
    } else {
        cands_upto(g, row, col, 10)
    }
}

/// Every cell of `g` holds a non-zero value.
pub open spec fn complete(g: Seq<Seq<u8>>) -> bool {
    forall|r: int, c: int| #![trigger g[r][c]] 0 <= r < 9 && 0 <= c < 9 ==> g[r][c] != 0
}

/// Top-left corner of box `b` (boxes numbered 0..9 row-major).
pub open spec fn box_origin_of(b: int) -> (int, int) {
    ((b / 3) * 3, (b % 3) * 3)
}

/// Cell (r, c) lies in box `b`.
pub open spec fn in_box(b: int, r: int, c: int) -> bool {
    0 <= r < 9 && 0 <= c < 9 && r / 3 == b / 3 && c / 3 == b % 3
}

/// `d2` is `d1` with box `db` replaced by box `sb` of `s`, cell for cell.
pub open spec fn box_copied(s: Seq<Seq<u8>>, sb: int, d1: Seq<Seq<u8>>, db: int, d2: Seq<Seq<u8>>) -> bool {
    &&& well_shaped(d2)
    &&& forall|r: int, c: int|
        #![trigger d2[r][c]]
        0 <= r < 9 && 0 <= c < 9 ==> d2[r][c] == (if in_box(db, r, c) {
            s[box_origin_of(sb).0 + r % 3][box_origin_of(sb).1 + c % 3]
        } else {
            d1[r][c]
        })
}

/// Properties of the candidate list built for digits below `n`.
pub proof fn lemma_cands_upto(g: Seq<Seq<u8>>, row: int, col: int, n: int)
    requires
        1 <= n <= 10,
    ensures
        forall|i: int|
            0 <= i < cands_upto(g, row, col, n).len() ==> 1 <= #[trigger] cands_upto(
                g,
                row,
                col,
                n,
            )[i] < n && placement_ok(g, row, col, cands_upto(g, row, col, n)[i]),
        forall|i: int, j: int|
            0 <= i < j < cands_upto(g, row, col, n).len() ==> #[trigger] cands_upto(
                g,
                row,
                col,
                n,
            )[i] < #[trigger] cands_upto(g, row, col, n)[j],
        forall|v: u8| 1 <= v < n && placement_ok(g, row, col, v) ==> #[trigger] cands_upto(
            g,
            row,
            col,
            n,
        ).contains(v),
    decreases n,
{
    if n > 1 {
        lemma_cands_upto(g, row, col, n - 1);
        let p = cands_upto(g, row, col, n - 1);
        let s = cands_upto(g, row, col, n);
        assert forall|v: u8| 1 <= v < n && placement_ok(g, row, col, v) implies s.contains(v) by {
            if v < n - 1 {
                assert(p.contains(v));
                let k = choose|k: int| 0 <= k < p.len() && p[k] == v;
                assert(s[k] == v);
            } else {
                assert(s[s.len() - 1] == v);
            }
        }
    }
}

/// Distinct flat indices below `i` map to cells other than that of `i`.
proof fn lemma_div_mod_9_distinct(i: int)
    requires
        0 <= i,
    ensures
        forall|j: int| 0 <= j < i ==> #[trigger] (j / 9) != i / 9 || j % 9 != i % 9,
{
    assert forall|j: int| 0 <= j < i implies #[trigger] (j / 9) != i / 9 || j % 9 != i % 9 by {
        assert(j == 9 * (j / 9) + j % 9) by (nonlinear_arith);
        assert(i == 9 * (i / 9) + i % 9) by (nonlinear_arith);
    }
}

impl Board {
    /// Every board view is a 9x9 grid.
    pub proof fn lemma_shape(&self)
        ensures
            well_shaped(self@),
    {
        assert forall|r: int| 0 <= r < 9 implies #[trigger] self@[r].len() == 9 by {
            assert(self.cells@[r]@.len() == 9);
        }
    }

    pub fn new() -> (b: Self)
        ensures
            well_shaped(b@),
            forall|r: int, c: int| 0 <= r < 9 && 0 <= c < 9 ==> #[trigger] b@[r][c] == 0,
    {
        Board { cells: [[0;SIZE];SIZE] }
    }

    pub fn get(&self, row: usize, col: usize) -> (v: u8)
        requires
            row < 9,
            col < 9,
        ensures
            v == self@[row as int][col as int],
    {
        self.cells[row][col]
    }

    pub fn set(&mut self, row: usize, col: usize, val: u8)
        requires
            row < 9,
            col < 9,
        ensures
            final(self)@ == set_cell(old(self)@, row as int, col as int, val),
    {
        self.cells[row][col] = val;
        assert(self@ =~= set_cell(old(self)@, row as int, col as int, val));
    }

    pub fn is_empty(&self, row: usize, col: usize) -> (e: bool)
        requires
            row < 9,
            col < 9,
        ensures
            e == (self@[row as int][col as int] == 0),
    {
        self.cells[row][col] == 0
    }

    /// True iff `num` occurs nowhere in the row, column and box of (row, col).
    pub fn is_valid_placement(&self, row: usize, col: usize, num: u8) -> (ok: bool)
        requires
            row < 9,
            col < 9,
        ensures
            ok == placement_ok(self@, row as int, col as int, num),
    {
        let ghost g = self@;
        let mut c: usize = 0;
        while c < SIZE
            invariant
                c <= 9,
                row < 9,
                g == self@,
                forall|c2: int| 0 <= c2 < c ==> #[trigger] g[row as int][c2] != num,
            decreases 9 - c,
        {
            if self.cells[row][c] == num {
                assert(g[row as int][c as int] == num);
                assert(peers(row as int, col as int, row as int, c as int));
                return false;
            }
            c += 1;
        }
        let mut r: usize = 0;
        while r < SIZE
            invariant
                r <= 9,
                col < 9,
                g == self@,
                forall|r2: int| 0 <= r2 < r ==> #[trigger] g[r2][col as int] != num,
            decreases 9 - r,
        {
            if self.cells[r][col] == num {
                assert(g[r as int][col as int] == num);
                assert(peers(row as int, col as int, r as int, col as int));
                return false;
            }
            r += 1;
        }
        let box_row = (row / BOX_SIZE) * BOX_SIZE;
        let box_col = (col / BOX_SIZE) * BOX_SIZE;
        let mut r: usize = box_row;
        while r < box_row + BOX_SIZE
            invariant
                box_row == (row / 3) * 3,
                box_col == (col / 3) * 3,
                row < 9,
                col < 9,
                box_row <= r <= box_row + 3,
                g == self@,
                forall|r2: int, c2: int|
                    box_row <= r2 < r && box_col <= c2 < box_col + 3 ==> #[trigger] g[r2][c2]
                        != num,
            decreases box_row + 3 - r,
        {
            let mut c: usize = box_col;
            while c < box_col + BOX_SIZE
                invariant
                    box_row == (row / 3) * 3,
                    box_col == (col / 3) * 3,
                    row < 9,
                    col < 9,
                    box_row <= r < box_row + 3,
                    box_col <= c <= box_col + 3,
                    g == self@,
                    forall|r2: int, c2: int|
                        box_row <= r2 < r && box_col <= c2 < box_col + 3 ==> #[trigger] g[r2][c2]
                            != num,
                    forall|c2: int| box_col <= c2 < c ==> #[trigger] g[r as int][c2] != num,
                decreases box_col + 3 - c,
            {
                if self.cells[r][c] == num {
                    assert(g[r as int][c as int] == num);
                    assert(peers(row as int, col as int, r as int, c as int));
                    return false;
                }
                c += 1;
            }
            r += 1;
        }
        assert forall|r2: int, c2: int|
            0 <= r2 < 9 && 0 <= c2 < 9 && peers(row as int, col as int, r2, c2) implies g[r2][c2]
            != num by {
            if r2 != row && c2 != col {
                assert(box_row <= r2 < box_row + 3);
                assert(box_col <= c2 < box_col + 3);
            }
        }
        true
    }

    /// The digits that may go in (row, col); empty for a filled cell.
    pub fn candidates(&self, row: usize, col: usize) -> (v: Vec<u8>)
        requires
            row < 9,
            col < 9,
        ensures
            v@ == candidates_of(self@, row as int, col as int),
    {
        if !self.is_empty(row, col) {
            return Vec::new();
        }
        let mut result: Vec<u8> = Vec::new();
        let mut n: u8 = 1;
        while n <= 9
            invariant
                1 <= n <= 10,
                row < 9,
                col < 9,
                result@ == cands_upto(self@, row as int, col as int, n as int),
            decreases 10 - n,
        {
            if self.is_valid_placement(row, col, n) {
                result.push(n);
            }
            n += 1;
        }
        result
    }

    /// True iff no cell is empty.
    pub fn is_complete(&self) -> (b: bool)
        ensures
            b == complete(self@),
    {
        let mut r: usize = 0;
        while r < SIZE
            invariant
                r <= 9,
                forall|r2: int, c2: int|
                    0 <= r2 < r && 0 <= c2 < 9 ==> #[trigger] self@[r2][c2] != 0,
            decreases 9 - r,
        {
            let mut c: usize = 0;
            while c < SIZE
                invariant
                    r < 9,
                    c <= 9,
                    forall|r2: int, c2: int|
                        0 <= r2 < r && 0 <= c2 < 9 ==> #[trigger] self@[r2][c2] != 0,
                    forall|c2: int| 0 <= c2 < c ==> #[trigger] self@[r as int][c2] != 0,
                decreases 9 - c,
            {
                if self.cells[r][c] == 0 {
                    assert(self@[r as int][c as int] == 0);
                    return false;
                }
                c += 1;
            }
            r += 1;
        }
        true
    }

    /// The cells in row-major order.
    pub fn to_flat_array(&self) -> (v: Vec<u8>)
        ensures
            v@.len() == 81,
            forall|r: int, c: int|
                0 <= r < 9 && 0 <= c < 9 ==> #[trigger] v@[r * 9 + c] == self@[r][c],
    {
        let mut result: Vec<u8> = Vec::with_capacity(81);
        let mut r: usize = 0;
        while r < SIZE
            invariant
                r <= 9,
                result@.len() == r * 9,
                forall|r2: int, c2: int|
                    0 <= r2 < r && 0 <= c2 < 9 ==> #[trigger] result@[r2 * 9 + c2] == self@[r2][c2],
            decreases 9 - r,
        {
            let mut c: usize = 0;
            while c < SIZE
                invariant
                    r < 9,
                    c <= 9,
                    result@.len() == r * 9 + c,
                    forall|r2: int, c2: int|
                        0 <= r2 < r && 0 <= c2 < 9 ==> #[trigger] result@[r2 * 9 + c2]
                            == self@[r2][c2],
                    forall|c2: int|
                        0 <= c2 < c ==> #[trigger] result@[r * 9 + c2] == self@[r as int][c2],
                decreases 9 - c,
            {
                result.push(self.cells[r][c]);
                c += 1;
            }
            r += 1;
        }
        result
    }

    /// Builds a board from 81 values in row-major order; `None` for any
    /// other length.
    pub fn from_flat_array(data: &[u8]) -> (b: Option<Self>)
        ensures
            b is None <==> data@.len() != 81,
            b matches Some(bb) ==> well_shaped(bb@) && forall|r: int, c: int|
                0 <= r < 9 && 0 <= c < 9 ==> #[trigger] bb@[r][c] == data@[r * 9 + c],
    {
        if data.len() != 81 {
            return None;
        }
        let mut board = Board::new();
        let mut i: usize = 0;
        while i < data.len()
            invariant
                data@.len() == 81,
                i <= 81,
                forall|j: int| 0 <= j < i ==> #[trigger] board@[j / 9][j % 9] == data@[j],
            decreases 81 - i,
        {
            proof {
                lemma_div_mod_9_distinct(i as int);
            }
            board.set(i / SIZE, i % SIZE, data[i]);
            i += 1;
        }
        assert forall|r: int, c: int| 0 <= r < 9 && 0 <= c < 9 implies #[trigger] board@[r][c]
            == data@[r * 9 + c] by {
            let j = r * 9 + c;
            assert(j / 9 == r && j % 9 == c);
            assert(board@[j / 9][j % 9] == data@[j]);
        }
        Some(board)
    }

    /// Copies box `src_box` of this board onto box `dest_box` of `dest`.
    pub fn copy_box_to(&self, src_box: usize, dest: &mut Board, dest_box: usize)
        requires
            src_box < 9,
            dest_box < 9,
        ensures
            box_copied(self@, src_box as int, old(dest)@, dest_box as int, final(dest)@),
    {
        let (sr, sc) = box_origin(src_box);
        let (dr, dc) = box_origin(dest_box);
        let ghost d1 = dest@;
        proof {
            dest.lemma_shape();
            self.lemma_shape();
        }
        let mut r: usize = 0;
        while r < BOX_SIZE
            invariant
                r <= 3,
                sr == (src_box / 3) * 3,
                sc == (src_box % 3) * 3,
                dr == (dest_box / 3) * 3,
                dc == (dest_box % 3) * 3,
                src_box < 9,
                dest_box < 9,
                forall|r2: int, c2: int|
                    #![trigger dest@[r2][c2]]
                    0 <= r2 < 9 && 0 <= c2 < 9 ==> dest@[r2][c2] == (if in_box(dest_box as int, r2, c2)
                        && r2 < dr + r {
                        self@[sr + r2 % 3][sc + c2 % 3]
                    } else {
                        d1[r2][c2]
                    }),
            decreases 3 - r,
        {
            let mut c: usize = 0;
            while c < BOX_SIZE
                invariant
                    r < 3,
                    c <= 3,
                    sr == (src_box / 3) * 3,
                    sc == (src_box % 3) * 3,
                    dr == (dest_box / 3) * 3,
                    dc == (dest_box % 3) * 3,
                    src_box < 9,
                    dest_box < 9,
                    forall|r2: int, c2: int|
                        #![trigger dest@[r2][c2]]
                        0 <= r2 < 9 && 0 <= c2 < 9 ==> dest@[r2][c2] == (if in_box(
                            dest_box as int,
                            r2,
                            c2,
                        ) && (r2 < dr + r || (r2 == dr + r && c2 < dc + c)) {
                            self@[sr + r2 % 3][sc + c2 % 3]
                        } else {
                            d1[r2][c2]
                        }),
                decreases 3 - c,
            {
                assert((dr + r) / 3 == dest_box / 3 && (dr + r) % 3 == r);
                assert((dc + c) / 3 == dest_box % 3 && (dc + c) % 3 == c);
                let v = self.get(sr + r, sc + c);
                dest.set(dr + r, dc + c, v);
                proof {
                    dest.lemma_shape();
                }
                c += 1;
            }
            r += 1;
        }
    }

    /// Index (0..9, row-major) of the box that holds (row, col).
    pub fn box_index(row: usize, col: usize) -> (b: usize)
        requires
            (row / 3) * 3 + col / 3 <= usize::MAX,
        ensures
            b == (row / 3) * 3 + col / 3,
    {
        (row / BOX_SIZE) * 3 + (col / BOX_SIZE)
    }
}

/// Top-left corner (row, col) of box `box_idx`.
pub fn box_origin(box_idx: usize) -> (o: (usize, usize))
    ensures
        o.0 == (box_idx / 3) * 3,
        o.1 == (box_idx % 3) * 3,
{
    let br = box_idx / 3;
    let bc = box_idx % 3;
    (br * BOX_SIZE, bc * BOX_SIZE)
}

} // verus!
