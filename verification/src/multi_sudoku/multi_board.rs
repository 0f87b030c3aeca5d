use vstd::prelude::*;
use crate::sudoku::board::{Board, BOX_SIZE, set_cell, well_shaped, box_copied};
use crate::sudoku::solver::{verify, is_solution};

verus! {

/// Side of the unified grid: three 9x9 boards overlapping by one box.
pub const GRID_SIZE: usize = 21;
/// Number of boards.
pub const NUM_BOARDS: usize = 3;

/// Top-left corner of board `b` in the unified grid: (6b, 6b).
pub fn board_offset(b: usize) -> (o: (usize, usize))
    requires
        b < 3,
    ensures
        o.0 == 6 * b,
        o.1 == 6 * b,
{
    (6 * b, 6 * b)
}

/// Board `b` covers grid cell (gr, gc).
pub open spec fn owns(b: int, gr: int, gc: int) -> bool {
    0 <= b < 3 && 6 * b <= gr < 6 * b + 9 && 6 * b <= gc < 6 * b + 9
}

/// The boards that cover (gr, gc), in increasing order.
pub open spec fn owners(gr: int, gc: int) -> Seq<usize> {
    let s0 = if owns(0, gr, gc) {
        seq![0usize]
    } else {
        Seq::empty()
    };
    let s1 = if owns(1, gr, gc) {
        s0.push(1usize)
    } else {
        s0
    };
    if owns(2, gr, gc) {
        s1.push(2usize)
    } else {
        s1
    }
}

/// The three boards sharing a 21x21 grid: board b sits at (6b, 6b), so box 8
/// of board 0 is box 0 of board 1, and box 8 of board 1 is box 0 of board 2.
#[derive(Clone, Copy, Debug)]
pub struct MultiBoard {
    pub boards: [Board; NUM_BOARDS],
}

/// The value at grid cell (gr, gc): that of the first board covering it,
/// 0 outside every board.
pub open spec fn grid_value(m: MultiBoard, gr: int, gc: int) -> u8 {
    if owners(gr, gc).len() == 0 {
        0
    } else {
        let b = owners(gr, gc)[0] as int;
        m.boards@[b]@[gr - 6 * b][gc - 6 * b]
    }
}

/// Grid cell (gr, gc) lies on some board.
pub open spec fn active(gr: int, gc: int) -> bool {
    owners(gr, gc).len() > 0
}

/// Number of grid cells among the first `k` (row-major over the 21x21 grid)
/// that lie on a board and are empty.
pub open spec fn empties_upto(m: MultiBoard, k: int) -> nat
    decreases k,
{
    if k <= 0 {
        0
    } else {
        let gr = (k - 1) / 21;
        let gc = (k - 1) % 21;
        empties_upto(m, k - 1) + if active(gr, gc) && grid_value(m, gr, gc) == 0 {
            1nat
        } else {
            0nat
        }
    }
}

/// Number of grid cells among the first `k` that lie on a board, are
/// filled, and differ from `sol`.
pub open spec fn errors_upto(m: MultiBoard, sol: MultiBoard, k: int) -> nat
    decreases k,
{
    if k <= 0 {
        0
    } else {
        let gr = (k - 1) / 21;
        let gc = (k - 1) % 21;
        errors_upto(m, sol, k - 1) + if active(gr, gc) && grid_value(m, gr, gc) != 0 && grid_value(m, gr, gc)
            != grid_value(sol, gr, gc) {
            1nat
        } else {
            0nat
        }
    }
}

/// `n` is `m` with `val` written at grid cell (gr, gc) on every board
/// covering it.
pub open spec fn written(m: MultiBoard, n: MultiBoard, gr: int, gc: int, val: u8) -> bool {
    forall|b: int|
        0 <= b < 3 ==> #[trigger] n.boards@[b]@ == if owns(b, gr, gc) {
            set_cell(m.boards@[b]@, gr - 6 * b, gc - 6 * b, val)
        } else {
            m.boards@[b]@
        }
}

/// Reading gives back what was written: after writing `val` at a grid
/// cell that lies on a board, the cell reads `val`, every board covering
/// it holds `val` there, and every other cell reads as before.
pub proof fn lemma_read_after_write(m: MultiBoard, n: MultiBoard, gr: int, gc: int, val: u8)
    requires
        written(m, n, gr, gc, val),
    ensures
        active(gr, gc) ==> grid_value(n, gr, gc) == val,
        forall|b: int| 0 <= b < 3 && owns(b, gr, gc) ==> #[trigger] n.boards@[b]@[gr - 6 * b][gc - 6 * b] == val,
        forall|r: int, c: int| (r, c) != (gr, gc) ==> #[trigger] grid_value(n, r, c) == grid_value(m, r, c),
{
    m.boards@[0].lemma_shape();
    m.boards@[1].lemma_shape();
    m.boards@[2].lemma_shape();
    assert forall|r: int, c: int| (r, c) != (gr, gc) implies #[trigger] grid_value(n, r, c) == grid_value(m, r, c) by {
        if owners(r, c).len() > 0 {
            let b = owners(r, c)[0] as int;
            assert(owns(b, r, c));
        }
    }
}

/// Box 8 of board b holds the same values as box 0 of board b + 1.
pub open spec fn overlaps_agree(m: MultiBoard) -> bool {
    forall|b: int, r: int, c: int|
        0 <= b < 2 && 0 <= r < 3 && 0 <= c < 3 ==> #[trigger] m.boards@[b]@[6 + r][6 + c] == m.boards@[b + 1]@[r][c]
}

/// Steps left before a walk from (r, c) by (dr, dc) leaves rows or columns
/// 0..size (counted along the first non-zero direction).
pub open spec fn steps_left(r: int, c: int, dr: int, dc: int, size: int) -> nat {
    if dr > 0 {
        if r < size {
            (size - r) as nat
        } else {
            0
        }
    } else if dr < 0 {
        if r >= 0 {
            (r + 1) as nat
        } else {
            0
        }
    } else if dc > 0 {
        if c < size {
            (size - c) as nat
        } else {
            0
        }
    } else {
        if c >= 0 {
            (c + 1) as nat
        } else {
            0
        }
    }
}

/// Walking from (r, c) by steps of (dr, dc): the first cell on a board met
/// before leaving the grid.
pub open spec fn scan_active(r: int, c: int, dr: int, dc: int) -> Option<(int, int)>
    decreases steps_left(r, c, dr, dc, 21),
{
    if !(0 <= r < 21 && 0 <= c < 21) || (dr == 0 && dc == 0) {
        None
    } else if active(r, c) {
        Some((r, c))
    } else {
        scan_active(r + dr, c + dc, dr, dc)
    }
}

impl MultiBoard {
    /// The next cell on a board from (gr, gc) in direction (dr, dc), not
    /// counting (gr, gc); None when the walk leaves the grid first.
    pub fn next_active(gr: usize, gc: usize, dr: i32, dc: i32) -> (n: Option<(usize, usize)>)
        requires
            dr != 0 || dc != 0,
            gr <= i32::MAX,
            gc <= i32::MAX,
            i32::MIN <= gr + dr <= i32::MAX,
            i32::MIN <= gc + dc <= i32::MAX,
            i32::MIN + 21 <= dr <= i32::MAX - 21,
            i32::MIN + 21 <= dc <= i32::MAX - 21,
        ensures
            n == (match scan_active(gr + dr, gc + dc, dr as int, dc as int) {
                Some(p) => Some((p.0 as usize, p.1 as usize)),
                None => None::<(usize, usize)>,
            }),
    {
        let mut r: i32 = gr as i32 + dr;
        let mut c: i32 = gc as i32 + dc;
        while r >= 0 && r < GRID_SIZE as i32 && c >= 0 && c < GRID_SIZE as i32
            invariant
                dr != 0 || dc != 0,
                i32::MIN + 21 <= dr <= i32::MAX - 21,
                i32::MIN + 21 <= dc <= i32::MAX - 21,
                scan_active(r as int, c as int, dr as int, dc as int) == scan_active(gr + dr, gc + dc, dr as int, dc as int),
            decreases steps_left(r as int, c as int, dr as int, dc as int, 21),
        {
            if Self::is_active(r as usize, c as usize) {
                return Some((r as usize, c as usize));
            }
            r += dr;
            c += dc;
        }
        None
    }

    /// Three empty boards.
    pub fn new() -> (m: Self)
        ensures
            forall|b: int, r: int, c: int|
                0 <= b < 3 && 0 <= r < 9 && 0 <= c < 9 ==> #[trigger] m.boards@[b]@[r][c] == 0,
            forall|b: int| 0 <= b < 3 ==> well_shaped(#[trigger] m.boards@[b]@),
    {
        MultiBoard { boards: [Board::new(), Board::new(), Board::new()] }
    }

    /// True iff (gr, gc) lies on some board.
    pub fn is_active(gr: usize, gc: usize) -> (a: bool)
        ensures
            a == active(gr as int, gc as int),
    {
        Self::owning_boards(gr, gc).len() > 0
    }

    /// The boards covering (gr, gc), in increasing order.
    pub fn owning_boards(gr: usize, gc: usize) -> (v: Vec<usize>)
        ensures
            v@ == owners(gr as int, gc as int),
    {
        let mut owners_v: Vec<usize> = Vec::new();
        if Self::covers(0, gr, gc) {
            owners_v.push(0);
        }
        if Self::covers(1, gr, gc) {
            owners_v.push(1);
        }
        if Self::covers(2, gr, gc) {
            owners_v.push(2);
        }
        assert(owners_v@ =~= owners(gr as int, gc as int));
        owners_v
    }

    /// True iff board `b` covers (gr, gc).
    fn covers(b: usize, gr: usize, gc: usize) -> (c: bool)
        requires
            b < 3,
        ensures
            c == owns(b as int, gr as int, gc as int),
    {
        let (or, oc) = board_offset(b);
        gr >= or && gr < or + 9 && gc >= oc && gc < oc + 9
    }

    /// Board-local coordinates of grid cell (gr, gc) on board `board_idx`.
    pub fn grid_to_local(board_idx: usize, gr: usize, gc: usize) -> (l: (usize, usize))
        requires
            board_idx < 3,
            gr >= 6 * board_idx,
            gc >= 6 * board_idx,
        ensures
            l.0 == gr - 6 * board_idx,
            l.1 == gc - 6 * board_idx,
    {
        let (or, oc) = board_offset(board_idx);
        (gr - or, gc - oc)
    }

    /// The value at (gr, gc), read from the first board covering it; 0
    /// outside every board.
    pub fn get(&self, gr: usize, gc: usize) -> (v: u8)
        ensures
            v == grid_value(*self, gr as int, gc as int),
    {
        let owners_v = Self::owning_boards(gr, gc);
        if owners_v.len() == 0 {
            return 0;
        }
        let b = owners_v[0];
        let (lr, lc) = Self::grid_to_local(b, gr, gc);
        self.boards[b].get(lr, lc)
    }

    /// Writes `val` at (gr, gc) on every board covering it.
    pub fn set(&mut self, gr: usize, gc: usize, val: u8)
        ensures
            written(*old(self), *final(self), gr as int, gc as int, val),
    {
        let mut b: usize = 0;
        while b < NUM_BOARDS
            invariant
                b <= 3,
                forall|x: int|
                    0 <= x < 3 ==> #[trigger] self.boards@[x]@ == if owns(x, gr as int, gc as int) && x < b {
                        set_cell(old(self).boards@[x]@, gr - 6 * x, gc - 6 * x, val)
                    } else {
                        old(self).boards@[x]@
                    },
            decreases 3 - b,
        {
            if Self::covers(b, gr, gc) {
                let (lr, lc) = Self::grid_to_local(b, gr, gc);
                let mut bd = self.boards[b];
                bd.set(lr, lc, val);
                self.boards[b] = bd;
            }
            b += 1;
        }
    }

    /// True iff (gr, gc) is empty (0 outside every board).
    pub fn is_empty(&self, gr: usize, gc: usize) -> (e: bool)
        ensures
            e == (grid_value(*self, gr as int, gc as int) == 0),
    {
        self.get(gr, gc) == 0
    }

    /// True iff (gr, gc) lies on two boards.
    pub fn is_overlap(gr: usize, gc: usize) -> (o: bool)
        ensures
            o == (owners(gr as int, gc as int).len() > 1),
    {
        Self::owning_boards(gr, gc).len() > 1
    }

    /// Index of the box of board `board_idx` that holds grid cell (gr, gc).
    pub fn box_index_for_board(board_idx: usize, gr: usize, gc: usize) -> (b: usize)
        requires
            board_idx < 3,
            gr >= 6 * board_idx,
            gc >= 6 * board_idx,
            ((gr - 6 * board_idx) / 3) * 3 + (gc - 6 * board_idx) / 3 <= usize::MAX,
        ensures
            b == ((gr - 6 * board_idx) / 3) * 3 + (gc - 6 * board_idx) / 3,
    {
        let (lr, lc) = Self::grid_to_local(board_idx, gr, gc);
        (lr / BOX_SIZE) * 3 + (lc / BOX_SIZE)
    }

    /// True iff all three boards are solved.
    pub fn is_solved(&self) -> (s: bool)
        ensures
            s == forall|b: int| 0 <= b < 3 ==> is_solution(#[trigger] self.boards@[b]@),
    {
        let mut i: usize = 0;
        while i < NUM_BOARDS
            invariant
                i <= 3,
                forall|b: int| 0 <= b < i ==> is_solution(#[trigger] self.boards@[b]@),
            decreases 3 - i,
        {
            if !verify(&self.boards[i]) {
                return false;
            }
            i += 1;
        }
        true
    }

    /// Number of empty grid cells that lie on a board, each counted once.
    pub fn empty_count(&self) -> (n: usize)
        ensures
            n == empties_upto(*self, 441),
    {
        let mut count: usize = 0;
        let mut gr: usize = 0;
        while gr < GRID_SIZE
            invariant
                gr <= 21,
                count == empties_upto(*self, (gr * 21) as int),
                count <= gr * 21,
            decreases 21 - gr,
        {
            let mut gc: usize = 0;
            while gc < GRID_SIZE
                invariant
                    gr < 21,
                    gc <= 21,
                    count == empties_upto(*self, (gr * 21 + gc) as int),
                    count <= gr * 21 + gc,
                decreases 21 - gc,
            {
                assert((gr * 21 + gc) / 21 == gr && (gr * 21 + gc) % 21 == gc) by (nonlinear_arith)
                    requires
                        gc < 21,
                ;
                if Self::is_active(gr, gc) && self.is_empty(gr, gc) {
                    count += 1;
                }
                gc += 1;
            }
            gr += 1;
        }
        count
    }

    /// Number of filled grid cells that lie on a board and differ from
    /// `solution`, each counted once.
    pub fn error_count(&self, solution: &MultiBoard) -> (n: usize)
        ensures
            n == errors_upto(*self, *solution, 441),
    {
        let mut count: usize = 0;
        let mut gr: usize = 0;
        while gr < GRID_SIZE
            invariant
                gr <= 21,
                count == errors_upto(*self, *solution, (gr * 21) as int),
                count <= gr * 21,
            decreases 21 - gr,
        {
            let mut gc: usize = 0;
            while gc < GRID_SIZE
                invariant
                    gr < 21,
                    gc <= 21,
                    count == errors_upto(*self, *solution, (gr * 21 + gc) as int),
                    count <= gr * 21 + gc,
                decreases 21 - gc,
            {
                assert((gr * 21 + gc) / 21 == gr && (gr * 21 + gc) % 21 == gc) by (nonlinear_arith)
                    requires
                        gc < 21,
                ;
                if Self::is_active(gr, gc) {
                    let v = self.get(gr, gc);
                    if v != 0 && v != solution.get(gr, gc) {
                        count += 1;
                    }
                }
                gc += 1;
            }
            gr += 1;
        }
        count
    }

    /// Copies box 8 of board 0 onto box 0 of board 1, then box 8 of board 1
    /// onto box 0 of board 2.
    pub fn sync_overlaps(&mut self)
        ensures
            final(self).boards@[0]@ == old(self).boards@[0]@,
            box_copied(old(self).boards@[0]@, 8, old(self).boards@[1]@, 0, final(self).boards@[1]@),
            box_copied(final(self).boards@[1]@, 8, old(self).boards@[2]@, 0, final(self).boards@[2]@),
    {
        let b0 = self.boards[0];
        let mut b1 = self.boards[1];
        b0.copy_box_to(8, &mut b1, 0);
        self.boards[1] = b1;
        let mut b2 = self.boards[2];
        b1.copy_box_to(8, &mut b2, 0);
        self.boards[2] = b2;
    }
}

} // verus!
