use vstd::prelude::*;
use crate::sudoku::board::{Board, set_cell, well_shaped};
use crate::sudoku::solver::{verify, is_solution};
use crate::generic_sudoku::config::{
    BoardPlacement, PuzzleConfig, OverlapInfo, covers, owners_upto, meta_owners, table_upto, owner_table,
    listed_owners, span_rows, span_cols, placements_fit, entry_ok, lemma_table_entries, lemma_owners_upto,
};

verus! {

/// A copy of a configuration.
pub fn copy_config(c: &PuzzleConfig) -> (d: PuzzleConfig)
    ensures
        d.name@ == c.name@,
        d.boards@ == c.boards@,
{
    let mut boards: Vec<BoardPlacement> = Vec::new();
    let mut i: usize = 0;
    while i < c.boards.len()
        invariant
            i <= c.boards@.len(),
            boards@ == c.boards@.subrange(0, i as int),
        decreases c.boards@.len() - i,
    {
        boards.push(c.boards[i]);
        assert(boards@ =~= c.boards@.subrange(0, i + 1));
        i += 1;
    }
    assert(boards@ =~= c.boards@);
    PuzzleConfig { name: c.name.clone(), boards }
}

/// What `listed_owners` gives is empty or the list of an entry for that
/// meta-cell.
pub(crate) proof fn lemma_listed(t: Seq<((usize, usize), Seq<usize>)>, mr: int, mc: int)
    ensures
        listed_owners(t, mr, mc).len() > 0 ==> exists|i: int|
            0 <= i < t.len() && (#[trigger] t[i]).0.0 == mr && t[i].0.1 == mc && t[i].1 == listed_owners(t, mr, mc),
    decreases t.len(),
{
    if t.len() > 0 && !(t[0].0.0 == mr && t[0].0.1 == mc) {
        lemma_listed(t.drop_first(), mr, mc);
        if listed_owners(t, mr, mc).len() > 0 {
            let i = choose|i: int|
                0 <= i < t.drop_first().len() && (#[trigger] t.drop_first()[i]).0.0 == mr && t.drop_first()[i].0.1
                    == mc && t.drop_first()[i].1 == listed_owners(t.drop_first(), mr, mc);
            assert(t[i + 1] == t.drop_first()[i]);
        }
    } else if t.len() > 0 {
        assert(t[0].0.0 == mr);
    }
}

/// Any board in a well-formed owner table's list for the meta-cell of
/// (gr, gc) covers it.
pub(crate) proof fn lemma_owners_valid(b: Seq<BoardPlacement>, gr: int, gc: int)
    requires
        gr >= 0,
        gc >= 0,
        b.len() <= usize::MAX,
        placements_fit(b),
    ensures
        ({
            let o = listed_owners(owner_table(b), gr as int / 3, gc as int / 3);
            &&& forall|j: int| 0 <= j < o.len() ==> (#[trigger] o[j]) < b.len() && covers(b[o[j] as int], gr as int / 3, gc as int / 3)
            &&& forall|i: int, j: int| 0 <= i < j < o.len() ==> #[trigger] o[i] < #[trigger] o[j]
        }),
{
    let t = owner_table(b);
    lemma_listed(t, gr as int / 3, gc as int / 3);
    if span_cols(b) > 0 {
        lemma_table_entries(b, span_cols(b), span_rows(b) * span_cols(b));
    } else {
        assert(t.len() == 0) by {
            lemma_table_empty(b, span_cols(b), span_rows(b) * span_cols(b));
        }
    }
    if listed_owners(t, gr as int / 3, gc as int / 3).len() > 0 {
        let i = choose|i: int|
            0 <= i < t.len() && (#[trigger] t[i]).0.0 == gr as int / 3 && t[i].0.1 == gc as int / 3 && t[i].1 == listed_owners(
                t,
                gr as int / 3,
                gc as int / 3,
            );
        assert(entry_ok(b, t[i]));
    }
}

/// With no columns the table is empty.
proof fn lemma_table_empty(b: Seq<BoardPlacement>, cols: int, k: int)
    requires
        cols <= 0,
    ensures
        table_upto(b, cols, k).len() == 0 || k > 0,
{
}

/// `n` is `m` with `val` written at grid cell (gr, gc) on every board
/// covering it.
pub open spec fn written(m: GenericMultiBoard, n: GenericMultiBoard, gr: int, gc: int, val: u8) -> bool {
    &&& n.config == m.config
    &&& n.overlap_info == m.overlap_info
    &&& n.boards@.len() == m.boards@.len()
    &&& forall|x: int|
        0 <= x < m.boards@.len() ==> #[trigger] n.boards@[x]@ == if listed_owners(
            m.overlap_info.table(),
            gr / 3,
            gc / 3,
        ).contains(x as usize) {
            set_cell(m.boards@[x]@, gr - 3 * m.config.boards@[x].meta_row, gc - 3 * m.config.boards@[x].meta_col, val)
        } else {
            m.boards@[x]@
        }
}

/// Writing one grid cell changes, on each board, only the cell at that
/// grid position, and only on the boards listed for it.
pub(crate) proof fn lemma_write_effect(m: GenericMultiBoard, n: GenericMultiBoard, gr: int, gc: int, v: u8)
    requires
        m.wf(),
        gr >= 0,
        gc >= 0,
        written(m, n, gr, gc, v),
    ensures
        forall|x: int, r: int, c: int|
            0 <= x < m.boards@.len() && 0 <= r < 9 && 0 <= c < 9 ==> #[trigger] n.boards@[x]@[r][c] == if 3
                * m.config.boards@[x].meta_row + r == gr && 3 * m.config.boards@[x].meta_col + c == gc && listed_owners(
                m.overlap_info.table(),
                gr / 3,
                gc / 3,
            ).contains(x as usize) {
                v
            } else {
                m.boards@[x]@[r][c]
            },
{
    lemma_owners_valid(m.config.boards@, gr, gc);
    let o = listed_owners(m.overlap_info.table(), gr / 3, gc / 3);
    assert forall|x: int, r: int, c: int|
        0 <= x < m.boards@.len() && 0 <= r < 9 && 0 <= c < 9 implies #[trigger] n.boards@[x]@[r][c] == if 3
            * m.config.boards@[x].meta_row + r == gr && 3 * m.config.boards@[x].meta_col + c == gc && o.contains(
            x as usize,
        ) {
            v
        } else {
            m.boards@[x]@[r][c]
        } by {
        m.boards@[x].lemma_shape();
        if o.contains(x as usize) {
            let j = choose|j: int| 0 <= j < o.len() && o[j] == x as usize;
            assert(o[j] == x as usize);
            let mr = m.config.boards@[x].meta_row as int;
            let mc = m.config.boards@[x].meta_col as int;
            assert(mr <= gr / 3 < mr + 3);
            assert(0 <= gr - 3 * mr < 9);
            assert(0 <= gc - 3 * mc < 9);
        }
    }
}

/// Reading gives back what was written: after writing `val` at a grid
/// cell that lies on a board, the cell reads `val`, every board covering
/// it holds `val` there, and every other cell reads as before. A write at a
/// cell that no board covers changes no board.
pub proof fn lemma_read_after_write(m: GenericMultiBoard, n: GenericMultiBoard, gr: int, gc: int, val: u8)
    requires
        m.wf(),
        gr >= 0,
        gc >= 0,
        written(m, n, gr, gc, val),
    ensures
        gactive(m, gr, gc) ==> gvalue(n, gr, gc) == val,
        forall|x: int|
            0 <= x < m.boards@.len() && listed_owners(m.overlap_info.table(), gr / 3, gc / 3).contains(x as usize)
                ==> #[trigger] n.boards@[x]@[gr - 3 * m.config.boards@[x].meta_row][gc - 3 * m.config.boards@[x].meta_col]
                == val,
        forall|r: int, c: int|
            r >= 0 && c >= 0 && (r, c) != (gr, gc) ==> #[trigger] gvalue(n, r, c) == gvalue(m, r, c),
        listed_owners(m.overlap_info.table(), gr / 3, gc / 3).len() == 0 ==> forall|x: int|
            0 <= x < m.boards@.len() ==> #[trigger] n.boards@[x]@ == m.boards@[x]@,
{
    lemma_write_effect(m, n, gr, gc, val);
    lemma_owners_valid(m.config.boards@, gr, gc);
    let o = listed_owners(m.overlap_info.table(), gr / 3, gc / 3);
    assert forall|x: int|
        0 <= x < m.boards@.len() && o.contains(x as usize) implies #[trigger] n.boards@[x]@[gr - 3
            * m.config.boards@[x].meta_row][gc - 3 * m.config.boards@[x].meta_col] == val by {
        let j = choose|j: int| 0 <= j < o.len() && o[j] == x as usize;
        assert(o[j] == x as usize);
    }
    assert forall|r: int, c: int| r >= 0 && c >= 0 && (r, c) != (gr, gc) implies #[trigger] gvalue(n, r, c) == gvalue(
        m,
        r,
        c,
    ) by {
        lemma_owners_valid(m.config.boards@, r, c);
        let p = listed_owners(m.overlap_info.table(), r / 3, c / 3);
        if p.len() > 0 {
            let x = p[0] as int;
            let mr = m.config.boards@[x].meta_row as int;
            let mc = m.config.boards@[x].meta_col as int;
            assert(mr <= r / 3 < mr + 3);
            assert(0 <= r - 3 * mr < 9);
            assert(0 <= c - 3 * mc < 9);
        }
    }
}

/// Overlapping 9x9 boards laid out by a configuration.
#[derive(Clone, Debug)]
pub struct GenericMultiBoard {
    pub config: PuzzleConfig,
    pub boards: Vec<Board>,
    pub overlap_info: OverlapInfo,
}

/// The value at grid cell (gr, gc): that of the first board covering it,
/// 0 where no board does.
pub open spec fn gvalue(m: GenericMultiBoard, gr: int, gc: int) -> u8 {
    let o = listed_owners(m.overlap_info.table(), gr as int / 3, gc as int / 3);
    if o.len() == 0 {
        0
    } else {
        let b = o[0] as int;
        m.boards@[b]@[gr - 3 * m.config.boards@[b].meta_row][gc - 3 * m.config.boards@[b].meta_col]
    }
}

/// Grid cell (gr, gc) lies on some board.
pub open spec fn gactive(m: GenericMultiBoard, gr: int, gc: int) -> bool {
    listed_owners(m.overlap_info.table(), gr as int / 3, gc as int / 3).len() > 0
}

/// Number of cells among the first `k` (row-major over `cols` columns)
/// that lie on a board and are empty.
pub open spec fn gempties_upto(m: GenericMultiBoard, cols: int, k: int) -> nat
    decreases k,
{
    if k <= 0 {
        0
    } else {
        let gr = (k - 1) / cols;
        let gc = (k - 1) % cols;
        gempties_upto(m, cols, k - 1) + if gactive(m, gr, gc) && gvalue(m, gr, gc) == 0 {
            1nat
        } else {
            0nat
        }
    }
}

/// Number of cells among the first `k` that lie on a board, are filled,
/// and differ from `sol`.
pub open spec fn gerrors_upto(m: GenericMultiBoard, sol: GenericMultiBoard, cols: int, k: int) -> nat
    decreases k,
{
    if k <= 0 {
        0
    } else {
        let gr = (k - 1) / cols;
        let gc = (k - 1) % cols;
        gerrors_upto(m, sol, cols, k - 1) + if gactive(m, gr, gc) && gvalue(m, gr, gc) != 0 && gvalue(m, gr, gc)
            != gvalue(sol, gr, gc) {
            1nat
        } else {
            0nat
        }
    }
}

/// Steps left before a walk from (r, c) by (dr, dc) leaves the rows
/// 0..rows (when dr is not 0) or the columns 0..cols.
pub open spec fn walk_left(r: int, c: int, dr: int, dc: int, rows: int, cols: int) -> nat {
    if dr > 0 {
        if r < rows {
            (rows - r) as nat
        } else {
            0
        }
    } else if dr < 0 {
        if r >= 0 {
            (r + 1) as nat
        } else {
            0
        }
    } else if dc > 0 {
        if c < cols {
            (cols - c) as nat
        } else {
            0
        }
    } else {
        if c >= 0 {
            (c + 1) as nat
        } else {
            0
        }
    }
}

/// Walking from (r, c) by steps of (dr, dc) over a grid of rows x cols:
/// the first cell on a board met before leaving the grid.
pub open spec fn gscan(m: GenericMultiBoard, r: int, c: int, dr: int, dc: int, rows: int, cols: int) -> Option<(int, int)>
    decreases walk_left(r, c, dr, dc, rows, cols),
{
    if !(0 <= r < rows && 0 <= c < cols) || (dr == 0 && dc == 0) {
        None
    } else if gactive(m, r, c) {
        Some((r, c))
    } else {
        gscan(m, r + dr, c + dc, dr, dc, rows, cols)
    }
}

impl GenericMultiBoard {
    /// The next cell on a board from (gr, gc) in direction (dr, dc), not
    /// counting (gr, gc); None when the walk leaves the grid first.
    pub fn next_active(&self, gr: usize, gc: usize, dr: i32, dc: i32) -> (n: Option<(usize, usize)>)
        requires
            dr != 0 || dc != 0,
            self.overlap_info.grid_rows <= i32::MAX,
            self.overlap_info.grid_cols <= i32::MAX,
            gr <= i32::MAX,
            gc <= i32::MAX,
            i32::MIN <= gr + dr <= i32::MAX,
            i32::MIN <= gc + dc <= i32::MAX,
            i32::MIN <= dr,
            i32::MIN <= dc,
            self.overlap_info.grid_rows + dr <= i32::MAX,
            self.overlap_info.grid_cols + dc <= i32::MAX,
            dr >= i32::MIN + 1,
            dc >= i32::MIN + 1,
        ensures
            n == (match gscan(
                *self,
                gr + dr,
                gc + dc,
                dr as int,
                dc as int,
                self.overlap_info.grid_rows as int,
                self.overlap_info.grid_cols as int,
            ) {
                Some(p) => Some((p.0 as usize, p.1 as usize)),
                None => None::<(usize, usize)>,
            }),
    {
        let rows = self.grid_rows() as i32;
        let cols = self.grid_cols() as i32;
        let mut r: i32 = gr as i32 + dr;
        let mut c: i32 = gc as i32 + dc;
        while r >= 0 && r < rows && c >= 0 && c < cols
            invariant
                dr != 0 || dc != 0,
                rows == self.overlap_info.grid_rows,
                cols == self.overlap_info.grid_cols,
                rows + dr <= i32::MAX,
                cols + dc <= i32::MAX,
                dr >= i32::MIN + 1,
                dc >= i32::MIN + 1,
                gscan(*self, r as int, c as int, dr as int, dc as int, rows as int, cols as int) == gscan(
                    *self,
                    gr + dr,
                    gc + dc,
                    dr as int,
                    dc as int,
                    rows as int,
                    cols as int,
                ),
            decreases walk_left(r as int, c as int, dr as int, dc as int, rows as int, cols as int),
        {
            if self.is_active(r as usize, c as usize) {
                return Some((r as usize, c as usize));
            }
            r += dr;
            c += dc;
        }
        None
    }

    /// Well-formed: one board per placement, and the overlap information
    /// is that of the configuration.
    pub open spec fn wf(&self) -> bool {
        &&& placements_fit(self.config.boards@)
        &&& self.config.boards@.len() <= usize::MAX
        &&& self.boards@.len() == self.config.boards@.len()
        &&& self.overlap_info.table() == owner_table(self.config.boards@)
        &&& self.overlap_info.grid_rows == 3 * span_rows(self.config.boards@)
        &&& self.overlap_info.grid_cols == 3 * span_cols(self.config.boards@)
    }

    /// Empty boards laid out by `config`.
    pub fn new(config: &PuzzleConfig) -> (m: Self)
        requires
            placements_fit(config.boards@),
        ensures
            m.wf(),
            m.config.name@ == config.name@,
            m.config.boards@ == config.boards@,
            forall|x: int, r: int, c: int|
                0 <= x < m.boards@.len() && 0 <= r < 9 && 0 <= c < 9 ==> #[trigger] m.boards@[x]@[r][c] == 0,
            forall|x: int| 0 <= x < m.boards@.len() ==> well_shaped(#[trigger] m.boards@[x]@),
    {
        let overlap_info = config.compute_overlaps();
        let mut boards: Vec<Board> = Vec::new();
        let mut i: usize = 0;
        while i < config.boards.len()
            invariant
                i <= config.boards@.len(),
                boards@.len() == i,
                forall|x: int, r: int, c: int|
                    0 <= x < i && 0 <= r < 9 && 0 <= c < 9 ==> #[trigger] boards@[x]@[r][c] == 0,
                forall|x: int| 0 <= x < i ==> well_shaped(#[trigger] boards@[x]@),
            decreases config.boards@.len() - i,
        {
            boards.push(Board::new());
            i += 1;
        }
        GenericMultiBoard { config: copy_config(config), boards, overlap_info }
    }

    /// Grid height in cells.
    pub fn grid_rows(&self) -> (n: usize)
        ensures
            n == self.overlap_info.grid_rows,
    {
        self.overlap_info.grid_rows
    }

    /// Grid width in cells.
    pub fn grid_cols(&self) -> (n: usize)
        ensures
            n == self.overlap_info.grid_cols,
    {
        self.overlap_info.grid_cols
    }

    /// True iff some board covers (gr, gc).
    pub fn is_active(&self, gr: usize, gc: usize) -> (a: bool)
        ensures
            a == gactive(*self, gr as int, gc as int),
    {
        self.overlap_info.is_active(gr, gc)
    }

    /// True iff two or more boards cover (gr, gc).
    pub fn is_overlap(&self, gr: usize, gc: usize) -> (a: bool)
        ensures
            a == (listed_owners(self.overlap_info.table(), gr as int / 3, gc as int / 3).len() > 1),
    {
        self.overlap_info.is_overlap(gr, gc)
    }

    /// The boards covering (gr, gc), in increasing order.
    pub fn owning_boards(&self, gr: usize, gc: usize) -> (o: Vec<usize>)
        ensures
            o@ == listed_owners(self.overlap_info.table(), gr as int / 3, gc as int / 3),
    {
        self.overlap_info.owners_of_cell(gr, gc)
    }

    /// The value at (gr, gc), from the first board covering it; 0 where no
    /// board does.
    pub fn get(&self, gr: usize, gc: usize) -> (v: u8)
        requires
            self.wf(),
        ensures
            v == gvalue(*self, gr as int, gc as int),
    {
        let owners = self.owning_boards(gr, gc);
        if owners.len() == 0 {
            return 0;
        }
        proof {
            lemma_owners_valid(self.config.boards@, gr as int, gc as int);
            assert(owners@[0] < self.boards@.len());
        }
        let b = owners[0];
        let (lr, lc) = self.config.grid_to_local(b, gr, gc);
        self.boards[b].get(lr, lc)
    }

    /// Writes `val` at (gr, gc) on every board covering it.
    pub fn set(&mut self, gr: usize, gc: usize, val: u8)
        requires
            old(self).wf(),
        ensures
            final(self).wf(),
            written(*old(self), *final(self), gr as int, gc as int, val),
    {
        let owners = self.owning_boards(gr, gc);
        let ghost o = owners@;
        proof {
            lemma_owners_valid(self.config.boards@, gr as int, gc as int);
        }
        let mut k: usize = 0;
        while k < owners.len()
            invariant
                k <= owners@.len(),
                o == owners@,
                o == listed_owners(old(self).overlap_info.table(), gr as int / 3, gc as int / 3),
                forall|j: int| 0 <= j < o.len() ==> (#[trigger] o[j]) < old(self).boards@.len() && covers(
                    old(self).config.boards@[o[j] as int],
                    gr as int / 3,
                    gc as int / 3,
                ),
                forall|i: int, j: int| 0 <= i < j < o.len() ==> #[trigger] o[i] < #[trigger] o[j],
                self.wf(),
                self.config == old(self).config,
                self.overlap_info == old(self).overlap_info,
                self.boards@.len() == old(self).boards@.len(),
                forall|x: int|
                    0 <= x < old(self).boards@.len() ==> #[trigger] self.boards@[x]@ == if o.subrange(0, k as int).contains(
                        x as usize,
                    ) {
                        set_cell(
                            old(self).boards@[x]@,
                            gr - 3 * old(self).config.boards@[x].meta_row,
                            gc - 3 * old(self).config.boards@[x].meta_col,
                            val,
                        )
                    } else {
                        old(self).boards@[x]@
                    },
            decreases owners@.len() - k,
        {
            let b = owners[k];
            let (lr, lc) = self.config.grid_to_local(b, gr, gc);
            let mut bd = self.boards[b];
            bd.set(lr, lc, val);
            self.boards.set(b, bd);
            proof {
                assert forall|x: int| 0 <= x < old(self).boards@.len() implies #[trigger] o.subrange(0, k + 1).contains(
                    x as usize,
                ) == (o.subrange(0, k as int).contains(x as usize) || x == b) by {
                    if o.subrange(0, k + 1).contains(x as usize) {
                        let j = choose|j: int| 0 <= j < k + 1 && #[trigger] o.subrange(0, k + 1)[j] == x as usize;
                        if j < k {
                            assert(o.subrange(0, k as int)[j] == x as usize);
                        }
                    }
                    if x == b {
                        assert(o.subrange(0, k + 1)[k as int] == x as usize);
                    }
                    if o.subrange(0, k as int).contains(x as usize) {
                        let j = choose|j: int| 0 <= j < k && #[trigger] o.subrange(0, k as int)[j] == x as usize;
                        assert(o.subrange(0, k + 1)[j] == x as usize);
                    }
                }
                if o.subrange(0, k as int).contains(b) {
                    let j = choose|j: int| 0 <= j < k && #[trigger] o.subrange(0, k as int)[j] == b;
                    assert(o[j] < o[k as int]);
                }
            }
            k += 1;
        }
        proof {
            assert(o.subrange(0, o.len() as int) =~= o);
        }
    }

    /// True iff (gr, gc) is empty (0 where no board covers it).
    pub fn is_empty(&self, gr: usize, gc: usize) -> (e: bool)
        requires
            self.wf(),
        ensures
            e == (gvalue(*self, gr as int, gc as int) == 0),
    {
        self.get(gr, gc) == 0
    }

    /// True iff every board is solved.
    pub fn is_solved(&self) -> (s: bool)
        ensures
            s == forall|x: int| 0 <= x < self.boards@.len() ==> is_solution(#[trigger] self.boards@[x]@),
    {
        let mut i: usize = 0;
        while i < self.boards.len()
            invariant
                i <= self.boards@.len(),
                forall|x: int| 0 <= x < i ==> is_solution(#[trigger] self.boards@[x]@),
            decreases self.boards@.len() - i,
        {
            if !verify(&self.boards[i]) {
                return false;
            }
            i += 1;
        }
        true
    }

    /// Number of empty cells that lie on a board, each counted once.
    pub fn empty_count(&self) -> (n: usize)
        requires
            self.wf(),
            self.overlap_info.grid_rows * self.overlap_info.grid_cols <= usize::MAX,
        ensures
            n == gempties_upto(*self, self.overlap_info.grid_cols as int, self.overlap_info.grid_rows * self.overlap_info.grid_cols),
    {
        let rows = self.grid_rows();
        let cols = self.grid_cols();
        let mut count: usize = 0;
        let mut gr: usize = 0;
        while gr < rows
            invariant
                self.wf(),
                rows == self.overlap_info.grid_rows,
                cols == self.overlap_info.grid_cols,
                rows * cols <= usize::MAX,
                gr <= rows,
                count == gempties_upto(*self, cols as int, gr * cols),
                count <= gr * cols,
            decreases rows - gr,
        {
            let mut gc: usize = 0;
            while gc < cols
                invariant
                    self.wf(),
                    rows == self.overlap_info.grid_rows,
                    cols == self.overlap_info.grid_cols,
                    rows * cols <= usize::MAX,
                    gr < rows,
                    gc <= cols,
                    count == gempties_upto(*self, cols as int, gr * cols + gc),
                    count <= gr * cols + gc,
                decreases cols - gc,
            {
                assert((gr * cols + gc) / (cols as int) == gr && (gr * cols + gc) % (cols as int) == gc) by (nonlinear_arith)
                    requires
                        gc < cols,
                ;
                assert(gr * cols + gc + 1 <= rows * cols) by (nonlinear_arith)
                    requires
                        gc < cols,
                        gr < rows,
                ;
                if self.is_active(gr, gc) && self.is_empty(gr, gc) {
                    count += 1;
                }
                gc += 1;
            }
            assert(gr * cols + cols == (gr + 1) * cols) by (nonlinear_arith);
            gr += 1;
        }
        count
    }

    /// Number of filled cells that lie on a board and differ from
    /// `solution`, each counted once.
    pub fn error_count(&self, solution: &Self) -> (n: usize)
        requires
            self.wf(),
            solution.wf(),
            self.overlap_info.grid_rows * self.overlap_info.grid_cols <= usize::MAX,
        ensures
            n == gerrors_upto(
                *self,
                *solution,
                self.overlap_info.grid_cols as int,
                self.overlap_info.grid_rows * self.overlap_info.grid_cols,
            ),
    {
        let rows = self.grid_rows();
        let cols = self.grid_cols();
        let mut count: usize = 0;
        let mut gr: usize = 0;
        while gr < rows
            invariant
                self.wf(),
                solution.wf(),
                rows == self.overlap_info.grid_rows,
                cols == self.overlap_info.grid_cols,
                rows * cols <= usize::MAX,
                gr <= rows,
                count == gerrors_upto(*self, *solution, cols as int, gr * cols),
                count <= gr * cols,
            decreases rows - gr,
        {
            let mut gc: usize = 0;
            while gc < cols
                invariant
                    self.wf(),
                    solution.wf(),
                    rows == self.overlap_info.grid_rows,
                    cols == self.overlap_info.grid_cols,
                    rows * cols <= usize::MAX,
                    gr < rows,
                    gc <= cols,
                    count == gerrors_upto(*self, *solution, cols as int, gr * cols + gc),
                    count <= gr * cols + gc,
                decreases cols - gc,
            {
                assert((gr * cols + gc) / (cols as int) == gr && (gr * cols + gc) % (cols as int) == gc) by (nonlinear_arith)
                    requires
                        gc < cols,
                ;
                assert(gr * cols + gc + 1 <= rows * cols) by (nonlinear_arith)
                    requires
                        gc < cols,
                        gr < rows,
                ;
                if self.is_active(gr, gc) {
                    let v = self.get(gr, gc);
                    if v != 0 && v != solution.get(gr, gc) {
                        count += 1;
                    }
                }
                gc += 1;
            }
            assert(gr * cols + cols == (gr + 1) * cols) by (nonlinear_arith);
            gr += 1;
        }
        count
    }
}

} // verus!
