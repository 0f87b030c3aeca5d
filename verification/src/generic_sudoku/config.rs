use vstd::prelude::*;
use vstd::string::StringExecFns;
use crate::text::{decimal, push_decimal};

verus! {

/// Where a board's top-left box sits on the meta-grid (one meta-cell per
/// 3x3 box); the board covers meta-cells (meta_row..meta_row+3,
/// meta_col..meta_col+3), that is grid cells from (3 meta_row, 3 meta_col).
#[derive(Clone, Copy, Debug, PartialEq, Eq, Structural)]
pub struct BoardPlacement {
    pub meta_row: usize,
    pub meta_col: usize,
}

/// A layout of overlapping 9x9 boards, with a name.
#[derive(Clone, Debug)]
pub struct PuzzleConfig {
    pub name: String,
    pub boards: Vec<BoardPlacement>,
}

/// For each meta-cell covered by some board, the boards covering it; and
/// the size of the grid.
#[derive(Clone, Debug)]
pub struct OverlapInfo {
    pub cell_owners: Vec<((usize, usize), Vec<usize>)>,
    pub grid_rows: usize,
    pub grid_cols: usize,
    pub meta_rows: usize,
    pub meta_cols: usize,
}

/// The board placed at `p` covers meta-cell (mr, mc).
pub open spec fn covers(p: BoardPlacement, mr: int, mc: int) -> bool {
    p.meta_row <= mr < p.meta_row + 3 && p.meta_col <= mc < p.meta_col + 3
}

/// Indices among the first `n` boards that cover (mr, mc), increasing.
pub open spec fn owners_upto(boards: Seq<BoardPlacement>, mr: int, mc: int, n: int) -> Seq<usize>
    decreases n,
{
    if n <= 0 {
        Seq::empty()
    } else {
        let p = owners_upto(boards, mr, mc, n - 1);
        if covers(boards[n - 1], mr, mc) {
            p.push((n - 1) as usize)
        } else {
            p
        }
    }
}

/// The boards covering meta-cell (mr, mc), in increasing order.
pub open spec fn meta_owners(boards: Seq<BoardPlacement>, mr: int, mc: int) -> Seq<usize> {
    owners_upto(boards, mr, mc, boards.len() as int)
}

/// Meta-rows spanned: the largest `meta_row + 3` (0 with no board).
pub open spec fn span_rows(boards: Seq<BoardPlacement>) -> int
    decreases boards.len(),
{
    if boards.len() == 0 {
        0
    } else {
        let m = span_rows(boards.drop_last());
        if boards.last().meta_row + 3 > m {
            boards.last().meta_row + 3
        } else {
            m
        }
    }
}

/// Meta-columns spanned: the largest `meta_col + 3` (0 with no board).
pub open spec fn span_cols(boards: Seq<BoardPlacement>) -> int
    decreases boards.len(),
{
    if boards.len() == 0 {
        0
    } else {
        let m = span_cols(boards.drop_last());
        if boards.last().meta_col + 3 > m {
            boards.last().meta_col + 3
        } else {
            m
        }
    }
}

/// The owner entries for the first `k` meta-cells in row-major order over
/// `cols` columns, leaving out cells no board covers.
pub open spec fn table_upto(boards: Seq<BoardPlacement>, cols: int, k: int) -> Seq<((usize, usize), Seq<usize>)>
    decreases k,
{
    if k <= 0 {
        Seq::empty()
    } else {
        let t = table_upto(boards, cols, k - 1);
        let mr = (k - 1) / cols;
        let mc = (k - 1) % cols;
        let o = meta_owners(boards, mr, mc);
        if o.len() > 0 {
            t.push(((mr as usize, mc as usize), o))
        } else {
            t
        }
    }
}

/// The owner entries of every covered meta-cell, in row-major order.
pub open spec fn owner_table(boards: Seq<BoardPlacement>) -> Seq<((usize, usize), Seq<usize>)> {
    table_upto(boards, span_cols(boards), span_rows(boards) * span_cols(boards))
}

/// The entries as values.
pub open spec fn table_view(t: Seq<((usize, usize), Vec<usize>)>) -> Seq<((usize, usize), Seq<usize>)> {
    Seq::new(t.len(), |i: int| (t[i].0, t[i].1@))
}

/// The owners listed for meta-cell (mr, mc) by the first entry for it;
/// none when there is no entry.
pub open spec fn listed_owners(t: Seq<((usize, usize), Seq<usize>)>, mr: int, mc: int) -> Seq<usize>
    decreases t.len(),
{
    if t.len() == 0 {
        Seq::empty()
    } else if t[0].0.0 == mr && t[0].0.1 == mc {
        t[0].1
    } else {
        listed_owners(t.drop_first(), mr, mc)
    }
}

/// The entries whose meta-cell has two or more owners, in order.
pub open spec fn shared_entries(t: Seq<((usize, usize), Seq<usize>)>) -> Seq<((usize, usize), Seq<usize>)>
    decreases t.len(),
{
    if t.len() == 0 {
        Seq::empty()
    } else {
        let rest = shared_entries(t.drop_last());
        if t.last().1.len() > 1 {
            rest.push(t.last())
        } else {
            rest
        }
    }
}

/// Every placement keeps `3 * (meta + 3)` within `usize`, so the grid
/// size of any layout can be computed.
pub open spec fn placements_fit(boards: Seq<BoardPlacement>) -> bool {
    forall|i: int|
        0 <= i < boards.len() ==> 3 * (#[trigger] boards[i].meta_row + 3) <= usize::MAX && 3 * (
        boards[i].meta_col + 3) <= usize::MAX
}

/// A copy of a list of board indices.
fn copy_indices(v: &Vec<usize>) -> (c: Vec<usize>)
    ensures
        c@ == v@,
{
    let mut c: Vec<usize> = Vec::new();
    let mut i: usize = 0;
    while i < v.len()
        invariant
            i <= v@.len(),
            c@ == v@.subrange(0, i as int),
        decreases v@.len() - i,
    {
        c.push(v[i]);
        assert(c@ =~= v@.subrange(0, i + 1));
        i += 1;
    }
    c
}

impl OverlapInfo {
    /// The entries as values.
    pub open spec fn table(&self) -> Seq<((usize, usize), Seq<usize>)> {
        table_view(self.cell_owners@)
    }

    /// The boards covering meta-cell (mr, mc); empty when none does.
    pub fn owners_of_meta(&self, mr: usize, mc: usize) -> (o: Vec<usize>)
        ensures
            o@ == listed_owners(self.table(), mr as int, mc as int),
    {
        let mut i: usize = 0;
        assert(self.table().subrange(0, self.table().len() as int) =~= self.table());
        while i < self.cell_owners.len()
            invariant
                i <= self.cell_owners@.len(),
                listed_owners(self.table(), mr as int, mc as int) == listed_owners(
                    self.table().subrange(i as int, self.table().len() as int),
                    mr as int,
                    mc as int,
                ),
            decreases self.cell_owners@.len() - i,
        {
            let key = self.cell_owners[i].0;
            proof {
                let t = self.table().subrange(i as int, self.table().len() as int);
                assert(t.drop_first() =~= self.table().subrange(i + 1, self.table().len() as int));
            }
            if key.0 == mr && key.1 == mc {
                return copy_indices(&self.cell_owners[i].1);
            }
            i += 1;
        }
        proof {
            assert(self.table().subrange(i as int, self.table().len() as int) =~= Seq::<((usize, usize), Seq<usize>)>::empty());
        }
        Vec::new()
    }

    /// The boards covering grid cell (gr, gc).
    pub fn owners_of_cell(&self, gr: usize, gc: usize) -> (o: Vec<usize>)
        ensures
            o@ == listed_owners(self.table(), (gr / 3) as int, (gc / 3) as int),
    {
        self.owners_of_meta(gr / 3, gc / 3)
    }

    /// True iff some board covers grid cell (gr, gc).
    pub fn is_active(&self, gr: usize, gc: usize) -> (a: bool)
        ensures
            a == (listed_owners(self.table(), (gr / 3) as int, (gc / 3) as int).len() > 0),
    {
        self.owners_of_cell(gr, gc).len() > 0
    }

    /// True iff two or more boards cover grid cell (gr, gc).
    pub fn is_overlap(&self, gr: usize, gc: usize) -> (a: bool)
        ensures
            a == (listed_owners(self.table(), (gr / 3) as int, (gc / 3) as int).len() > 1),
    {
        self.owners_of_cell(gr, gc).len() > 1
    }

    /// The entries of meta-cells covered by two or more boards, in order.
    pub fn overlap_meta_cells(&self) -> (v: Vec<((usize, usize), Vec<usize>)>)
        ensures
            table_view(v@) == shared_entries(self.table()),
    {
        let mut v: Vec<((usize, usize), Vec<usize>)> = Vec::new();
        let mut i: usize = 0;
        while i < self.cell_owners.len()
            invariant
                i <= self.cell_owners@.len(),
                table_view(v@) == shared_entries(self.table().subrange(0, i as int)),
            decreases self.cell_owners@.len() - i,
        {
            proof {
                let t = self.table().subrange(0, i + 1);
                assert(t.drop_last() =~= self.table().subrange(0, i as int));
            }
            if self.cell_owners[i].1.len() > 1 {
                let key = self.cell_owners[i].0;
                let owners = copy_indices(&self.cell_owners[i].1);
                let ghost before = v@;
                v.push((key, owners));
                proof {
                    assert(table_view(v@) =~= table_view(before).push(self.table()[i as int]));
                }
            }
            i += 1;
        }
        proof {
            assert(self.table().subrange(0, i as int) =~= self.table());
        }
        v
    }
}

/// The message for meta-cell (r, c) shared by `n` boards.
pub open spec fn crowded_message(r: nat, c: nat, n: nat) -> Seq<char> {
    "Meta-cell ("@ + decimal(r) + ", "@ + decimal(c) + ") is shared by "@ + decimal(n) + " boards. Maximum is 2."@
}

/// The message for the first problem of a layout: no board at all, or a
/// meta-cell covered by more than two boards; None for a valid layout.
pub open spec fn layout_problem(b: Seq<BoardPlacement>) -> Option<Seq<char>> {
    if b.len() == 0 {
        Some("At least one board is required."@)
    } else {
        match first_crowded(owner_table(b), 0) {
            Some(k) => Some(
                crowded_message(owner_table(b)[k].0.0 as nat, owner_table(b)[k].0.1 as nat, owner_table(b)[k].1.len()),
            ),
            None => None,
        }
    }
}

/// Index of the first entry with more than two owners, if any.
pub open spec fn first_crowded(t: Seq<((usize, usize), Seq<usize>)>, from: int) -> Option<int>
    decreases t.len() - from,
{
    if from >= t.len() || from < 0 {
        None
    } else if t[from].1.len() > 2 {
        Some(from)
    } else {
        first_crowded(t, from + 1)
    }
}

impl PuzzleConfig {
    /// Top-left grid cell of board `idx`: (3 meta_row, 3 meta_col).
    pub fn board_offset(&self, idx: usize) -> (o: (usize, usize))
        requires
            idx < self.boards@.len(),
            3 * self.boards@[idx as int].meta_row <= usize::MAX,
            3 * self.boards@[idx as int].meta_col <= usize::MAX,
        ensures
            o.0 == 3 * self.boards@[idx as int].meta_row,
            o.1 == 3 * self.boards@[idx as int].meta_col,
    {
        (self.boards[idx].meta_row * 3, self.boards[idx].meta_col * 3)
    }

    /// Local coordinates on board `board_idx` of grid cell (gr, gc).
    pub fn grid_to_local(&self, board_idx: usize, gr: usize, gc: usize) -> (l: (usize, usize))
        requires
            board_idx < self.boards@.len(),
            3 * self.boards@[board_idx as int].meta_row <= gr,
            3 * self.boards@[board_idx as int].meta_col <= gc,
        ensures
            l.0 == gr - 3 * self.boards@[board_idx as int].meta_row,
            l.1 == gc - 3 * self.boards@[board_idx as int].meta_col,
    {
        let (or, oc) = self.board_offset(board_idx);
        (gr - or, gc - oc)
    }

    /// The boards covering meta-cell (mr, mc), in increasing order.
    fn owners_at(&self, mr: usize, mc: usize) -> (o: Vec<usize>)
        requires
            placements_fit(self.boards@),
        ensures
            o@ == meta_owners(self.boards@, mr as int, mc as int),
    {
        let mut owners: Vec<usize> = Vec::new();
        let mut i: usize = 0;
        while i < self.boards.len()
            invariant
                i <= self.boards@.len(),
                placements_fit(self.boards@),
                owners@ == owners_upto(self.boards@, mr as int, mc as int, i as int),
            decreases self.boards@.len() - i,
        {
            let b = self.boards[i];
            assert(3 * (self.boards@[i as int].meta_row + 3) <= usize::MAX);
            if mr >= b.meta_row && mr < b.meta_row + 3 && mc >= b.meta_col && mc < b.meta_col + 3 {
                owners.push(i);
            }
            i += 1;
        }
        owners
    }

    /// Largest `meta_row + 3` and `meta_col + 3` over the boards.
    fn spans(&self) -> (s: (usize, usize))
        requires
            placements_fit(self.boards@),
        ensures
            s.0 == span_rows(self.boards@),
            s.1 == span_cols(self.boards@),
            3 * s.0 <= usize::MAX,
            3 * s.1 <= usize::MAX,
    {
        let mut rows: usize = 0;
        let mut cols: usize = 0;
        let mut i: usize = 0;
        while i < self.boards.len()
            invariant
                i <= self.boards@.len(),
                placements_fit(self.boards@),
                rows == span_rows(self.boards@.subrange(0, i as int)),
                cols == span_cols(self.boards@.subrange(0, i as int)),
                3 * rows <= usize::MAX,
                3 * cols <= usize::MAX,
            decreases self.boards@.len() - i,
        {
            proof {
                let t = self.boards@.subrange(0, i + 1);
                assert(t.drop_last() =~= self.boards@.subrange(0, i as int));
                assert(3 * (self.boards@[i as int].meta_row + 3) <= usize::MAX);
            }
            let b = self.boards[i];
            if b.meta_row + 3 > rows {
                rows = b.meta_row + 3;
            }
            if b.meta_col + 3 > cols {
                cols = b.meta_col + 3;
            }
            i += 1;
        }
        proof {
            assert(self.boards@.subrange(0, i as int) =~= self.boards@);
        }
        (rows, cols)
    }

    /// Which boards cover each meta-cell, and the size of the grid.
    pub fn compute_overlaps(&self) -> (info: OverlapInfo)
        requires
            placements_fit(self.boards@),
        ensures
            info.table() == owner_table(self.boards@),
            info.meta_rows == span_rows(self.boards@),
            info.meta_cols == span_cols(self.boards@),
            info.grid_rows == 3 * span_rows(self.boards@),
            info.grid_cols == 3 * span_cols(self.boards@),
    {
        if self.boards.len() == 0 {
            let info = OverlapInfo { cell_owners: Vec::new(), grid_rows: 0, grid_cols: 0, meta_rows: 0, meta_cols: 0 };
            assert(info.table() =~= owner_table(self.boards@));
            return info;
        }
        let (max_mr, max_mc) = self.spans();
        let mut cell_owners: Vec<((usize, usize), Vec<usize>)> = Vec::new();
        let mut mr: usize = 0;
        while mr < max_mr
            invariant
                mr <= max_mr,
                max_mr == span_rows(self.boards@),
                max_mc == span_cols(self.boards@),
                3 * max_mr <= usize::MAX,
                3 * max_mc <= usize::MAX,
                placements_fit(self.boards@),
                table_view(cell_owners@) == table_upto(self.boards@, max_mc as int, mr * max_mc),
            decreases max_mr - mr,
        {
            let mut mc: usize = 0;
            while mc < max_mc
                invariant
                    mr < max_mr,
                    mc <= max_mc,
                    max_mr == span_rows(self.boards@),
                    max_mc == span_cols(self.boards@),
                    3 * max_mr <= usize::MAX,
                    3 * max_mc <= usize::MAX,
                    placements_fit(self.boards@),
                    table_view(cell_owners@) == table_upto(self.boards@, max_mc as int, mr * max_mc + mc),
                decreases max_mc - mc,
            {
                let owners = self.owners_at(mr, mc);
                proof {
                    let k = mr * max_mc + mc;
                    assert(k / (max_mc as int) == mr && k % (max_mc as int) == mc) by (nonlinear_arith)
                        requires
                            k == mr * max_mc + mc,
                            mc < max_mc,
                    ;
                }
                if owners.len() > 0 {
                    let ghost before = cell_owners@;
                    cell_owners.push(((mr, mc), owners));
                    proof {
                        assert(table_view(cell_owners@) =~= table_view(before).push(
                            ((mr, mc), meta_owners(self.boards@, mr as int, mc as int)),
                        ));
                    }
                }
                mc += 1;
            }
            assert(mr * max_mc + max_mc == (mr + 1) * max_mc) by (nonlinear_arith);
            mr += 1;
        }
        OverlapInfo {
            cell_owners,
            grid_rows: max_mr * 3,
            grid_cols: max_mc * 3,
            meta_rows: max_mr,
            meta_cols: max_mc,
        }
    }

    /// True iff every board's corner leaves room for the grid arithmetic
    /// (`placements_fit`).
    pub fn fits(&self) -> (b: bool)
        ensures
            b == placements_fit(self.boards@),
    {
        let limit: usize = usize::MAX / 3 - 3;
        let mut i: usize = 0;
        while i < self.boards.len()
            invariant
                i <= self.boards@.len(),
                limit == usize::MAX / 3 - 3,
                forall|j: int| 0 <= j < i ==> 3 * (#[trigger] self.boards@[j].meta_row + 3) <= usize::MAX && 3 * (
                self.boards@[j].meta_col + 3) <= usize::MAX,
            decreases self.boards@.len() - i,
        {
            let p = self.boards[i];
            proof {
                assert(3 * (p.meta_row + 3) <= usize::MAX <==> p.meta_row <= limit) by (nonlinear_arith)
                    requires
                        limit == usize::MAX / 3 - 3,
                        usize::MAX >= 9,
                ;
                assert(3 * (p.meta_col + 3) <= usize::MAX <==> p.meta_col <= limit) by (nonlinear_arith)
                    requires
                        limit == usize::MAX / 3 - 3,
                        usize::MAX >= 9,
                ;
            }
            if p.meta_row > limit || p.meta_col > limit {
                return false;
            }
            i += 1;
        }
        true
    }

    /// Ok when there is at least one board and no meta-cell is covered by
    /// more than two boards; otherwise the message for the first problem.
    pub fn validate(&self) -> (r: Result<(), String>)
        requires
            placements_fit(self.boards@),
        ensures
            match layout_problem(self.boards@) {
                Some(m) => r matches Err(e) && e@ == m,
                None => r is Ok,
            },
    {
        if self.boards.len() == 0 {
            return Err(String::from_str("At least one board is required."));
        }
        let info = self.compute_overlaps();
        let ghost t = info.table();
        let mut i: usize = 0;
        while i < info.cell_owners.len()
            invariant
                i <= info.cell_owners@.len(),
                t == info.table(),
                t == owner_table(self.boards@),
                self.boards@.len() > 0,
                first_crowded(t, 0) == first_crowded(t, i as int),
            decreases info.cell_owners@.len() - i,
        {
            let n = info.cell_owners[i].1.len();
            if n > 2 {
                let cell = info.cell_owners[i].0;
                let mut msg = String::from_str("Meta-cell (");
                push_decimal(&mut msg, cell.0 as u64);
                msg.append(", ");
                push_decimal(&mut msg, cell.1 as u64);
                msg.append(") is shared by ");
                push_decimal(&mut msg, n as u64);
                msg.append(" boards. Maximum is 2.");
                assert(msg@ =~= crowded_message(cell.0 as nat, cell.1 as nat, n as nat));
                return Err(msg);
            }
            i += 1;
        }
        Ok(())
    }
}

/// A configuration with the given name and board corners.
fn layout(name: &str, corners: &[(usize, usize)]) -> (c: PuzzleConfig)
    ensures
        c.name@ == name@,
        c.boards@.len() == corners@.len(),
        forall|i: int|
            0 <= i < corners@.len() ==> (#[trigger] c.boards@[i]).meta_row == corners@[i].0
                && c.boards@[i].meta_col == corners@[i].1,
{
    let mut boards: Vec<BoardPlacement> = Vec::new();
    let mut i: usize = 0;
    while i < corners.len()
        invariant
            i <= corners@.len(),
            boards@.len() == i,
            forall|j: int|
                0 <= j < i ==> (#[trigger] boards@[j]).meta_row == corners@[j].0 && boards@[j].meta_col
                    == corners@[j].1,
        decreases corners@.len() - i,
    {
        boards.push(BoardPlacement { meta_row: corners[i].0, meta_col: corners[i].1 });
        i += 1;
    }
    PuzzleConfig { name: String::from_str(name), boards }
}

/// The corners of a configuration's boards, in order.
pub open spec fn corners_of(c: PuzzleConfig) -> Seq<(usize, usize)> {
    Seq::new(c.boards@.len(), |i: int| (c.boards@[i].meta_row, c.boards@[i].meta_col))
}

/// Name and board corners of built-in layout `i`: Single, Double
/// Diagonal, Triple Chain, Samurai, Cross and L-Shape.
pub open spec fn preset_layout(i: int) -> (Seq<char>, Seq<(usize, usize)>) {
    if i == 0 {
        ("Single"@, seq![(0usize, 0usize)])
    } else if i == 1 {
        ("Double Diagonal"@, seq![(0usize, 0usize), (2, 2)])
    } else if i == 2 {
        ("Triple Chain"@, seq![(0usize, 0usize), (2, 2), (4, 4)])
    } else if i == 3 {
        ("Samurai"@, seq![(0usize, 0usize), (0, 4), (2, 2), (4, 0), (4, 4)])
    } else if i == 4 {
        ("Cross"@, seq![(0usize, 2usize), (2, 0), (2, 2), (2, 4), (4, 2)])
    } else {
        ("L-Shape"@, seq![(0usize, 0usize), (2, 0), (2, 2)])
    }
}

/// The six built-in layouts.
pub fn presets() -> (v: Vec<PuzzleConfig>)
    ensures
        v@.len() == 6,
        forall|i: int|
            0 <= i < 6 ==> (#[trigger] v@[i]).name@ == preset_layout(i).0 && corners_of(v@[i]) == preset_layout(i).1,
{
    let mut v: Vec<PuzzleConfig> = Vec::new();
    let c0 = layout("Single", &[(0, 0)]);
    let c1 = layout("Double Diagonal", &[(0, 0), (2, 2)]);
    let c2 = layout("Triple Chain", &[(0, 0), (2, 2), (4, 4)]);
    let c3 = layout("Samurai", &[(0, 0), (0, 4), (2, 2), (4, 0), (4, 4)]);
    let c4 = layout("Cross", &[(0, 2), (2, 0), (2, 2), (2, 4), (4, 2)]);
    let c5 = layout("L-Shape", &[(0, 0), (2, 0), (2, 2)]);
    assert(corners_of(c0) =~= seq![(0usize, 0usize)]);
    assert(corners_of(c1) =~= seq![(0usize, 0usize), (2, 2)]);
    assert(corners_of(c2) =~= seq![(0usize, 0usize), (2, 2), (4, 4)]);
    assert(corners_of(c3) =~= seq![(0usize, 0usize), (0, 4), (2, 2), (4, 0), (4, 4)]);
    assert(corners_of(c4) =~= seq![(0usize, 2usize), (2, 0), (2, 2), (2, 4), (4, 2)]);
    assert(corners_of(c5) =~= seq![(0usize, 0usize), (2, 0), (2, 2)]);
    v.push(c0);
    v.push(c1);
    v.push(c2);
    v.push(c3);
    v.push(c4);
    v.push(c5);
    assert forall|i: int| 0 <= i < 6 implies (#[trigger] v@[i]).name@ == preset_layout(i).0 && corners_of(v@[i])
        == preset_layout(i).1 by {
        if i == 0 {
            assert(v@[i] == c0);
        } else if i == 1 {
            assert(v@[i] == c1);
        } else if i == 2 {
            assert(v@[i] == c2);
        } else if i == 3 {
            assert(v@[i] == c3);
        } else if i == 4 {
            assert(v@[i] == c4);
        } else {
            assert(v@[i] == c5);
        }
    }
    v
}

/// The built-in layouts leave room for the grid arithmetic.
pub proof fn lemma_preset_fits(c: PuzzleConfig, i: int)
    requires
        0 <= i < 6,
        corners_of(c) == preset_layout(i).1,
    ensures
        placements_fit(c.boards@),
{
    let k = preset_layout(i).1;
    assert forall|j: int| 0 <= j < k.len() implies #[trigger] k[j].0 <= 4 && k[j].1 <= 4 by {
        assert(k.len() <= 5);
        if j == 0 {
        } else if j == 1 {
        } else if j == 2 {
        } else if j == 3 {
        } else {
            assert(j == 4);
        }
    }
    assert forall|j: int| 0 <= j < c.boards@.len() implies 3 * (#[trigger] c.boards@[j].meta_row + 3) <= usize::MAX && 3 * (
    c.boards@[j].meta_col + 3) <= usize::MAX by {
        assert(corners_of(c).len() == c.boards@.len());
        assert(corners_of(c)[j] == (c.boards@[j].meta_row, c.boards@[j].meta_col));
        assert(k[j].0 <= 4 && k[j].1 <= 4);
    }
}

/// The entries of the owner table have distinct meta-cells, each within
/// the columns.
pub proof fn lemma_table_keys(b: Seq<BoardPlacement>, cols: int, k: int)
    requires
        cols > 0,
        k >= 0,
        b.len() <= usize::MAX,
        placements_fit(b),
    ensures
        forall|i: int|
            0 <= i < table_upto(b, cols, k).len() ==> (#[trigger] table_upto(b, cols, k)[i]).0.1 < cols && table_upto(
                b,
                cols,
                k,
            )[i].0.0 * cols + table_upto(b, cols, k)[i].0.1 < k && table_upto(b, cols, k)[i].0.0 >= 0,
        forall|i: int, j: int|
            0 <= i < j < table_upto(b, cols, k).len() ==> (#[trigger] table_upto(b, cols, k)[i]).0 != (
            #[trigger] table_upto(b, cols, k)[j]).0,
    decreases k,
{
    if k > 0 {
        lemma_table_keys(b, cols, k - 1);
        let t = table_upto(b, cols, k - 1);
        let mr = (k - 1) / cols;
        let mc = (k - 1) % cols;
        assert(mr * cols + mc == k - 1 && 0 <= mc < cols && mr >= 0) by (nonlinear_arith)
            requires
                mr == (k - 1) / cols,
                mc == (k - 1) % cols,
                cols > 0,
                k > 0,
        ;
        let o = meta_owners(b, mr, mc);
        if o.len() > 0 {
            let e = ((mr as usize, mc as usize), o);
            let u = t.push(e);
            assert(table_upto(b, cols, k) == u);
            lemma_owners_upto(b, mr, mc, b.len() as int);
            assert(o[0] < b.len() && covers(b[o[0] as int], mr, mc));
            assert(3 * (b[o[0] as int].meta_row + 3) <= usize::MAX);
            assert(3 * (b[o[0] as int].meta_col + 3) <= usize::MAX);
            assert forall|i: int| 0 <= i < u.len() implies (#[trigger] u[i]).0.1 < cols && u[i].0.0 * cols + u[i].0.1 < k
                && u[i].0.0 >= 0 by {
                if i < t.len() {
                    assert(u[i] == t[i]);
                }
            }
            assert forall|i: int, j: int| 0 <= i < j < u.len() implies (#[trigger] u[i]).0 != (#[trigger] u[j]).0 by {
                if j < t.len() {
                    assert(u[i] == t[i] && u[j] == t[j]);
                } else {
                    assert(u[i] == t[i]);
                    assert(u[i].0.0 * cols + u[i].0.1 < k - 1);
                    if u[i].0 == u[j].0 {
                        assert(u[i].0.0 * cols + u[i].0.1 == mr * cols + mc);
                    }
                }
            }
        }
    }
}

/// Every owner listed among the first `n` boards is one of them and
/// covers the meta-cell; the list increases strictly.
pub proof fn lemma_owners_upto(b: Seq<BoardPlacement>, mr: int, mc: int, n: int)
    requires
        0 <= n <= b.len(),
        b.len() <= usize::MAX,
    ensures
        forall|j: int|
            0 <= j < owners_upto(b, mr, mc, n).len() ==> (#[trigger] owners_upto(b, mr, mc, n)[j]) < n && covers(
                b[owners_upto(b, mr, mc, n)[j] as int],
                mr,
                mc,
            ),
        forall|i: int, j: int|
            0 <= i < j < owners_upto(b, mr, mc, n).len() ==> #[trigger] owners_upto(b, mr, mc, n)[i]
                < #[trigger] owners_upto(b, mr, mc, n)[j],
    decreases n,
{
    if n > 0 {
        lemma_owners_upto(b, mr, mc, n - 1);
        let p = owners_upto(b, mr, mc, n - 1);
        let r = owners_upto(b, mr, mc, n);
        if covers(b[n - 1], mr, mc) {
            assert(r == p.push((n - 1) as usize));
            assert forall|j: int| 0 <= j < r.len() implies (#[trigger] r[j]) < n && covers(b[r[j] as int], mr, mc) by {
                if j < p.len() {
                    assert(r[j] == p[j]);
                }
            }
            assert forall|i: int, j: int| 0 <= i < j < r.len() implies #[trigger] r[i] < #[trigger] r[j] by {
                assert(r[i] == p[i]);
                if j < p.len() {
                    assert(r[j] == p[j]);
                }
            }
        }
    }
}

/// Every entry of the owner table lists boards that cover its meta-cell,
/// in strictly increasing order, and at least one.
pub proof fn lemma_table_entries(b: Seq<BoardPlacement>, cols: int, k: int)
    requires
        cols > 0,
        b.len() <= usize::MAX,
        placements_fit(b),
    ensures
        forall|i: int|
            0 <= i < table_upto(b, cols, k).len() ==> #[trigger] entry_ok(b, table_upto(b, cols, k)[i]),
    decreases k,
{
    if k > 0 {
        lemma_table_entries(b, cols, k - 1);
        let mr = (k - 1) / cols;
        let mc = (k - 1) % cols;
        lemma_owners_upto(b, mr, mc, b.len() as int);
        let t = table_upto(b, cols, k - 1);
        let o = meta_owners(b, mr, mc);
        if o.len() > 0 {
            assert(0 <= mr && 0 <= mc);
            assert(o[0] < b.len() && covers(b[o[0] as int], mr, mc));
            assert(3 * (b[o[0] as int].meta_row + 3) <= usize::MAX);
            let e = ((mr as usize, mc as usize), o);
            assert(table_upto(b, cols, k) == t.push(e));
            assert(entry_ok(b, e));
            assert forall|i: int| 0 <= i < t.len() + 1 implies #[trigger] entry_ok(b, t.push(e)[i]) by {
                if i < t.len() {
                    assert(t.push(e)[i] == t[i]);
                }
            }
        }
    }
}

/// The entry lists, in strictly increasing order, at least one board, and
/// only boards that cover its meta-cell.
pub open spec fn entry_ok(b: Seq<BoardPlacement>, e: ((usize, usize), Seq<usize>)) -> bool {
    &&& e.1.len() > 0
    &&& forall|j: int|
        0 <= j < e.1.len() ==> (#[trigger] e.1[j]) < b.len() && covers(b[e.1[j] as int], e.0.0 as int, e.0.1 as int)
    &&& forall|i: int, j: int| 0 <= i < j < e.1.len() ==> #[trigger] e.1[i] < #[trigger] e.1[j]
}

} // verus!
