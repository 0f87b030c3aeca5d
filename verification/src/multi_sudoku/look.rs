use vstd::prelude::*;
use crate::multi_sudoku::multi_board::{MultiBoard, active, grid_value, owners, owns};
use crate::multi_sudoku::session::MultiSession;
use crate::text::names;

verus! {

/// What a grid cell on a board shows: a given digit, a digit entered
/// (wrong or right), or nothing.
#[derive(Clone, Copy, Debug, PartialEq, Eq, Structural)]
pub enum CellContent {
    Given(u8),
    Error(u8),
    User(u8),
    Empty,
}

/// How a grid cell is drawn; `spacer` marks a cell on no board, drawn as
/// a gap, for which the other fields say nothing.
#[derive(Clone, Copy, Debug, PartialEq, Eq, Structural)]
pub struct CellLook {
    pub spacer: bool,
    pub selected: bool,
    /// On a board with the selected cell, in its row, column or box there.
    pub highlighted: bool,
    /// On two boards.
    pub overlap: bool,
    /// First column, or first row, of some board covering the cell.
    pub left_thick: bool,
    pub top_thick: bool,
    /// A thick line after the cell at a box or board edge.
    pub border_right: bool,
    pub border_bottom: bool,
    pub content: CellContent,
}

/// Board `b` covers both cells and, on it, they share a row, a column or
/// a box.
pub open spec fn same_unit_on(b: int, sr: int, sc: int, gr: int, gc: int) -> bool {
    let (slr, slc) = (sr - 6 * b, sc - 6 * b);
    let (clr, clc) = (gr - 6 * b, gc - 6 * b);
    &&& owns(b, sr, sc)
    &&& owns(b, gr, gc)
    &&& (slr == clr || slc == clc || (slr / 3 == clr / 3 && slc / 3 == clc / 3))
}

/// Some board covering the cell has a thick line on its right there: at
/// the end of a box inside the board (with the board going on), or at the
/// board's last column.
pub open spec fn right_edge(gr: int, gc: int) -> bool {
    exists|b: int|
        0 <= b < 3 && #[trigger] owns(b, gr, gc) && ({
            let lc = gc - 6 * b;
            (lc % 3 == 2 && lc != 8 && gc + 1 < 6 * b + 9) || lc == 8
        })
}

/// Some board covering the cell has a thick line below it there.
pub open spec fn bottom_edge(gr: int, gc: int) -> bool {
    exists|b: int|
        0 <= b < 3 && #[trigger] owns(b, gr, gc) && ({
            let lr = gr - 6 * b;
            (lr % 3 == 2 && lr != 8 && gr + 1 < 6 * b + 9) || lr == 8
        })
}

/// How grid cell (gr, gc) of a session is drawn.
pub open spec fn look_of(s: MultiSession, gr: int, gc: int) -> CellLook {
    let pv = grid_value(s.puzzle, gr, gc);
    let cv = grid_value(s.current, gr, gc);
    CellLook {
        spacer: !active(gr, gc),
        selected: s.selected == Some((gr as usize, gc as usize)),
        highlighted: match s.selected {
            Some((sr, sc)) => exists|b: int| 0 <= b < 3 && #[trigger] same_unit_on(b, sr as int, sc as int, gr, gc),
            None => false,
        },
        overlap: owners(gr, gc).len() > 1,
        left_thick: exists|b: int| 0 <= b < 3 && #[trigger] owns(b, gr, gc) && gc == 6 * b,
        top_thick: exists|b: int| 0 <= b < 3 && #[trigger] owns(b, gr, gc) && gr == 6 * b,
        border_right: right_edge(gr, gc),
        border_bottom: bottom_edge(gr, gc),
        content: if pv != 0 {
            CellContent::Given(pv)
        } else if cv != 0 {
            if cv != grid_value(s.solution, gr, gc) {
                CellContent::Error(cv)
            } else {
                CellContent::User(cv)
            }
        } else {
            CellContent::Empty
        },
    }
}

/// How grid cell (gr, gc) is drawn.
pub fn cell_look(s: &MultiSession, gr: usize, gc: usize) -> (l: CellLook)
    requires
        gr < 21,
        gc < 21,
    ensures
        !active(gr as int, gc as int) ==> l.spacer,
        active(gr as int, gc as int) ==> l == look_of(*s, gr as int, gc as int),
{
    if !MultiBoard::is_active(gr, gc) {
        return CellLook {
            spacer: true,
            selected: false,
            highlighted: false,
            overlap: false,
            left_thick: false,
            top_thick: false,
            border_right: false,
            border_bottom: false,
            content: CellContent::Empty,
        };
    }
    let pv = s.puzzle.get(gr, gc);
    let cv = s.current.get(gr, gc);
    let sv = s.solution.get(gr, gc);
    let selected = match s.selected {
        Some((sr, sc)) => sr == gr && sc == gc,
        None => false,
    };
    let mut highlighted = false;
    let mut left_thick = false;
    let mut top_thick = false;
    let mut border_right = false;
    let mut border_bottom = false;
    let mut b: usize = 0;
    while b < 3
        invariant
            b <= 3,
            gr < 21,
            gc < 21,
            highlighted == match s.selected {
                Some((sr, sc)) => exists|x: int| 0 <= x < b && #[trigger] same_unit_on(x, sr as int, sc as int, gr as int, gc as int),
                None => false,
            },
            left_thick == exists|x: int| 0 <= x < b && #[trigger] owns(x, gr as int, gc as int) && gc == 6 * x,
            top_thick == exists|x: int| 0 <= x < b && #[trigger] owns(x, gr as int, gc as int) && gr == 6 * x,
            border_right == exists|x: int|
                0 <= x < b && #[trigger] owns(x, gr as int, gc as int) && ({
                    let lc = gc - 6 * x;
                    (lc % 3 == 2 && lc != 8 && gc + 1 < 6 * x + 9) || lc == 8
                }),
            border_bottom == exists|x: int|
                0 <= x < b && #[trigger] owns(x, gr as int, gc as int) && ({
                    let lr = gr - 6 * x;
                    (lr % 3 == 2 && lr != 8 && gr + 1 < 6 * x + 9) || lr == 8
                }),
        decreases 3 - b,
    {
        let o = 6 * b;
        let owns_cell = gr >= o && gr < o + 9 && gc >= o && gc < o + 9;
        if owns_cell {
            let lr = gr - o;
            let lc = gc - o;
            if (lc % 3 == 2 && lc != 8 && gc + 1 < o + 9) || lc == 8 {
                border_right = true;
            }
            if (lr % 3 == 2 && lr != 8 && gr + 1 < o + 9) || lr == 8 {
                border_bottom = true;
            }
            if lc == 0 {
                left_thick = true;
            }
            if lr == 0 {
                top_thick = true;
            }
            match s.selected {
                Some((sr, sc)) => {
                    if sr >= o && sr < o + 9 && sc >= o && sc < o + 9 {
                        let slr = sr - o;
                        let slc = sc - o;
                        if slr == lr || slc == lc || (slr / 3 == lr / 3 && slc / 3 == lc / 3) {
                            highlighted = true;
                            assert(same_unit_on(b as int, sr as int, sc as int, gr as int, gc as int));
                        }
                    }
                },
                None => {},
            }
        }
        proof {
            assert(owns_cell == owns(b as int, gr as int, gc as int));
        }
        b += 1;
    }
    let content = if pv != 0 {
        CellContent::Given(pv)
    } else if cv != 0 {
        if cv != sv {
            CellContent::Error(cv)
        } else {
            CellContent::User(cv)
        }
    } else {
        CellContent::Empty
    };
    CellLook {
        spacer: false,
        selected,
        highlighted,
        overlap: MultiBoard::is_overlap(gr, gc),
        left_thick,
        top_thick,
        border_right,
        border_bottom,
        content,
    }
}

/// The style classes of a cell: "cell-spacer" for a cell on no board;
/// else "cell", then "selected" or else "highlighted", "overlap", the
/// board and box edges, and what it shows.
pub open spec fn classes_of(l: CellLook) -> Seq<Seq<char>> {
    if l.spacer {
        seq!["cell-spacer"@]
    } else {
        let a = seq!["cell"@];
        let b = if l.selected {
            a.push("selected"@)
        } else if l.highlighted {
            a.push("highlighted"@)
        } else {
            a
        };
        let c = if l.overlap {
            b.push("overlap"@)
        } else {
            b
        };
        let d = if l.left_thick {
            c.push("border-left-thick"@)
        } else {
            c
        };
        let e = if l.top_thick {
            d.push("border-top-thick"@)
        } else {
            d
        };
        let f = if l.border_right {
            e.push("border-right"@)
        } else {
            e
        };
        let g = if l.border_bottom {
            f.push("border-bottom"@)
        } else {
            f
        };
        g.push(
            match l.content {
                CellContent::Given(_) => "given"@,
                CellContent::Error(_) => "error"@,
                CellContent::User(_) => "user"@,
                CellContent::Empty => "empty"@,
            },
        )
    }
}

/// The style classes of a cell, in order.
pub fn cell_classes(l: CellLook) -> (v: Vec<&'static str>)
    ensures
        names(v@) == classes_of(l),
{
    let mut v: Vec<&'static str> = Vec::new();
    if l.spacer {
        v.push("cell-spacer");
        assert(names(v@) =~= classes_of(l));
        return v;
    }
    v.push("cell");
    if l.selected {
        v.push("selected");
    } else if l.highlighted {
        v.push("highlighted");
    }
    if l.overlap {
        v.push("overlap");
    }
    if l.left_thick {
        v.push("border-left-thick");
    }
    if l.top_thick {
        v.push("border-top-thick");
    }
    if l.border_right {
        v.push("border-right");
    }
    if l.border_bottom {
        v.push("border-bottom");
    }
    let last = match l.content {
        CellContent::Given(_) => "given",
        CellContent::Error(_) => "error",
        CellContent::User(_) => "user",
        CellContent::Empty => "empty",
    };
    v.push(last);
    assert(names(v@) =~= classes_of(l));
    v
}

} // verus!
