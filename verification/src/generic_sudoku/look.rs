use vstd::prelude::*;
use crate::generic_sudoku::config::{BoardPlacement, listed_owners};
use crate::generic_sudoku::generic_board::{gactive, gvalue, lemma_owners_valid};
use crate::generic_sudoku::session::PlaySession;
use crate::multi_sudoku::look::CellContent;
use crate::text::{names, decimal, push_decimal};

verus! {

/// Number of board colours that tints cycle through.
pub const BOARD_COLOR_COUNT: usize = 8;

/// The boards listed for grid cell (gr, gc) of a session.
pub open spec fn owners_at(s: PlaySession, gr: int, gc: int) -> Seq<usize> {
    listed_owners(s.current.overlap_info.table(), gr / 3, gc / 3)
}

/// Board `x` (placed at `p`) covers both cells and, on it, they share a
/// row, a column or a box.
pub open spec fn same_unit_at(p: BoardPlacement, sr: int, sc: int, gr: int, gc: int) -> bool {
    let (slr, slc) = (sr - 3 * p.meta_row, sc - 3 * p.meta_col);
    let (clr, clc) = (gr - 3 * p.meta_row, gc - 3 * p.meta_col);
    slr == clr || slc == clc || (slr / 3 == clr / 3 && slc / 3 == clc / 3)
}

/// The selected cell and (gr, gc) share a board and, on it, a row, a
/// column or a box.
pub open spec fn highlighted_at(s: PlaySession, gr: int, gc: int) -> bool {
    match s.selected {
        Some((sr, sc)) => exists|x: usize|
            owners_at(s, sr as int, sc as int).contains(x) && #[trigger] owners_at(s, gr, gc).contains(x)
                && same_unit_at(s.config.boards@[x as int], sr as int, sc as int, gr, gc),
        None => false,
    }
}

/// The edge classes one board adds at local cell (lr, lc): box ends inside
/// the board, the board's last row and column, and its first ones.
pub open spec fn edge_classes(lr: int, lc: int) -> Seq<Seq<char>> {
    let a = if lc % 3 == 2 && lc != 8 {
        seq!["border-right"@]
    } else {
        Seq::empty()
    };
    let b = if lr % 3 == 2 && lr != 8 {
        a.push("border-bottom"@)
    } else {
        a
    };
    let c = if lc == 8 {
        b.push("border-right"@)
    } else {
        b
    };
    let d = if lr == 8 {
        c.push("border-bottom"@)
    } else {
        c
    };
    let e = if lc == 0 {
        d.push("border-left-thick"@)
    } else {
        d
    };
    if lr == 0 {
        e.push("border-top-thick"@)
    } else {
        e
    }
}

/// The edge classes of the boards `o` (in order) at grid cell (gr, gc).
pub open spec fn owner_edges(pl: Seq<BoardPlacement>, o: Seq<usize>, gr: int, gc: int) -> Seq<Seq<char>>
    decreases o.len(),
{
    if o.len() == 0 {
        Seq::empty()
    } else {
        let p = pl[o.last() as int];
        owner_edges(pl, o.drop_last(), gr, gc) + edge_classes(gr - 3 * p.meta_row, gc - 3 * p.meta_col)
    }
}

/// What grid cell (gr, gc) shows.
pub open spec fn content_at(s: PlaySession, gr: int, gc: int) -> CellContent {
    let pv = gvalue(s.puzzle, gr, gc);
    let cv = gvalue(s.current, gr, gc);
    if pv != 0 {
        CellContent::Given(pv)
    } else if cv != 0 {
        if cv != gvalue(s.solution, gr, gc) {
            CellContent::Error(cv)
        } else {
            CellContent::User(cv)
        }
    } else {
        CellContent::Empty
    }
}

/// The style classes of grid cell (gr, gc): "cell-spacer" for a cell on no
/// board; else "cell", then "selected" or else "highlighted", "overlap",
/// the edges each covering board adds, and what it shows.
pub open spec fn classes_at(s: PlaySession, gr: int, gc: int) -> Seq<Seq<char>> {
    if !gactive(s.current, gr, gc) {
        seq!["cell-spacer"@]
    } else {
        let a = seq!["cell"@];
        let b = if s.selected == Some((gr as usize, gc as usize)) {
            a.push("selected"@)
        } else if highlighted_at(s, gr, gc) {
            a.push("highlighted"@)
        } else {
            a
        };
        let c = if owners_at(s, gr, gc).len() > 1 {
            b.push("overlap"@)
        } else {
            b
        };
        (c + owner_edges(s.config.boards@, owners_at(s, gr, gc), gr, gc)).push(
            match content_at(s, gr, gc) {
                CellContent::Given(_) => "given"@,
                CellContent::Error(_) => "error"@,
                CellContent::User(_) => "user"@,
                CellContent::Empty => "empty"@,
            },
        )
    }
}

/// What grid cell (gr, gc) shows.
pub fn cell_content(s: &PlaySession, gr: usize, gc: usize) -> (c: CellContent)
    requires
        s.wf(),
    ensures
        c == content_at(*s, gr as int, gc as int),
{
    let pv = s.puzzle.get(gr, gc);
    let cv = s.current.get(gr, gc);
    let sv = s.solution.get(gr, gc);
    if pv != 0 {
        CellContent::Given(pv)
    } else if cv != 0 {
        if cv != sv {
            CellContent::Error(cv)
        } else {
            CellContent::User(cv)
        }
    } else {
        CellContent::Empty
    }
}

/// The local cell of grid cell (gr, gc) on a board listed for it.
fn local_of(s: &PlaySession, x: usize, gr: usize, gc: usize) -> (l: (usize, usize))
    requires
        s.wf(),
        owners_at(*s, gr as int, gc as int).contains(x),
    ensures
        (x as int) < s.config.boards@.len(),
        l.0 == gr - 3 * s.config.boards@[x as int].meta_row,
        l.1 == gc - 3 * s.config.boards@[x as int].meta_col,
        l.0 < 9,
        l.1 < 9,
{
    proof {
        lemma_owners_valid(s.current.config.boards@, gr as int, gc as int);
        let o = owners_at(*s, gr as int, gc as int);
        let j = choose|j: int| 0 <= j < o.len() && o[j] == x;
        assert(o[j] == x);
    }
    let p = s.config.boards[x];
    (gr - 3 * p.meta_row, gc - 3 * p.meta_col)
}

/// The style classes of grid cell (gr, gc), in order.
pub fn cell_classes(s: &PlaySession, gr: usize, gc: usize) -> (v: Vec<&'static str>)
    requires
        s.wf(),
    ensures
        names(v@) == classes_at(*s, gr as int, gc as int),
{
    let mut v: Vec<&'static str> = Vec::new();
    if !s.current.is_active(gr, gc) {
        v.push("cell-spacer");
        assert(names(v@) =~= classes_at(*s, gr as int, gc as int));
        return v;
    }
    let owners = s.current.owning_boards(gr, gc);
    v.push("cell");
    let selected = match s.selected {
        Some((sr, sc)) => sr == gr && sc == gc,
        None => false,
    };
    if selected {
        v.push("selected");
    } else {
        let mut highlighted = false;
        match s.selected {
            Some((sr, sc)) => {
                let sel_owners = s.current.owning_boards(sr, sc);
                let mut i: usize = 0;
                while i < sel_owners.len() && !highlighted
                    invariant
                        s.wf(),
                        i <= sel_owners@.len(),
                        sel_owners@ == owners_at(*s, sr as int, sc as int),
                        owners@ == owners_at(*s, gr as int, gc as int),
                        s.selected == Some((sr, sc)),
                        highlighted ==> highlighted_at(*s, gr as int, gc as int),
                        !highlighted ==> forall|k: int|
                            0 <= k < i ==> !(#[trigger] owners@.contains(sel_owners@[k]) && same_unit_at(
                                s.config.boards@[sel_owners@[k] as int],
                                sr as int,
                                sc as int,
                                gr as int,
                                gc as int,
                            )),
                    decreases sel_owners@.len() - i,
                {
                    let x = sel_owners[i];
                    let mut found = false;
                    let mut k: usize = 0;
                    while k < owners.len()
                        invariant
                            k <= owners@.len(),
                            found == exists|m: int| 0 <= m < k && owners@[m] == x,
                        decreases owners@.len() - k,
                    {
                        if owners[k] == x {
                            found = true;
                        }
                        k += 1;
                    }
                    if found {
                        proof {
                            assert(sel_owners@.contains(x)) by {
                                assert(sel_owners@[i as int] == x);
                            }
                        }
                        let (slr, slc) = local_of(s, x, sr, sc);
                        let (clr, clc) = local_of(s, x, gr, gc);
                        if slr == clr || slc == clc || (slr / 3 == clr / 3 && slc / 3 == clc / 3) {
                            highlighted = true;
                            proof {
                                let m = choose|m: int| 0 <= m < k && owners@[m] == x;
                                assert(owners@[m] == x);
                                assert(owners_at(*s, gr as int, gc as int).contains(x));
                                assert(same_unit_at(s.config.boards@[x as int], sr as int, sc as int, gr as int, gc as int));
                            }
                        }
                    }
                    i += 1;
                }
                proof {
                    if !highlighted {
                        assert forall|x: usize|
                            owners_at(*s, sr as int, sc as int).contains(x) && #[trigger] owners_at(
                                *s,
                                gr as int,
                                gc as int,
                            ).contains(x) implies !same_unit_at(
                            s.config.boards@[x as int],
                            sr as int,
                            sc as int,
                            gr as int,
                            gc as int,
                        ) by {
                            let k = choose|k: int| 0 <= k < sel_owners@.len() && sel_owners@[k] == x;
                            assert(sel_owners@[k] == x);
                        }
                    }
                }
            },
            None => {},
        }
        if highlighted {
            v.push("highlighted");
        }
    }
    if owners.len() > 1 {
        v.push("overlap");
    }
    let ghost base = v@;
    let mut j: usize = 0;
    while j < owners.len()
        invariant
            s.wf(),
            j <= owners@.len(),
            owners@ == owners_at(*s, gr as int, gc as int),
            names(v@) == names(base) + owner_edges(s.config.boards@, owners@.subrange(0, j as int), gr as int, gc as int),
        decreases owners@.len() - j,
    {
        let x = owners[j];
        proof {
            assert(owners@.contains(x)) by {
                assert(owners@[j as int] == x);
            }
        }
        let (lr, lc) = local_of(s, x, gr, gc);
        let ghost before = v@;
        if lc % 3 == 2 && lc != 8 {
            v.push("border-right");
        }
        if lr % 3 == 2 && lr != 8 {
            v.push("border-bottom");
        }
        if lc == 8 {
            v.push("border-right");
        }
        if lr == 8 {
            v.push("border-bottom");
        }
        if lc == 0 {
            v.push("border-left-thick");
        }
        if lr == 0 {
            v.push("border-top-thick");
        }
        proof {
            assert(names(v@) =~= names(before) + edge_classes(lr as int, lc as int));
            let o2 = owners@.subrange(0, j + 1);
            assert(o2.drop_last() =~= owners@.subrange(0, j as int));
            assert(o2.last() == x);
            assert(names(v@) =~= names(base) + owner_edges(s.config.boards@, o2, gr as int, gc as int));
        }
        j += 1;
    }
    proof {
        assert(owners@.subrange(0, owners@.len() as int) =~= owners@);
    }
    let last = match cell_content(s, gr, gc) {
        CellContent::Given(_) => "given",
        CellContent::Error(_) => "error",
        CellContent::User(_) => "user",
        CellContent::Empty => "empty",
    };
    let ghost before_last = v@;
    v.push(last);
    assert(names(v@) =~= names(before_last).push(last@));
    assert(names(v@) =~= classes_at(*s, gr as int, gc as int));
    v
}

/// Index of the tint colour of grid cell (gr, gc): its first covering
/// board's, cycling through the board colours; None on no board.
pub fn tint_index(s: &PlaySession, gr: usize, gc: usize) -> (t: Option<usize>)
    ensures
        t == if owners_at(*s, gr as int, gc as int).len() > 0 {
            Some((owners_at(*s, gr as int, gc as int)[0] % 8) as usize)
        } else {
            None::<usize>
        },
{
    let owners = s.current.owning_boards(gr, gc);
    if owners.len() > 0 {
        Some(owners[0] % BOARD_COLOR_COUNT)
    } else {
        None
    }
}

/// Label of a meta-cell on the layout editor: the numbers, counted from 1,
/// of the boards covering it, joined by "+"; empty where no board does.
pub open spec fn owners_label(owners: Seq<usize>) -> Seq<char>
    decreases owners.len(),
{
    if owners.len() == 0 {
        Seq::empty()
    } else if owners.len() == 1 {
        decimal((owners[0] + 1) as nat)
    } else {
        owners_label(owners.drop_last()) + seq!['+'] + decimal((owners.last() + 1) as nat)
    }
}

/// The layout editor's label of a meta-cell covered by `owners`.
pub fn meta_cell_label(owners: &Vec<usize>) -> (s: String)
    requires
        forall|i: int| 0 <= i < owners@.len() ==> #[trigger] owners@[i] < u64::MAX,
    ensures
        s@ == owners_label(owners@),
{
    let mut s = String::new();
    proof {
        assert(s@ =~= owners_label(owners@.subrange(0, 0)));
    }
    let mut i: usize = 0;
    while i < owners.len()
        invariant
            i <= owners@.len(),
            forall|k: int| 0 <= k < owners@.len() ==> #[trigger] owners@[k] < u64::MAX,
            s@ == owners_label(owners@.subrange(0, i as int)),
        decreases owners@.len() - i,
    {
        if i > 0 {
            s.append("+");
            proof {
                reveal_strlit("+");
            }
        }
        let o = owners[i] as u64;
        push_decimal(&mut s, o + 1);
        proof {
            let sub = owners@.subrange(0, i + 1);
            assert(sub.drop_last() =~= owners@.subrange(0, i as int));
            assert(sub.last() == owners@[i as int]);
            if i == 0 {
                assert(s@ =~= owners_label(sub));
            } else {
                assert(s@ =~= owners_label(sub));
            }
        }
        i += 1;
    }
    proof {
        assert(owners@.subrange(0, owners@.len() as int) =~= owners@);
    }
    s
}

/// Index of the colour of a meta-cell on the layout editor: its first
/// covering board's, cycling through the board colours; None on no board.
pub fn meta_cell_tint(owners: &Vec<usize>) -> (t: Option<usize>)
    ensures
        t == if owners@.len() > 0 {
            Some((owners@[0] % 8) as usize)
        } else {
            None::<usize>
        },
{
    if owners.len() > 0 {
        Some(owners[0] % BOARD_COLOR_COUNT)
    } else {
        None
    }
}

/// Font size, in pixels, of a cell drawn `cell_size` pixels wide.
pub fn font_size(cell_size: usize) -> (f: u32)
    ensures
        f == if cell_size < 32 {
            14u32
        } else {
            16u32
        },
{
    if cell_size < 32 {
        14
    } else {
        16
    }
}

} // verus!
