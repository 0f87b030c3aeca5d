use vstd::prelude::*;
use crate::sudoku::session::{SudokuSession, mark};
use crate::text::names;

verus! {

/// What a cell shows: a given digit, a digit entered (wrong or right), pencil
/// marks, or nothing.
#[derive(Clone, Copy, Debug, PartialEq, Eq, Structural)]
pub enum CellContent {
    Given(u8),
    Error(u8),
    User(u8),
    Marks(u16),
    Empty,
}

/// How a cell of the board is drawn.
#[derive(Clone, Copy, Debug, PartialEq, Eq, Structural)]
pub struct CellLook {
    pub selected: bool,
    /// In the row, column or box of the selected cell.
    pub highlighted: bool,
    /// A thick line after the cell, inside the board, at a box edge.
    pub border_right: bool,
    pub border_bottom: bool,
    pub content: CellContent,
}

/// How cell (r, c) of a session is drawn.
pub open spec fn look_of(s: SudokuSession, r: int, c: int) -> CellLook {
    let pv = s.puzzle@[r][c];
    let cv = s.current@[r][c];
    CellLook {
        selected: s.selected == Some((r as usize, c as usize)),
        highlighted: match s.selected {
            Some((sr, sc)) => r == sr || c == sc || (r / 3 == sr / 3 && c / 3 == sc / 3),
            None => false,
        },
        border_right: c % 3 == 2 && c != 8,
        border_bottom: r % 3 == 2 && r != 8,
        content: if pv != 0 {
            CellContent::Given(pv)
        } else if cv != 0 {
            if cv != s.solution@[r][c] {
                CellContent::Error(cv)
            } else {
                CellContent::User(cv)
            }
        } else if mark(s.hints, r, c) != 0 {
            CellContent::Marks(mark(s.hints, r, c))
        } else {
            CellContent::Empty
        },
    }
}

/// How cell (r, c) is drawn.
pub fn cell_look(s: &SudokuSession, r: usize, c: usize) -> (l: CellLook)
    requires
        r < 9,
        c < 9,
    ensures
        l == look_of(*s, r as int, c as int),
{
    let pv = s.puzzle.get(r, c);
    let cv = s.current.get(r, c);
    let sv = s.solution.get(r, c);
    let selected = match s.selected {
        Some((sr, sc)) => sr == r && sc == c,
        None => false,
    };
    let highlighted = match s.selected {
        Some((sr, sc)) => r == sr || c == sc || (r / 3 == sr / 3 && c / 3 == sc / 3),
        None => false,
    };
    let content = if pv != 0 {
        CellContent::Given(pv)
    } else if cv != 0 {
        if cv != sv {
            CellContent::Error(cv)
        } else {
            CellContent::User(cv)
        }
    } else if s.hints[r][c] != 0 {
        CellContent::Marks(s.hints[r][c])
    } else {
        CellContent::Empty
    };
    CellLook {
        selected,
        highlighted,
        border_right: c % 3 == 2 && c != 8,
        border_bottom: r % 3 == 2 && r != 8,
        content,
    }
}

/// The style classes of a cell: "cell", then "selected" or else
/// "highlighted", the box borders, and what it shows.
pub open spec fn classes_of(l: CellLook) -> Seq<Seq<char>> {
    let a = seq!["cell"@];
    let b = if l.selected {
        a.push("selected"@)
    } else if l.highlighted {
        a.push("highlighted"@)
    } else {
        a
    };
    let c = if l.border_right {
        b.push("border-right"@)
    } else {
        b
    };
    let d = if l.border_bottom {
        c.push("border-bottom"@)
    } else {
        c
    };
    d.push(
        match l.content {
            CellContent::Given(_) => "given"@,
            CellContent::Error(_) => "error"@,
            CellContent::User(_) => "user"@,
            CellContent::Marks(_) => "hints"@,
            CellContent::Empty => "empty"@,
        },
    )
}

/// The style classes of a cell, in order.
pub fn cell_classes(l: CellLook) -> (v: Vec<&'static str>)
    ensures
        names(v@) == classes_of(l),
{
    let mut v: Vec<&'static str> = Vec::new();
    v.push("cell");
    if l.selected {
        v.push("selected");
    } else if l.highlighted {
        v.push("highlighted");
    }
    if l.border_right {
        v.push("border-right");
    }
    if l.border_bottom {
        v.push("border-bottom");
    }
    let last = match l.content {
        CellContent::Given(_) => "given",
        CellContent::Error(_) => "error",
        CellContent::User(_) => "user",
        CellContent::Marks(_) => "hints",
        CellContent::Empty => "empty",
    };
    v.push(last);
    assert(names(v@) =~= classes_of(l));
    v
}

/// Digit `n` is noted in the pencil marks `mask`.
pub open spec fn noted(mask: u16, n: u8) -> bool {
    (mask >> n) & 1 == 1
}

/// True iff digit `n` (1..=9) is noted in the pencil marks `mask`.
pub fn is_noted(mask: u16, n: u8) -> (b: bool)
    requires
        1 <= n <= 9,
    ensures
        b == noted(mask, n),
{
    (mask >> n) & 1 == 1
}

/// Noting a digit flips whether it is noted and leaves the other digits
/// as they were; noting it again restores the marks.
pub proof fn lemma_toggle_mark(mask: u16, n: u8, k: u8)
    requires
        1 <= n <= 9,
        1 <= k <= 9,
    ensures
        noted(mask ^ (1u16 << n), n) == !noted(mask, n),
        k != n ==> noted(mask ^ (1u16 << n), k) == noted(mask, k),
        (mask ^ (1u16 << n)) ^ (1u16 << n) == mask,
{
    assert(noted(mask ^ (1u16 << n), n) == !noted(mask, n)) by (bit_vector)
        requires
            1 <= n <= 9,
    ;
    assert(k != n ==> noted(mask ^ (1u16 << n), k) == noted(mask, k)) by (bit_vector)
        requires
            1 <= n <= 9,
            1 <= k <= 9,
    ;
    assert((mask ^ (1u16 << n)) ^ (1u16 << n) == mask) by (bit_vector);
}

} // verus!
