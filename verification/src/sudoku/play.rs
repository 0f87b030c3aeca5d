use vstd::prelude::*;
use crate::sudoku::board::Board;

verus! {

/// Number of filled cells among the first `k` (row-major) of `cur` that
/// differ from `sol`.
pub open spec fn wrong_upto(cur: Seq<Seq<u8>>, sol: Seq<Seq<u8>>, k: int) -> nat
    decreases k,
{
    if k <= 0 {
        0
    } else {
        let r = (k - 1) / 9;
        let c = (k - 1) % 9;
        wrong_upto(cur, sol, k - 1) + if cur[r][c] != 0 && cur[r][c] != sol[r][c] {
            1nat
        } else {
            0nat
        }
    }
}

/// Number of empty cells among the first `k` (row-major).
pub open spec fn blank_upto(cur: Seq<Seq<u8>>, k: int) -> nat
    decreases k,
{
    if k <= 0 {
        0
    } else {
        let r = (k - 1) / 9;
        let c = (k - 1) % 9;
        blank_upto(cur, k - 1) + if cur[r][c] == 0 {
            1nat
        } else {
            0nat
        }
    }
}

/// The row-major indices below `k` of the cells (row `i / 9`, column
/// `i % 9`) where `cur` holds a digit other than the one `sol` holds.
pub open spec fn wrong_cells(cur: Seq<Seq<u8>>, sol: Seq<Seq<u8>>, k: int) -> Set<int> {
    Set::new(|i: int| 0 <= i < k && cur[i / 9][i % 9] != 0 && cur[i / 9][i % 9] != sol[i / 9][i % 9])
}

proof fn lemma_wrong_upto_counts(cur: Seq<Seq<u8>>, sol: Seq<Seq<u8>>, k: int)
    requires
        k >= 0,
    ensures
        wrong_cells(cur, sol, k).finite(),
        wrong_upto(cur, sol, k) == wrong_cells(cur, sol, k).len(),
    decreases k,
{
    if k == 0 {
        assert(wrong_cells(cur, sol, 0) =~= Set::<int>::empty());
    } else {
        lemma_wrong_upto_counts(cur, sol, k - 1);
        let prev = wrong_cells(cur, sol, k - 1);
        let i = k - 1;
        if cur[i / 9][i % 9] != 0 && cur[i / 9][i % 9] != sol[i / 9][i % 9] {
            assert(wrong_cells(cur, sol, k) =~= prev.insert(i));
            assert(!prev.contains(i));
        } else {
            assert(wrong_cells(cur, sol, k) =~= prev);
        }
    }
}

/// The error count of a board is the number of its cells, over the whole
/// grid (every row and column), that hold a digit differing from the
/// solution's digit there.
pub proof fn lemma_errors_are_wrong_cells(cur: Seq<Seq<u8>>, sol: Seq<Seq<u8>>)
    ensures
        wrong_cells(cur, sol, 81).finite(),
        wrong_upto(cur, sol, 81) == wrong_cells(cur, sol, 81).len(),
{
    lemma_wrong_upto_counts(cur, sol, 81);
}

/// The row-major indices below `k` of the empty cells of `cur`.
pub open spec fn blank_cells(cur: Seq<Seq<u8>>, k: int) -> Set<int> {
    Set::new(|i: int| 0 <= i < k && cur[i / 9][i % 9] == 0)
}

proof fn lemma_blank_upto_counts(cur: Seq<Seq<u8>>, k: int)
    requires
        k >= 0,
    ensures
        blank_cells(cur, k).finite(),
        blank_upto(cur, k) == blank_cells(cur, k).len(),
    decreases k,
{
    if k == 0 {
        assert(blank_cells(cur, 0) =~= Set::<int>::empty());
    } else {
        lemma_blank_upto_counts(cur, k - 1);
        let prev = blank_cells(cur, k - 1);
        let i = k - 1;
        if cur[i / 9][i % 9] == 0 {
            assert(blank_cells(cur, k) =~= prev.insert(i));
            assert(!prev.contains(i));
        } else {
            assert(blank_cells(cur, k) =~= prev);
        }
    }
}

/// The blank count of a board is the number of its empty cells over the
/// whole grid.
pub proof fn lemma_blanks_are_empty_cells(cur: Seq<Seq<u8>>)
    ensures
        blank_cells(cur, 81).finite(),
        blank_upto(cur, 81) == blank_cells(cur, 81).len(),
{
    lemma_blank_upto_counts(cur, 81);
}

/// Number of filled cells of `current` that differ from `solution`.
pub fn error_count(current: &Board, solution: &Board) -> (n: usize)
    ensures
        n == wrong_upto(current@, solution@, 81),
{
    let mut count: usize = 0;
    let mut r: usize = 0;
    while r < 9
        invariant
            r <= 9,
            count == wrong_upto(current@, solution@, (r * 9) as int),
            count <= r * 9,
        decreases 9 - r,
    {
        let mut c: usize = 0;
        while c < 9
            invariant
                r < 9,
                c <= 9,
                count == wrong_upto(current@, solution@, (r * 9 + c) as int),
                count <= r * 9 + c,
            decreases 9 - c,
        {
            assert((r * 9 + c) / 9 == r && (r * 9 + c) % 9 == c) by (nonlinear_arith)
                requires
                    c < 9,
            ;
            let v = current.get(r, c);
            if v != 0 && v != solution.get(r, c) {
                count += 1;
            }
            c += 1;
        }
        r += 1;
    }
    count
}

/// Number of empty cells of `current`.
pub fn empty_count(current: &Board) -> (n: usize)
    ensures
        n == blank_upto(current@, 81),
{
    let mut count: usize = 0;
    let mut r: usize = 0;
    while r < 9
        invariant
            r <= 9,
            count == blank_upto(current@, (r * 9) as int),
            count <= r * 9,
        decreases 9 - r,
    {
        let mut c: usize = 0;
        while c < 9
            invariant
                r < 9,
                c <= 9,
                count == blank_upto(current@, (r * 9 + c) as int),
                count <= r * 9 + c,
            decreases 9 - c,
        {
            assert((r * 9 + c) / 9 == r && (r * 9 + c) % 9 == c) by (nonlinear_arith)
                requires
                    c < 9,
            ;
            if current.is_empty(r, c) {
                count += 1;
            }
            c += 1;
        }
        r += 1;
    }
    count
}

} // verus!
