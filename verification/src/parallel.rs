use vstd::prelude::*;
use crate::sudoku::{Puzzle, allowed, full_digits, in_grid};
use crate::sequential::{before, completable, completes, put, unique_in_units};
use crate::utils::is_square;

verus! {

/// Every cell of `g` before (`row`, `clm`) is decided.
pub open spec fn decided_before(g: Seq<Seq<usize>>, row: int, clm: int) -> bool {
    forall|r: int, c: int| in_grid(r, c) && before(r, c, row, clm) ==> #[trigger] g[r][c] != 0
}

/// The cell to branch on: the undecided cell with the most candidates, the first one in
/// row-major order among equals, with its candidates. Where every cell is decided there is
/// none: the candidates are empty.
pub fn pick_cell(puzzle: &Puzzle) -> (res: (usize, usize, Vec<usize>))
    requires
        puzzle.wf(),
    ensures
        res.2@.len() == 0 <==> decided_before(puzzle@, 9, 0),
        res.2@.len() == 0 ==> res.0 == 0 && res.1 == 0,
        res.2@.len() != 0 ==> {
            &&& in_grid(res.0 as int, res.1 as int)
            &&& puzzle@[res.0 as int][res.1 as int] == 0
            &&& decided_before(puzzle@, res.0 as int, res.1 as int)
            &&& res.2@.to_set() == full_digits()
            &&& res.2@.no_duplicates()
        },
{
    let mut row: usize = 0;
    let mut clm: usize = 0;
    let mut candidates: Vec<usize> = Vec::new();
    let mut r: usize = 0;
    while r < 9 && candidates.len() < 9
        invariant
            puzzle.wf(),
            r <= 9,
            candidates@.len() == 0 || candidates@.len() == 9,
            candidates@.len() == 0 ==> row == 0 && clm == 0 && decided_before(puzzle@, r as int, 0),
            candidates@.len() == 9 ==> {
                &&& in_grid(row as int, clm as int)
                &&& puzzle@[row as int][clm as int] == 0
                &&& decided_before(puzzle@, row as int, clm as int)
                &&& candidates@.to_set() == full_digits()
                &&& candidates@.no_duplicates()
            },
        decreases 9 - r,
    {
        let mut c: usize = 0;
        while c < 9 && candidates.len() < 9
            invariant
                puzzle.wf(),
                r < 9,
                c <= 9,
                candidates@.len() == 0 || candidates@.len() == 9,
                candidates@.len() == 0 ==> row == 0 && clm == 0 && decided_before(puzzle@, r as int, c as int),
                candidates@.len() == 9 ==> {
                    &&& in_grid(row as int, clm as int)
                    &&& puzzle@[row as int][clm as int] == 0
                    &&& decided_before(puzzle@, row as int, clm as int)
                    &&& candidates@.to_set() == full_digits()
                    &&& candidates@.no_duplicates()
                },
            decreases 9 - c,
        {
            let local_candidates = puzzle.get(r, c);
            if local_candidates.len() != 1 {
                if local_candidates.len() > candidates.len() {
                    candidates = local_candidates;
                    row = r;
                    clm = c;
                }
            }
            c = c + 1;
        }
        r = r + 1;
    }
    (row, clm, candidates)
}

/// A copy of `puzzle` with (`row`, `clm`) decided on `num`.
pub fn branch(puzzle: &Puzzle, row: usize, clm: usize, num: usize) -> (res: Puzzle)
    requires
        puzzle.wf(),
        row < 9,
        clm < 9,
    ensures
        res.wf(),
        res@ == put(puzzle@, row as int, clm as int, num),
{
    let mut copy = puzzle.clone();
    copy.set_at(row, clm, num);
    copy
}

/// Solves one branch: whether `puzzle` can be completed, and if so it is now completed.
pub fn try_fill(puzzle: &mut Puzzle) -> (res: bool)
    requires
        old(puzzle).wf(),
    ensures
        final(puzzle).wf(),
        res == completable(old(puzzle)@, 0, 0),
        res ==> completes(old(puzzle)@, final(puzzle)@, 0, 0),
        !res ==> final(puzzle)@ == old(puzzle)@,
{
    crate::sequential::solve(puzzle, 0, 0)
}

/// If a board can be completed, then for any of its undecided cells some digit from 1 to 9,
/// decided there, leaves a board that can be completed: among the branches on that cell,
/// at least one succeeds.
pub proof fn lemma_some_branch_completes(g: Seq<Seq<usize>>, row: int, clm: int)
    requires
        is_square(g, 9),
        in_grid(row, clm),
        g[row][clm] == 0,
        completable(g, 0, 0),
    ensures
        exists|num: usize| 1 <= num <= 9 && #[trigger] completable(put(g, row, clm, num), 0, 0),
{
    let h = choose|h: Seq<Seq<usize>>| completes(g, h, 0, 0);
    let num = h[row][clm];
    let g2 = put(g, row, clm, num);
    assert(!before(row, clm, 0, 0));
    assert(1 <= num <= 9);
    assert forall|r: int, c: int|
        in_grid(r, c) && (before(r, c, 0, 0) || g2[r][c] != 0) implies #[trigger] h[r][c] == g2[r][c] by {
        if r != row || c != clm {
            assert(g2[r][c] == g[r][c]);
        }
    }
    assert forall|r: int, c: int|
        in_grid(r, c) && !before(r, c, 0, 0) && g2[r][c] == 0 implies {
            &&& 1 <= #[trigger] h[r][c] <= 9
            &&& unique_in_units(h, r, c)
        } by {
        assert(g2[r][c] == g[r][c]);
    }
    assert(completes(g2, h, 0, 0));
    assert(completable(g2, 0, 0));
}

/// A completed branch whose digit was allowed in its cell is a completion of the board itself.
pub proof fn lemma_branch_sound(g: Seq<Seq<usize>>, h: Seq<Seq<usize>>, row: int, clm: int, num: usize)
    requires
        is_square(g, 9),
        in_grid(row, clm),
        g[row][clm] == 0,
        1 <= num <= 9,
        allowed(g, row, clm, num),
        completes(put(g, row, clm, num), h, 0, 0),
    ensures
        completes(g, h, 0, 0),
{
    let g2 = put(g, row, clm, num);
    assert(h[row][clm] == num);
    assert forall|r: int, c: int|
        in_grid(r, c) && (before(r, c, 0, 0) || g[r][c] != 0) implies #[trigger] h[r][c] == g[r][c] by {
        assert(g2[r][c] == g[r][c]);
    }
    assert forall|r: int, c: int|
        in_grid(r, c) && !before(r, c, 0, 0) && g[r][c] == 0 implies {
            &&& 1 <= #[trigger] h[r][c] <= 9
            &&& unique_in_units(h, r, c)
        } by {
        if r == row && c == clm {
            assert forall|r2: int, c2: int|
                in_grid(r2, c2) && crate::sudoku::same_unit(r, c, r2, c2) && (r2 != r || c2 != c) implies
                    #[trigger] h[r2][c2] != h[r][c] by {
                assert(g2[r2][c2] == g[r2][c2]);
                if g2[r2][c2] != 0 {
                    assert(h[r2][c2] == g[r2][c2]);
                    assert(!(g[r2][c2] == num && num != 0));
                } else {
                    assert(unique_in_units(h, r2, c2));
                    assert(crate::sudoku::same_unit(r2, c2, r, c));
                }
            }
        } else {
            assert(g2[r][c] == g[r][c]);
            assert(unique_in_units(h, r, c));
        }
    }
}

} // verus!
