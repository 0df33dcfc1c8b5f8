use vstd::prelude::*;
use crate::sudoku::{Puzzle, allowed, in_grid, same_unit};
use crate::utils::is_square;

verus! {

/// Cell (`r`, `c`) comes before (`row`, `clm`) in row-major order.
pub open spec fn before(r: int, c: int, row: int, clm: int) -> bool {
    r < row || (r == row && c < clm)
}

/// The grid `g` with the value `v` in (`r`, `c`).
pub open spec fn put(g: Seq<Seq<usize>>, r: int, c: int, v: usize) -> Seq<Seq<usize>> {
    g.update(r, g[r].update(c, v))
}

/// The cell that follows (`row`, `clm`) in row-major order.
pub open spec fn next_cell(row: int, clm: int) -> (int, int) {
    if clm == 8 {
        (row + 1, 0)
    } else {
        (row, clm + 1)
    }
}

/// Cell (`r`, `c`) of `h` differs from every other cell of its row, column and box.
pub open spec fn unique_in_units(h: Seq<Seq<usize>>, r: int, c: int) -> bool {
    forall|r2: int, c2: int|
        in_grid(r2, c2) && same_unit(r, c, r2, c2) && (r2 != r || c2 != c) ==> #[trigger] h[r2][c2] != h[r][c]
}

/// `h` completes `g` from (`row`, `clm`) on: it keeps every cell before (`row`, `clm`) and
/// every decided cell, and gives each undecided cell from (`row`, `clm`) on a digit from 1 to 9
/// that no other cell of its row, column or box holds in `h`.
pub open spec fn completes(g: Seq<Seq<usize>>, h: Seq<Seq<usize>>, row: int, clm: int) -> bool {
    &&& is_square(h, 9)
    &&& forall|r: int, c: int|
        in_grid(r, c) && (before(r, c, row, clm) || g[r][c] != 0) ==> #[trigger] h[r][c] == g[r][c]
    &&& forall|r: int, c: int|
        in_grid(r, c) && !before(r, c, row, clm) && g[r][c] == 0 ==> {
            &&& 1 <= #[trigger] h[r][c] <= 9
            &&& unique_in_units(h, r, c)
        }
}

/// Some grid completes `g` from (`row`, `clm`) on.
pub open spec fn completable(g: Seq<Seq<usize>>, row: int, clm: int) -> bool {
    exists|h: Seq<Seq<usize>>| completes(g, h, row, clm)
}

/// Past the last row there is nothing to fill: `g` completes itself.
proof fn lemma_end(g: Seq<Seq<usize>>, clm: int)
    requires
        is_square(g, 9),
    ensures
        completes(g, g, 9, clm),
{
}

/// From a decided cell, completing from it and from the next cell are the same.
proof fn lemma_decided(g: Seq<Seq<usize>>, row: int, clm: int)
    requires
        is_square(g, 9),
        in_grid(row, clm),
        g[row][clm] != 0,
    ensures
        forall|h: Seq<Seq<usize>>|
            completes(g, h, row, clm) <==> completes(g, h, next_cell(row, clm).0, next_cell(row, clm).1),
{
    let (nr, nc) = next_cell(row, clm);
    assert forall|h: Seq<Seq<usize>>| completes(g, h, row, clm) implies completes(g, h, nr, nc) by {
        assert forall|r: int, c: int|
            in_grid(r, c) && (before(r, c, nr, nc) || g[r][c] != 0) implies #[trigger] h[r][c] == g[r][c] by {
            if !before(r, c, row, clm) && g[r][c] == 0 {
                assert(before(r, c, nr, nc));
                assert(r == row && c == clm);
            }
        }
    }
    assert forall|h: Seq<Seq<usize>>| completes(g, h, nr, nc) implies completes(g, h, row, clm) by {
        assert forall|r: int, c: int|
            in_grid(r, c) && !before(r, c, row, clm) && g[r][c] == 0 implies {
                &&& 1 <= #[trigger] h[r][c] <= 9
                &&& unique_in_units(h, r, c)
            } by {
            assert(!before(r, c, nr, nc));
        }
    }
}

/// A completion that puts `n` in an undecided cell also completes the grid with `n`
/// decided there, from the next cell on; and `n` was allowed there.
proof fn lemma_restrict(g: Seq<Seq<usize>>, h: Seq<Seq<usize>>, row: int, clm: int)
    requires
        is_square(g, 9),
        in_grid(row, clm),
        g[row][clm] == 0,
        completes(g, h, row, clm),
    ensures
        1 <= h[row][clm] <= 9,
        allowed(g, row, clm, h[row][clm]),
        completes(put(g, row, clm, h[row][clm]), h, next_cell(row, clm).0, next_cell(row, clm).1),
{
    let n = h[row][clm];
    let (nr, nc) = next_cell(row, clm);
    let g2 = put(g, row, clm, n);
    assert(1 <= h[row][clm] <= 9);
    assert(unique_in_units(h, row, clm));
    assert forall|r: int, c: int| in_grid(r, c) && same_unit(row, clm, r, c) implies !(#[trigger] g[r][c] == n && n != 0) by {
        if r != row || c != clm {
            if before(r, c, row, clm) || g[r][c] != 0 {
                assert(h[r][c] == g[r][c]);
                assert(h[r][c] != h[row][clm]);
            }
        }
    }
    assert forall|r: int, c: int|
        in_grid(r, c) && (before(r, c, nr, nc) || g2[r][c] != 0) implies #[trigger] h[r][c] == g2[r][c] by {
        if r == row && c == clm {
        } else {
            assert(g2[r][c] == g[r][c]);
            if !before(r, c, row, clm) && g[r][c] == 0 {
                assert(before(r, c, nr, nc));
            }
        }
    }
    assert forall|r: int, c: int|
        in_grid(r, c) && !before(r, c, nr, nc) && g2[r][c] == 0 implies {
            &&& 1 <= #[trigger] h[r][c] <= 9
            &&& unique_in_units(h, r, c)
        } by {
        assert(g2[r][c] == g[r][c]);
        assert(!before(r, c, row, clm));
    }
}

/// A digit allowed in an undecided cell, and a completion of the grid with that digit
/// decided there from the next cell on, give a completion of the grid from the cell on.
proof fn lemma_extend(g: Seq<Seq<usize>>, h: Seq<Seq<usize>>, row: int, clm: int, n: usize)
    requires
        is_square(g, 9),
        in_grid(row, clm),
        g[row][clm] == 0,
        1 <= n <= 9,
        allowed(g, row, clm, n),
        completes(put(g, row, clm, n), h, next_cell(row, clm).0, next_cell(row, clm).1),
    ensures
        completes(g, h, row, clm),
{
    let (nr, nc) = next_cell(row, clm);
    let g2 = put(g, row, clm, n);
    assert(h[row][clm] == n) by {
        assert(before(row, clm, nr, nc));
    }
    assert forall|r: int, c: int|
        in_grid(r, c) && (before(r, c, row, clm) || g[r][c] != 0) implies #[trigger] h[r][c] == g[r][c] by {
        assert(g2[r][c] == g[r][c]);
        if before(r, c, row, clm) {
            assert(before(r, c, nr, nc));
        }
    }
    assert forall|r: int, c: int|
        in_grid(r, c) && !before(r, c, row, clm) && g[r][c] == 0 implies {
            &&& 1 <= #[trigger] h[r][c] <= 9
            &&& unique_in_units(h, r, c)
        } by {
        if r == row && c == clm {
            assert forall|r2: int, c2: int|
                in_grid(r2, c2) && same_unit(r, c, r2, c2) && (r2 != r || c2 != c) implies #[trigger] h[r2][c2]
                    != h[r][c] by {
                assert(g2[r2][c2] == g[r2][c2]);
                if before(r2, c2, nr, nc) || g2[r2][c2] != 0 {
                    assert(h[r2][c2] == g[r2][c2]);
                    assert(!(g[r2][c2] == n && n != 0));
                } else {
                    assert(unique_in_units(h, r2, c2));
                    assert(same_unit(r2, c2, r, c));
                    assert(h[r][c] != h[r2][c2]);
                }
            }
        } else {
            assert(g2[r][c] == g[r][c]);
            assert(!before(r, c, nr, nc));
            assert(unique_in_units(h, r, c));
        }
    }
}

/// Whether the board is checked against a cell of another value than `num` makes no
/// difference to whether `num` is allowed.
proof fn lemma_allowed_other(g: Seq<Seq<usize>>, row: int, clm: int, cur: usize, num: usize)
    requires
        is_square(g, 9),
        in_grid(row, clm),
        g[row][clm] == 0,
        cur != num || num == 0,
    ensures
        allowed(put(g, row, clm, cur), row, clm, num) == allowed(g, row, clm, num),
{
    let g2 = put(g, row, clm, cur);
    assert forall|r: int, c: int| in_grid(r, c) && same_unit(row, clm, r, c) && !(r == row && c == clm) implies
        #[trigger] g2[r][c] == g[r][c] by {
    }
    if allowed(g, row, clm, num) {
        assert forall|r: int, c: int| in_grid(r, c) && same_unit(row, clm, r, c) implies !(#[trigger] g2[r][c]
            == num && num != 0) by {
            if !(r == row && c == clm) {
                assert(g2[r][c] == g[r][c]);
            }
        }
    }
    if allowed(g2, row, clm, num) {
        assert forall|r: int, c: int| in_grid(r, c) && same_unit(row, clm, r, c) implies !(#[trigger] g[r][c]
            == num && num != 0) by {
            if !(r == row && c == clm) {
                assert(g2[r][c] == g[r][c]);
            }
        }
    }
}

/// Fills the undecided cells of `puzzle` from (`row`, `clm`) on, in row-major order, by
/// trying each candidate that no decided cell of the row, column or box already holds, and
/// backtracking. Returns whether the board can be completed from there: on success the board
/// is such a completion; on failure the board is as it was.
pub fn solve(puzzle: &mut Puzzle, row: usize, clm: usize) -> (res: bool)
    requires
        old(puzzle).wf(),
        row <= 9,
        row < 9 ==> clm < 9,
    ensures
        final(puzzle).wf(),
        res == completable(old(puzzle)@, row as int, clm as int),
        res ==> completes(old(puzzle)@, final(puzzle)@, row as int, clm as int),
        !res ==> final(puzzle)@ == old(puzzle)@,
    decreases 9 - row, 9 - clm,
{
    let ghost g = puzzle@;
    proof { puzzle.lemma_shape(); }
    if row == 9 {
        proof { lemma_end(g, clm as int); }
        return true;
    }
    let (next_row, next_col) = if clm == 8 {
        (row + 1, 0)
    } else {
        (row, clm + 1)
    };
    let candidate_digits = puzzle.get(row, clm);
    if candidate_digits.len() == 1 {
        proof { lemma_decided(g, row as int, clm as int); }
        let found = solve(puzzle, next_row, next_col);
        proof {
            if found {
                assert(completes(g, puzzle@, row as int, clm as int));
            } else if completable(g, row as int, clm as int) {
                let h = choose|h: Seq<Seq<usize>>| completes(g, h, row as int, clm as int);
                assert(completes(g, h, next_row as int, next_col as int));
            }
        }
        return found;
    }
    let ghost mut cur: usize = 0;
    proof {
        assert(g[row as int].update(clm as int, 0) =~= g[row as int]);
        assert(put(g, row as int, clm as int, 0) =~= g);
    }
    let mut i: usize = 0;
    while i < candidate_digits.len()
        invariant
            puzzle.wf(),
            g == old(puzzle)@,
            is_square(g, 9),
            row < 9,
            clm < 9,
            (next_row as int, next_col as int) == next_cell(row as int, clm as int),
            g[row as int][clm as int] == 0,
            candidate_digits@.to_set() == crate::sudoku::full_digits(),
            candidate_digits@.no_duplicates(),
            i <= candidate_digits@.len(),
            puzzle@ == put(g, row as int, clm as int, cur),
            cur == 0 || exists|j: int| 0 <= j < i && candidate_digits@[j] == cur,
            forall|j: int|
                0 <= j < i ==> !allowed(g, row as int, clm as int, #[trigger] candidate_digits@[j])
                    || !completable(put(g, row as int, clm as int, candidate_digits@[j]), next_row as int, next_col as int),
        decreases candidate_digits@.len() - i,
    {
        let num = candidate_digits[i];
        proof {
            assert(candidate_digits@.to_set().contains(num));
            assert(1 <= num <= 9);
            if cur != 0 {
                let j = choose|j: int| 0 <= j < i && candidate_digits@[j] == cur;
                assert(candidate_digits@[j] != candidate_digits@[i as int]);
            }
            lemma_allowed_other(g, row as int, clm as int, cur, num);
        }
        if puzzle.is_valid(row, clm, num) {
            puzzle.set_at(row, clm, num);
            proof {
                assert(g[row as int].update(clm as int, cur).update(clm as int, num) =~= g[row as int].update(clm as int, num));
                assert(puzzle@ =~= put(g, row as int, clm as int, num));
            }
            if solve(puzzle, next_row, next_col) {
                proof {
                    lemma_extend(g, puzzle@, row as int, clm as int, num);
                    assert(completes(g, puzzle@, row as int, clm as int));
                }
                return true;
            }
            proof { cur = num; }
        }
        i = i + 1;
    }
    puzzle.set_at(row, clm, 0);
    proof {
        assert(g[row as int].update(clm as int, cur).update(clm as int, 0) =~= g[row as int]);
        assert(puzzle@ =~= g);
        if completable(g, row as int, clm as int) {
            let h = choose|h: Seq<Seq<usize>>| completes(g, h, row as int, clm as int);
            lemma_restrict(g, h, row as int, clm as int);
            let n = h[row as int][clm as int];
            assert(candidate_digits@.to_set().contains(n));
            let j = choose|j: int| 0 <= j < candidate_digits@.len() && candidate_digits@[j] == n;
            assert(!allowed(g, row as int, clm as int, candidate_digits@[j])
                || !completable(put(g, row as int, clm as int, candidate_digits@[j]), next_row as int, next_col as int));
        }
    }
    false
}

/// Every cell of `h` holds a digit from 1 to 9 that no other cell of its row, column or box holds.
pub open spec fn is_solution(h: Seq<Seq<usize>>) -> bool {
    &&& is_square(h, 9)
    &&& forall|r: int, c: int| in_grid(r, c) ==> 1 <= #[trigger] h[r][c] <= 9 && unique_in_units(h, r, c)
}

/// The decided cells of `g` hold digits from 1 to 9, no two of them alike in a row, a column or a box.
pub open spec fn givens_consistent(g: Seq<Seq<usize>>) -> bool {
    forall|r: int, c: int|
        in_grid(r, c) && #[trigger] g[r][c] != 0 ==> {
            &&& 1 <= g[r][c] <= 9
            &&& forall|r2: int, c2: int|
                in_grid(r2, c2) && same_unit(r, c, r2, c2) && (r2 != r || c2 != c) && #[trigger] g[r2][c2] != 0
                    ==> g[r2][c2] != g[r][c]
        }
}

/// A completion of a board from its first cell, where the given digits do not clash with
/// each other, is a solved sudoku.
pub proof fn lemma_completion_solves(g: Seq<Seq<usize>>, h: Seq<Seq<usize>>)
    requires
        is_square(g, 9),
        givens_consistent(g),
        completes(g, h, 0, 0),
    ensures
        is_solution(h),
{
    assert forall|r: int, c: int| in_grid(r, c) implies 1 <= #[trigger] h[r][c] <= 9 && unique_in_units(h, r, c) by {
        assert(!before(r, c, 0, 0));
        if g[r][c] != 0 {
            assert(h[r][c] == g[r][c]);
            assert forall|r2: int, c2: int|
                in_grid(r2, c2) && same_unit(r, c, r2, c2) && (r2 != r || c2 != c) implies #[trigger] h[r2][c2] != h[r][c] by {
                assert(!before(r2, c2, 0, 0));
                if g[r2][c2] != 0 {
                    assert(h[r2][c2] == g[r2][c2]);
                } else {
                    assert(unique_in_units(h, r2, c2));
                    assert(same_unit(r2, c2, r, c));
                }
            }
        }
    }
}

} // verus!
