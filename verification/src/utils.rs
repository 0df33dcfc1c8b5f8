use vstd::prelude::*;
use vstd::arithmetic::div_mod::lemma_fundamental_div_mod_converse;
use vstd::arithmetic::div_mod::lemma_fundamental_div_mod;

verus! {

/// A square grid of `N` rows and `N` columns, stored row by row.
#[derive(Clone)]
pub struct Matrix<T, const N: usize> {
    matrix: Vec<Vec<T>>,
}

impl<T, const N: usize> View for Matrix<T, N> {
    type V = Seq<Seq<T>>;

    closed spec fn view(&self) -> Seq<Seq<T>> {
        self.matrix@.map_values(|row: Vec<T>| row@)
    }
}

/// `m` has `n` rows of `n` entries each.
pub open spec fn is_square<T>(m: Seq<Seq<T>>, n: int) -> bool {
    &&& m.len() == n
    &&& forall|r: int| 0 <= r < n ==> #[trigger] m[r].len() == n
}

/// The side of the boxes that a grid of side `n` is cut into: a third of it.
pub open spec fn box_side(n: int) -> int {
    n / 3
}

/// The first row (or column) of the box that holds row (or column) `i`.
pub open spec fn box_start(i: int, n: int) -> int {
    (i / box_side(n)) * box_side(n)
}

/// The box that holds row (or column) `i` lies wholly inside a grid of side `n`.
pub open spec fn box_fits(i: int, n: int) -> bool {
    &&& box_side(n) > 0
    &&& box_start(i, n) + box_side(n) <= n
}

impl<T, const N: usize> Matrix<T, N> {
    /// The matrix holds `N` rows of `N` entries.
    pub open spec fn wf(&self) -> bool {
        is_square(self@, N as int)
    }

    proof fn lemma_view(&self)
        ensures
            self@.len() == self.matrix@.len(),
            forall|r: int| 0 <= r < self.matrix@.len() ==> #[trigger] self@[r] == self.matrix@[r]@,
    {
    }

    proof fn lemma_row(&self, r: int)
        requires
            self.wf(),
            0 <= r < N,
        ensures
            self.matrix@[r]@ == self@[r],
            self.matrix@[r]@.len() == N,
    {
        assert(self@[r].len() == N);
    }

    /// The entries of row `row`, from the first column to the last.
    pub fn row_neighbors_iter(&self, row: usize) -> (res: Vec<&T>)
        requires
            self.wf(),
            row < N,
        ensures
            res@.len() == N,
            forall|i: int| 0 <= i < N ==> *#[trigger] res@[i] == self@[row as int][i],
    {
        proof { self.lemma_view(); }
        let line = &self.matrix[row];
        let mut res: Vec<&T> = Vec::new();
        let mut i: usize = 0;
        while i < N
            invariant
                self.wf(),
                row < N,
                *line == self.matrix@[row as int],
                line@ == self@[row as int],
                i <= N,
                res@.len() == i,
                forall|j: int| 0 <= j < i ==> *#[trigger] res@[j] == self@[row as int][j],
            decreases N - i,
        {
            res.push(&line[i]);
            i = i + 1;
        }
        res
    }

    /// The entries of column `clm`, from the first row to the last.
    pub fn clm_neighbors_iter(&self, clm: usize) -> (res: Vec<&T>)
        requires
            self.wf(),
            clm < N,
        ensures
            res@.len() == N,
            forall|i: int| 0 <= i < N ==> *#[trigger] res@[i] == self@[i][clm as int],
    {
        proof { self.lemma_view(); }
        let mut res: Vec<&T> = Vec::new();
        let mut i: usize = 0;
        while i < N
            invariant
                self.wf(),
                clm < N,
                i <= N,
                res@.len() == i,
                forall|j: int| 0 <= j < i ==> *#[trigger] res@[j] == self@[j][clm as int],
            decreases N - i,
        {
            proof { self.lemma_row(i as int); }
            res.push(&self.matrix[i][clm]);
            i = i + 1;
        }
        res
    }

    /// The entries of the box that holds (`row`, `clm`), each with its position, row by row.
    /// A box has a third of the side of the matrix.
    pub fn box_neighbors_iter(&self, row: usize, clm: usize) -> (res: Vec<((usize, usize), &T)>)
        requires
            self.wf(),
            row < N,
            clm < N,
            box_fits(row as int, N as int),
            box_fits(clm as int, N as int),
        ensures
            res@.len() == box_side(N as int) * box_side(N as int),
            forall|i: int|
                #![trigger res@[i]]
                0 <= i < res@.len() ==> {
                    let pos = res@[i].0;
                    &&& pos.0 == box_start(row as int, N as int) + i / box_side(N as int)
                    &&& pos.1 == box_start(clm as int, N as int) + i % box_side(N as int)
                    &&& *res@[i].1 == self@[pos.0 as int][pos.1 as int]
                },
    {
        proof { self.lemma_view(); }
        let box_size: usize = N / 3;
        let ghost b = box_size as int;
        proof {
            lemma_fundamental_div_mod(row as int, b);
            lemma_fundamental_div_mod(clm as int, b);
            assert(b * (row as int / b) == (row as int / b) * b) by (nonlinear_arith);
            assert(b * (clm as int / b) == (clm as int / b) * b) by (nonlinear_arith);
        }
        let upper_row: usize = row / box_size * box_size;
        let leftmost_clm: usize = clm / box_size * box_size;
        let mut res: Vec<((usize, usize), &T)> = Vec::new();
        let mut r: usize = 0;
        while r < box_size
            invariant
                self.wf(),
                b == box_size as int,
                b == box_side(N as int),
                b > 0,
                upper_row as int == box_start(row as int, N as int),
                leftmost_clm as int == box_start(clm as int, N as int),
                upper_row + b <= N,
                leftmost_clm + b <= N,
                r <= box_size,
                res@.len() == r * b,
                forall|i: int|
                    #![trigger res@[i]]
                    0 <= i < res@.len() ==> {
                        let pos = res@[i].0;
                        &&& pos.0 == upper_row + i / b
                        &&& pos.1 == leftmost_clm + i % b
                        &&& *res@[i].1 == self@[pos.0 as int][pos.1 as int]
                    },
            decreases box_size - r,
        {
            let mut c: usize = 0;
            while c < box_size
                invariant
                    self.wf(),
                    b == box_size as int,
                    b > 0,
                    upper_row + b <= N,
                    leftmost_clm + b <= N,
                    r < box_size,
                    c <= box_size,
                    res@.len() == r * b + c,
                    forall|i: int|
                        #![trigger res@[i]]
                        0 <= i < res@.len() ==> {
                            let pos = res@[i].0;
                            &&& pos.0 == upper_row + i / b
                            &&& pos.1 == leftmost_clm + i % b
                            &&& *res@[i].1 == self@[pos.0 as int][pos.1 as int]
                        },
                decreases box_size - c,
            {
                proof {
                    self.lemma_row(upper_row + r);
                    lemma_fundamental_div_mod_converse(r * b + c, b, r as int, c as int);
                }
                let rr: usize = upper_row + r;
                let cc: usize = leftmost_clm + c;
                res.push(((rr, cc), &self.matrix[rr][cc]));
                c = c + 1;
            }
            proof {
                assert(r * b + b == (r + 1) * b) by (nonlinear_arith);
            }
            r = r + 1;
        }
        res
    }

    /// The entry at (`row`, `clm`).
    pub fn get(&self, row: usize, clm: usize) -> (res: &T)
        requires
            self.wf(),
            row < N,
            clm < N,
        ensures
            *res == self@[row as int][clm as int],
    {
        proof { self.lemma_row(row as int); }
        &self.matrix[row][clm]
    }

    /// The entry at (`row`, `clm`), to be changed in place; nothing else changes.
    pub fn get_mut(&mut self, row: usize, clm: usize) -> (res: &mut T)
        requires
            old(self).wf(),
            row < N,
            clm < N,
        ensures
            *res == old(self)@[row as int][clm as int],
            final(self)@ == old(self)@.update(
                row as int,
                old(self)@[row as int].update(clm as int, *final(res)),
            ),
    {
        proof { self.lemma_row(row as int); self.lemma_view(); }
        &mut self.matrix[row][clm]
    }

    /// A matrix of `N` rows of `N` entries, each made by `T::default`.
    pub fn new() -> (res: Matrix<T, N>)
        where T: Default
        ensures
            res.wf(),
    {
        let mut matrix: Vec<Vec<T>> = Vec::new();
        let mut r: usize = 0;
        while r < N
            invariant
                r <= N,
                matrix@.len() == r,
                forall|i: int| 0 <= i < r ==> #[trigger] matrix@[i]@.len() == N,
            decreases N - r,
        {
            let mut line: Vec<T> = Vec::new();
            let mut c: usize = 0;
            while c < N
                invariant
                    c <= N,
                    line@.len() == c,
                decreases N - c,
            {
                line.push(T::default());
                c = c + 1;
            }
            matrix.push(line);
            r = r + 1;
        }
        let res = Matrix { matrix };
        proof { res.lemma_view(); }
        res
    }
}

} // verus!
