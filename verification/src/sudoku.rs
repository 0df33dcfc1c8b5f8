use std::collections::HashSet;
use vstd::prelude::*;
use crate::utils::Matrix;
use vstd::std_specs::hash::spec_hash_keys_iter;
use vstd::std_specs::iter::IteratorSpec;

verus! {

broadcast use vstd::std_specs::hash::group_hash_axioms;

/// The digits a cell may hold: 1 to 9.
pub open spec fn full_digits() -> Set<usize> {
    Set::new(|d: usize| 1 <= d <= 9)
}

proof fn lemma_full_digits()
    ensures
        full_digits().finite(),
        full_digits().len() == 9,
        full_digits() == set![1usize, 2, 3, 4, 5, 6, 7, 8, 9],
{
    assert(full_digits() =~= set![1usize, 2, 3, 4, 5, 6, 7, 8, 9]);
}

/// The candidates of a cell whose value is `v`: `v` alone, or every digit where `v` is 0.
pub open spec fn cell_digits(v: usize) -> Set<usize> {
    if v == 0 {
        full_digits()
    } else {
        set![v]
    }
}

/// The value of a cell with candidates `s`: its digit where `s` holds one nonzero number
/// alone, else 0 (undecided).
pub closed spec fn value_of(s: Set<usize>) -> usize {
    if exists|v: usize| v != 0 && s == set![v] {
        choose|v: usize| v != 0 && s == set![v]
    } else {
        0
    }
}

/// A cell of value `v` has the candidates `cell_digits(v)`, and back.
pub proof fn lemma_value_of(v: usize)
    ensures
        value_of(cell_digits(v)) == v,
        cell_digits(v).finite(),
        cell_digits(v).len() == (if v == 0 { 9nat } else { 1nat }),
        forall|num: usize| #[trigger] cell_digits(v).contains(num) <==> (if v == 0 { 1 <= num <= 9 } else { num == v }),
{
    lemma_full_digits();
    if v == 0 {
        if exists|w: usize| w != 0 && full_digits() == set![w] {
            let w = choose|w: usize| w != 0 && full_digits() == set![w];
            assert(full_digits().contains(1));
            assert(full_digits().contains(2));
            assert(set![w].contains(1) && set![w].contains(2));
        }
    } else {
        let w = choose|w: usize| w != 0 && set![v] == set![w];
        assert(set![v] == set![v]);
        assert(set![w].contains(v));
    }
}

/// (`r`, `c`) is a cell of the 9x9 grid.
pub open spec fn in_grid(r: int, c: int) -> bool {
    0 <= r < 9 && 0 <= c < 9
}

/// Cell (`r2`, `c2`) shares a row, a column or a 3x3 box with cell (`r1`, `c1`)
/// (a cell shares all three with itself).
pub open spec fn same_unit(r1: int, c1: int, r2: int, c2: int) -> bool {
    ||| r1 == r2
    ||| c1 == c2
    ||| (r1 / 3 == r2 / 3 && c1 / 3 == c2 / 3)
}

/// No cell of the row, the column or the box of (`row`, `clm`) is decided on `num`,
/// in the grid of values `g` (0 for an undecided cell).
pub open spec fn allowed(g: Seq<Seq<usize>>, row: int, clm: int, num: usize) -> bool {
    forall|r: int, c: int|
        in_grid(r, c) && same_unit(row, clm, r, c) ==> !(#[trigger] g[r][c] == num && num != 0)
}

/// The candidates of a cell: the numbers it may still hold.
#[derive(Debug)]
pub struct Digits(HashSet<usize>);

impl View for Digits {
    type V = Set<usize>;

    closed spec fn view(&self) -> Set<usize> {
        self.0@
    }
}

impl Digits {
    /// Whether the cell is decided on `digit`: it holds that digit and no other.
    fn is_digit(&self, digit: usize) -> (res: bool)
        ensures
            res == (self@.len() == 1 && self@.contains(digit)),
    {
        self.0.len() == 1 && self.0.contains(&digit)
    }

    /// Decides the cell on `digit`; 0 opens it again to every digit from 1 to 9.
    pub fn set(&mut self, digit: usize)
        ensures
            final(self)@ == (if digit == 0 { full_digits() } else { set![digit] }),
    {
        if digit == 0 {
            let mut all: HashSet<usize> = HashSet::new();
            let mut d: usize = 1;
            while d <= 9
                invariant
                    1 <= d <= 10,
                    all@ == Set::new(|x: usize| 1 <= x < d),
                decreases 10 - d,
            {
                all.insert(d);
                assert(all@ =~= Set::new(|x: usize| 1 <= x < d + 1));
                d = d + 1;
            }
            assert(all@ =~= full_digits());
            self.0 = all;
            return;
        }
        let mut one: HashSet<usize> = HashSet::new();
        one.insert(digit);
        assert(one@ =~= set![digit]);
        self.0 = one;
    }

    /// How many digits the cell holds.
    pub fn len(&self) -> (res: usize)
        ensures
            res == self@.len(),
    {
        self.0.len()
    }

    /// The digits of the cell, each once, in the set's own order (which the contract leaves
    /// open: it follows the hashing of the set).
    pub fn iter(&self) -> (res: Vec<usize>)
        ensures
            res@.to_set() == self@,
            res@.no_duplicates(),
    {
        let mut res: Vec<usize> = Vec::new();
        for x in it: self.0.iter()
            invariant
                it.seq().unref().to_set() == self@,
                it.seq().no_duplicates(),
                res@ == it.seq().unref().take(it.index() as int),
                it.index() == it.seq().len() ==> res@ == it.seq().unref(),
            ensures
                res@.to_set() == self@,
                res@.no_duplicates(),
        {
            assert(it.seq().unref().take(it.index() + 1) =~= it.seq().unref().take(it.index() as int).push(*x));
            res.push(*x);
            assert(it.index() + 1 == it.seq().len() ==> it.seq().unref().take(it.index() + 1) =~= it.seq().unref());
        }
        res
    }
}

impl Default for Digits {
    fn default() -> (res: Digits)
        ensures
            res@ == Set::<usize>::empty(),
    {
        Digits(HashSet::new())
    }
}

impl Clone for Digits {
    fn clone(&self) -> (res: Digits)
        ensures
            res@ == self@,
    {
        let items = self.iter();
        let mut copy: HashSet<usize> = HashSet::new();
        let mut i: usize = 0;
        while i < items.len()
            invariant
                i <= items@.len(),
                copy@ == items@.take(i as int).to_set(),
            decreases items@.len() - i,
        {
            copy.insert(items[i]);
            assert(items@.take(i + 1) =~= items@.take(i as int).push(items@[i as int]));
            proof { items@.take(i as int).lemma_push_to_set_commute(items@[i as int]); }
            i = i + 1;
        }
        assert(items@.take(items@.len() as int) =~= items@);
        Digits(copy)
    }
}

/// The character of decimal digit `d`.
pub open spec fn digit_char(d: int) -> char {
    (48 + d) as char
}

/// The decimal numeral of `n`, most significant digit first.
pub open spec fn decimal(n: nat) -> Seq<char>
    decreases n,
{
    if n < 10 {
        seq![digit_char(n as int)]
    } else {
        decimal(n / 10).push(digit_char((n % 10) as int))
    }
}

/// A row of numbers as text: each number followed by a space.
pub open spec fn cells_text(line: Seq<usize>) -> Seq<char>
    decreases line.len(),
{
    if line.len() == 0 {
        Seq::empty()
    } else {
        cells_text(line.drop_last()) + decimal(line.last() as nat) + seq![' ']
    }
}

/// A grid of numbers as text: each row as `cells_text`, followed by a newline.
pub open spec fn grid_text(g: Seq<Seq<usize>>) -> Seq<char>
    decreases g.len(),
{
    if g.len() == 0 {
        Seq::empty()
    } else {
        grid_text(g.drop_last()) + cells_text(g.last()) + seq!['\n']
    }
}

/// `shown` has a number for every cell of `g`, one of that cell's candidates.
pub open spec fn shows(g: Seq<Seq<usize>>, shown: Seq<Seq<usize>>) -> bool {
    &&& crate::utils::is_square(shown, 9)
    &&& forall|r: int, c: int| in_grid(r, c) ==> cell_digits(g[r][c]).contains(#[trigger] shown[r][c])
}

/// `String::push`: appends `c` at the end of `s`.
#[verifier::external_body]
fn push_char(s: &mut String, c: char)
    ensures
        final(s)@ == old(s)@.push(c),
{
    s.push(c);
}

/// Appends the decimal numeral of `n` to `s`.
fn push_decimal(s: &mut String, n: usize)
    ensures
        final(s)@ == old(s)@ + decimal(n as nat),
    decreases n,
{
    if n >= 10 {
        push_decimal(s, n / 10);
    }
    let d: u8 = (n % 10) as u8;
    let ch: char = (d + 48u8) as char;
    push_char(s, ch);
    assert(s@ =~= old(s)@ + decimal(n as nat));
}

/// On a board with every cell decided, the text shows exactly the board's digits.
pub proof fn lemma_decided_board_shows(g: Seq<Seq<usize>>, shown: Seq<Seq<usize>>)
    requires
        crate::utils::is_square(g, 9),
        forall|r: int, c: int| in_grid(r, c) ==> #[trigger] g[r][c] != 0,
        shows(g, shown),
    ensures
        shown == g,
{
    assert forall|r: int| 0 <= r < 9 implies #[trigger] shown[r] =~= g[r] by {
        assert forall|c: int| 0 <= c < 9 implies #[trigger] shown[r][c] == g[r][c] by {
            lemma_value_of(g[r][c]);
            assert(cell_digits(g[r][c]).contains(shown[r][c]));
        }
    }
    assert(shown =~= g);
}

/// A cell decided on a nonzero digit holds exactly that digit; decided on 0, it holds every
/// digit from 1 to 9 (what `Digits::set` leaves, as `Digits::len` and `Digits::is_digit` read it).
pub proof fn lemma_set_then_read(digit: usize)
    ensures
        digit != 0 ==> cell_digits(digit).len() == 1 && cell_digits(digit).contains(digit),
        digit == 0 ==> cell_digits(digit).len() == 9,
        forall|n: usize| #[trigger] cell_digits(digit).contains(n) ==> (digit == 0 || n == digit),
{
    lemma_value_of(digit);
}

/// A 9x9 sudoku board: each cell holds one decided digit or every digit from 1 to 9.
pub struct Puzzle {
    board: Matrix<Digits, 9>,
}

impl View for Puzzle {
    /// The value of each cell: its digit, or 0 where it is undecided.
    type V = Seq<Seq<usize>>;

    closed spec fn view(&self) -> Seq<Seq<usize>> {
        self.board@.map_values(|line: Seq<Digits>| line.map_values(|d: Digits| value_of(d@)))
    }
}

/// Whether no cell in `cells` is decided on `num`.
fn none_decided_on(cells: &Vec<&Digits>, num: usize) -> (res: bool)
    ensures
        res == forall|i: int|
            0 <= i < cells@.len() ==> !((#[trigger] cells@[i])@.len() == 1 && cells@[i]@.contains(num)),
{
    let mut i: usize = 0;
    while i < cells.len()
        invariant
            i <= cells@.len(),
            forall|j: int| 0 <= j < i ==> !((#[trigger] cells@[j])@.len() == 1 && cells@[j]@.contains(num)),
        decreases cells@.len() - i,
    {
        if cells[i].is_digit(num) {
            return false;
        }
        i = i + 1;
    }
    true
}

impl Puzzle {
    /// Every cell is decided on a nonzero number or open to every digit from 1 to 9.
    pub closed spec fn wf(&self) -> bool {
        &&& self.board.wf()
        &&& forall|r: int, c: int|
            in_grid(r, c) ==> #[trigger] self.board@[r][c]@ == cell_digits(value_of(self.board@[r][c]@))
    }

    proof fn lemma_cell(&self, r: int, c: int)
        requires
            self.wf(),
            in_grid(r, c),
        ensures
            self@.len() == 9,
            self@[r].len() == 9,
            self@[r][c] == value_of(self.board@[r][c]@),
            self.board@[r][c]@ == cell_digits(self@[r][c]),
    {
        assert(self.board@[r].len() == 9);
        assert(self.board@[r][c]@ == cell_digits(value_of(self.board@[r][c]@)));
    }

    proof fn lemma_box(i: int)
        requires
            0 <= i < 9,
        ensures
            crate::utils::box_side(9) == 3,
            crate::utils::box_start(i, 9) == i / 3 * 3,
            crate::utils::box_fits(i, 9),
            0 <= i / 3 * 3 <= 6,
    {
    }

    /// The grid of values has 9 rows of 9 cells.
    pub proof fn lemma_shape(&self)
        requires
            self.wf(),
        ensures
            crate::utils::is_square(self@, 9),
    {
        assert forall|r: int| 0 <= r < 9 implies #[trigger] self@[r].len() == 9 by {
            self.lemma_cell(r, 0);
        }
    }

    /// Whether `num` may go in (`row`, `clm`): no cell of its row, column or box is decided on it.
    pub fn is_valid(&self, row: usize, clm: usize, num: usize) -> (res: bool)
        requires
            self.wf(),
            row < 9,
            clm < 9,
        ensures
            res == allowed(self@, row as int, clm as int, num),
    {
        proof {
            Self::lemma_box(row as int);
            Self::lemma_box(clm as int);
        }
        let in_row = self.board.row_neighbors_iter(row);
        let in_clm = self.board.clm_neighbors_iter(clm);
        let in_box_pairs = self.board.box_neighbors_iter(row, clm);
        let mut in_box: Vec<&Digits> = Vec::new();
        let mut k: usize = 0;
        while k < in_box_pairs.len()
            invariant
                k <= in_box_pairs@.len(),
                in_box@.len() == k,
                forall|j: int| 0 <= j < k ==> #[trigger] in_box@[j] == in_box_pairs@[j].1,
            decreases in_box_pairs@.len() - k,
        {
            in_box.push(in_box_pairs[k].1);
            k = k + 1;
        }
        let ok_row = none_decided_on(&in_row, num);
        let ok_clm = none_decided_on(&in_clm, num);
        let ok_box = none_decided_on(&in_box, num);
        proof {
            let g = self@;
            assert forall|r: int, c: int| in_grid(r, c) implies
                (#[trigger] g[r][c] == num && num != 0) == (self.board@[r][c]@.len() == 1
                    && self.board@[r][c]@.contains(num)) by {
                self.lemma_cell(r, c);
                lemma_value_of(g[r][c]);
            }
            let br = (row / 3 * 3) as int;
            let bc = (clm / 3 * 3) as int;
            assert forall|r: int, c: int|
                in_grid(r, c) && r / 3 == row / 3 && c / 3 == clm / 3 implies
                    #[trigger] in_box@[(r - br) * 3 + (c - bc)] == self.board@[r][c] by {
                let i = (r - br) * 3 + (c - bc);
                assert(0 <= i < 9);
                assert(i / 3 == r - br);
                assert(i % 3 == c - bc);
                assert(in_box_pairs@[i].0 == (r as usize, c as usize));
            }
            if ok_row && ok_clm && ok_box {
                assert forall|r: int, c: int|
                    in_grid(r, c) && same_unit(row as int, clm as int, r, c) implies
                        !(#[trigger] g[r][c] == num && num != 0) by {
                    if r == row {
                        assert(*in_row@[c] == self.board@[r][c]);
                    } else if c == clm {
                        assert(*in_clm@[r] == self.board@[r][c]);
                    } else {
                        assert(in_box@[(r - br) * 3 + (c - bc)] == self.board@[r][c]);
                    }
                }
            } else if !ok_row {
                let j = choose|j: int| 0 <= j < in_row@.len() && ((#[trigger] in_row@[j])@.len() == 1 && in_row@[j]@.contains(num));
                assert(g[row as int][j] == num && num != 0);
            } else if !ok_clm {
                let j = choose|j: int| 0 <= j < in_clm@.len() && ((#[trigger] in_clm@[j])@.len() == 1 && in_clm@[j]@.contains(num));
                assert(g[j][clm as int] == num && num != 0);
            } else {
                let j = choose|j: int| 0 <= j < in_box@.len() && ((#[trigger] in_box@[j])@.len() == 1 && in_box@[j]@.contains(num));
                let pos = in_box_pairs@[j].0;
                assert(g[pos.0 as int][pos.1 as int] == num && num != 0);
                assert(pos.0 / 3 == row / 3);
                assert(pos.1 / 3 == clm / 3);
            }
        }
        ok_row && ok_clm && ok_box
    }

    /// The candidates of (`row`, `clm`): its digit if decided, else every digit from 1 to 9,
    /// each once, in the cell's own order.
    pub fn get(&self, row: usize, clm: usize) -> (res: Vec<usize>)
        requires
            self.wf(),
            row < 9,
            clm < 9,
        ensures
            res@.to_set() == cell_digits(self@[row as int][clm as int]),
            res@.no_duplicates(),
            res@.len() == (if self@[row as int][clm as int] == 0 { 9nat } else { 1nat }),
    {
        proof { self.lemma_cell(row as int, clm as int); lemma_value_of(self@[row as int][clm as int]); }
        let res = self.board.get(row, clm).iter();
        proof { res@.unique_seq_to_set(); }
        res
    }

    /// The board of `sudoku`, row by row: a cell of value 0 is open to every digit,
    /// any other value is a decided cell.
    pub fn new(sudoku: &[[usize; 9]; 9]) -> (res: Puzzle)
        ensures
            res.wf(),
            forall|r: int, c: int| in_grid(r, c) ==> #[trigger] res@[r][c] == sudoku@[r]@[c],
    {
        let mut board: Matrix<Digits, 9> = Matrix::new();
        let mut r: usize = 0;
        while r < 9
            invariant
                r <= 9,
                board.wf(),
                forall|i: int, j: int|
                    0 <= i < r && 0 <= j < 9 ==> #[trigger] board@[i][j]@ == cell_digits(sudoku@[i]@[j]),
            decreases 9 - r,
        {
            let mut c: usize = 0;
            while c < 9
                invariant
                    r < 9,
                    c <= 9,
                    board.wf(),
                    forall|i: int, j: int|
                        (0 <= i < r && 0 <= j < 9) || (i == r && 0 <= j < c) ==> #[trigger] board@[i][j]@
                            == cell_digits(sudoku@[i]@[j]),
                decreases 9 - c,
            {
                let v: usize = sudoku[r][c];
                board.get_mut(r, c).set(v);
                c = c + 1;
            }
            r = r + 1;
        }
        let res = Puzzle { board };
        proof {
            assert forall|i: int, j: int| in_grid(i, j) implies #[trigger] res.board@[i][j]@
                == cell_digits(value_of(res.board@[i][j]@)) by {
                lemma_value_of(sudoku@[i]@[j]);
            }
            assert forall|i: int, j: int| in_grid(i, j) implies #[trigger] res@[i][j] == sudoku@[i]@[j] by {
                res.lemma_cell(i, j);
                lemma_value_of(sudoku@[i]@[j]);
            }
        }
        res
    }

    /// A copy of the board, with the same value in every cell.
    pub fn clone(&self) -> (res: Puzzle)
        requires
            self.wf(),
        ensures
            res.wf(),
            res@ == self@,
    {
        let mut board: Matrix<Digits, 9> = Matrix::new();
        let mut r: usize = 0;
        while r < 9
            invariant
                self.wf(),
                r <= 9,
                board.wf(),
                forall|i: int, j: int|
                    0 <= i < r && 0 <= j < 9 ==> #[trigger] board@[i][j]@ == self.board@[i][j]@,
            decreases 9 - r,
        {
            let mut c: usize = 0;
            while c < 9
                invariant
                    self.wf(),
                    r < 9,
                    c <= 9,
                    board.wf(),
                    forall|i: int, j: int|
                        (0 <= i < r && 0 <= j < 9) || (i == r && 0 <= j < c) ==> #[trigger] board@[i][j]@
                            == self.board@[i][j]@,
                decreases 9 - c,
            {
                let d = self.board.get(r, c).clone();
                *board.get_mut(r, c) = d;
                c = c + 1;
            }
            r = r + 1;
        }
        let res = Puzzle { board };
        proof {
            assert forall|i: int, j: int| in_grid(i, j) implies #[trigger] res.board@[i][j]@
                == cell_digits(value_of(res.board@[i][j]@)) by {
                self.lemma_cell(i, j);
            }
            self.lemma_shape();
            assert forall|i: int| 0 <= i < 9 implies #[trigger] res@[i] =~= self@[i] by {
                assert(res.board@[i].len() == 9);
                assert forall|j: int| 0 <= j < 9 implies #[trigger] res@[i][j] == self@[i][j] by {
                    res.lemma_cell(i, j);
                    self.lemma_cell(i, j);
                }
            }
            assert(res@ =~= self@);
        }
        res
    }

    /// The board as text: one line per row, each cell as the decimal numeral of one of its
    /// candidates followed by a space. A decided cell shows its digit.
    pub fn to_string(&self) -> (res: String)
        requires
            self.wf(),
        ensures
            exists|shown: Seq<Seq<usize>>| shows(self@, shown) && res@ == grid_text(shown),
    {
        let mut output = String::new();
        let ghost mut shown: Seq<Seq<usize>> = Seq::empty();
        let mut i: usize = 0;
        while i < 9
            invariant
                self.wf(),
                i <= 9,
                shown.len() == i,
                forall|r: int| 0 <= r < i ==> #[trigger] shown[r].len() == 9,
                forall|r: int, c: int| 0 <= r < i && 0 <= c < 9 ==> cell_digits(self@[r][c]).contains(#[trigger] shown[r][c]),
                output@ == grid_text(shown),
            decreases 9 - i,
        {
            let ghost mut line: Seq<usize> = Seq::empty();
            let mut j: usize = 0;
            while j < 9
                invariant
                    self.wf(),
                    i < 9,
                    j <= 9,
                    line.len() == j,
                    forall|c: int| 0 <= c < j ==> cell_digits(self@[i as int][c]).contains(#[trigger] line[c]),
                    output@ == grid_text(shown) + cells_text(line),
                decreases 9 - j,
            {
                let digits = self.get(i, j);
                let v: usize = digits[0];
                proof {
                    assert(digits@.contains(v));
                    assert(digits@.to_set().contains(v));
                }
                push_decimal(&mut output, v);
                push_char(&mut output, ' ');
                proof {
                    let next = line.push(v);
                    assert(next.drop_last() =~= line);
                    line = next;
                }
                j = j + 1;
            }
            push_char(&mut output, '\n');
            proof {
                let next = shown.push(line);
                assert(next.drop_last() =~= shown);
                shown = next;
            }
            i = i + 1;
        }
        proof {
            assert(shows(self@, shown));
        }
        output
    }

    /// Decides (`row`, `clm`) on `num`; 0 opens it again. No other cell changes.
    pub fn set_at(&mut self, row: usize, clm: usize, num: usize)
        requires
            old(self).wf(),
            row < 9,
            clm < 9,
        ensures
            final(self).wf(),
            final(self)@ == old(self)@.update(row as int, old(self)@[row as int].update(clm as int, num)),
    {
        self.board.get_mut(row, clm).set(num);
        proof {
            lemma_value_of(num);
            assert(self.board@[row as int][clm as int]@ == cell_digits(num));
            assert forall|r: int, c: int| in_grid(r, c) implies
                #[trigger] self.board@[r][c]@ == cell_digits(value_of(self.board@[r][c]@)) by {
                if r != row || c != clm {
                    old(self).lemma_cell(r, c);
                }
            }
            let exp = old(self)@.update(row as int, old(self)@[row as int].update(clm as int, num));
            old(self).lemma_shape();
            assert forall|r: int| 0 <= r < 9 implies #[trigger] self@[r] =~= exp[r] by {
                assert(self.board@[r].len() == 9);
                assert forall|c: int| 0 <= c < 9 implies #[trigger] self@[r][c] == exp[r][c] by {
                    self.lemma_cell(r, c);
                    if r != row || c != clm {
                        old(self).lemma_cell(r, c);
                    }
                }
            }
            assert(self@ =~= exp);
        }
    }
}

} // verus!
