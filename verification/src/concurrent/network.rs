use std::collections::HashMap;
use vstd::prelude::*;
use crate::sudoku::{Puzzle, in_grid};
use crate::utils::{Matrix, is_square};
use crate::concurrent::rule::Rule;

verus! {

broadcast use vstd::std_specs::hash::group_hash_axioms;

/// A message to send: the position of the cell that receives it, and the rule it carries.
pub type Message = ((usize, usize), Rule);

/// The number under which the cell at (`r`, `c`) is kept in a box map.
pub open spec fn box_key(r: usize, c: usize) -> usize {
    (r * 9 + c) as usize
}

/// Every key of a box map stands for a cell of the grid.
pub open spec fn keys_in_grid(m: Map<usize, bool>) -> bool {
    forall|k: usize| m.contains_key(k) ==> k < 81
}

/// A box map read by cell position.
pub open spec fn by_position(m: Map<usize, bool>) -> Map<(usize, usize), bool> {
    Map::new(
        |p: (usize, usize)| p.0 < 9 && p.1 < 9 && m.contains_key(box_key(p.0, p.1)),
        |p: (usize, usize)| m[box_key(p.0, p.1)],
    )
}

/// Two cells of the grid have different box keys.
pub proof fn lemma_box_key(a: usize, b: usize, c: usize, d: usize)
    requires
        a < 9,
        b < 9,
        c < 9,
        d < 9,
    ensures
        box_key(a, b) < 81,
        box_key(a, b) == box_key(c, d) <==> (a == c && b == d),
        box_key(a, b) / 9 == a,
        box_key(a, b) % 9 == b,
{
    assert(box_key(a, b) / 9 == a && box_key(a, b) % 9 == b) by (nonlinear_arith)
        requires
            a < 9,
            b < 9,
            box_key(a, b) == a * 9 + b,
    ;
    assert(box_key(c, d) / 9 == c && box_key(c, d) % 9 == d) by (nonlinear_arith)
        requires
            c < 9,
            d < 9,
            box_key(c, d) == c * 9 + d,
    ;
}

/// `s` lists, each once, exactly the keys that `m` maps to `true`.
pub open spec fn lists_open<K>(m: Map<K, bool>, s: Seq<K>) -> bool {
    &&& s.no_duplicates()
    &&& forall|k: K| #[trigger] s.contains(k) <==> (m.contains_key(k) && m[k])
}

/// How many keys `m` maps to `true`.
pub open spec fn open_count(m: Map<usize, bool>) -> nat {
    m.dom().filter(|k: usize| m[k]).len()
}

/// A list of the open keys of a finite map is as long as there are open keys.
proof fn lemma_open_count(m: Map<usize, bool>, a: Seq<usize>)
    requires
        lists_open(m, a),
    ensures
        a.len() == open_count(m),
{
    a.unique_seq_to_set();
    assert(a.to_set() =~= m.dom().filter(|k: usize| m[k]));
}

/// The keys that `m` maps to `true`, each once, in the map's own order.
pub(crate) fn open_keys(m: &HashMap<usize, bool>) -> (res: Vec<usize>)
    ensures
        lists_open(m@, res@),
{
    let mut res: Vec<usize> = Vec::new();
    for k in it: m.keys()
        invariant
            it.seq().unref().to_set() == m@.dom(),
            it.seq().no_duplicates(),
            res@.no_duplicates(),
            forall|x: usize|
                #[trigger] res@.contains(x) <==> ((exists|j: int| 0 <= j < it.index() && *it.seq()[j] == x)
                    && m@.contains_key(x) && m@[x]),
        ensures
            lists_open(m@, res@),
    {
        let key: usize = *k;
        let open: bool = *m.get(&key).unwrap();
        proof {
            assert forall|j: int| 0 <= j < it.index() implies *it.seq()[j] != key by {
                assert(it.seq()[j] != it.seq()[it.index() as int]);
            }
        }
        let ghost prev = res@;
        if open {
            res.push(key);
        }
        proof {
            assert forall|x: usize| #[trigger] res@.contains(x) <==> (prev.contains(x) || (open && x == key)) by {
                if open {
                    if res@.contains(x) {
                        let i = choose|i: int| 0 <= i < res@.len() && res@[i] == x;
                        if i < prev.len() {
                            assert(prev[i] == x);
                        }
                    }
                    if prev.contains(x) {
                        let i = choose|i: int| 0 <= i < prev.len() && prev[i] == x;
                        assert(res@[i] == x);
                    }
                    if x == key {
                        assert(res@[prev.len() as int] == key);
                    }
                }
            }
            assert forall|x: usize|
                #[trigger] res@.contains(x) <==> ((exists|j: int| 0 <= j < it.index() + 1 && *it.seq()[j] == x)
                    && m@.contains_key(x) && m@[x]) by {
                if exists|j: int| 0 <= j < it.index() + 1 && *it.seq()[j] == x {
                    let j = choose|j: int| 0 <= j < it.index() + 1 && *it.seq()[j] == x;
                    if j == it.index() {
                        assert(x == key);
                    } else {
                        assert(exists|j: int| 0 <= j < it.index() && *it.seq()[j] == x);
                    }
                }
                if prev.contains(x) {
                    assert(exists|j: int| 0 <= j < it.index() && *it.seq()[j] == x);
                    let j = choose|j: int| 0 <= j < it.index() && *it.seq()[j] == x;
                    assert(0 <= j < it.index() + 1 && *it.seq()[j] == x);
                }
                if open && x == key {
                    assert(*it.seq()[it.index() as int] == x);
                }
            }
            if open {
                assert(!prev.contains(key));
                assert forall|i: int, j: int| 0 <= i < j < res@.len() implies res@[i] != res@[j] by {
                    if j == prev.len() {
                        assert(prev.contains(prev[i]));
                    }
                }
            }
        }
        proof {
            assert forall|x: usize| it.index() + 1 == it.seq().len() && m@.contains_key(x) implies exists|j: int|
                0 <= j < it.index() + 1 && *it.seq()[j] == x by {
                assert(it.seq().unref().to_set().contains(x));
                let j = choose|j: int| 0 <= j < it.seq().unref().len() && it.seq().unref()[j] == x;
                assert(*it.seq()[j] == x);
            }
        }
    }
    res
}

/// The keys of `m`, each once, in the map's own order.
pub(crate) fn key_list<V>(m: &HashMap<usize, V>) -> (res: Vec<usize>)
    ensures
        res@.to_set() == m@.dom(),
        res@.no_duplicates(),
{
    let mut res: Vec<usize> = Vec::new();
    for k in it: m.keys()
        invariant
            it.seq().unref().to_set() == m@.dom(),
            it.seq().no_duplicates(),
            res@ == it.seq().unref().take(it.index() as int),
            it.index() == it.seq().len() ==> res@ == it.seq().unref(),
        ensures
            res@.to_set() == m@.dom(),
            res@.no_duplicates(),
    {
        assert(it.seq().unref().take(it.index() + 1) =~= it.seq().unref().take(it.index() as int).push(*k));
        res.push(*k);
        assert(it.index() + 1 == it.seq().len() ==> it.seq().unref().take(it.index() + 1) =~= it.seq().unref());
    }
    res
}

/// The positions of the cells that box map `m` maps to `true`, each once.
pub(crate) fn open_positions(m: &HashMap<usize, bool>) -> (res: Vec<(usize, usize)>)
    requires
        keys_in_grid(m@),
    ensures
        lists_open(by_position(m@), res@),
        res@.len() == open_count(m@),
{
    let keys = open_keys(m);
    proof { lemma_open_count(m@, keys@); }
    let mut res: Vec<(usize, usize)> = Vec::new();
    let mut i: usize = 0;
    while i < keys.len()
        invariant
            keys_in_grid(m@),
            lists_open(m@, keys@),
            i <= keys@.len(),
            res@.len() == i,
            forall|j: int| 0 <= j < i ==> #[trigger] res@[j] == (keys@[j] / 9, keys@[j] % 9),
        decreases keys@.len() - i,
    {
        let k = keys[i];
        res.push((k / 9, k % 9));
        i = i + 1;
    }
    proof {
        assert forall|j: int| 0 <= j < keys@.len() implies #[trigger] keys@[j] == box_key(res@[j].0, res@[j].1)
            && res@[j].0 < 9 && res@[j].1 < 9 by {
            assert(keys@.contains(keys@[j]));
            let k = keys@[j];
            assert(k < 81);
            assert(k == (k / 9) * 9 + k % 9) by (nonlinear_arith);
        }
        assert forall|i: int, j: int| 0 <= i < j < res@.len() implies res@[i] != res@[j] by {
            assert(keys@[i] != keys@[j]);
        }
        assert forall|p: (usize, usize)| #[trigger] res@.contains(p) <==> (by_position(m@).contains_key(p)
            && by_position(m@)[p]) by {
            if res@.contains(p) {
                let j = choose|j: int| 0 <= j < res@.len() && res@[j] == p;
                assert(keys@.contains(keys@[j]));
            }
            if by_position(m@).contains_key(p) && by_position(m@)[p] {
                assert(keys@.contains(box_key(p.0, p.1)));
                let j = choose|j: int| 0 <= j < keys@.len() && keys@[j] == box_key(p.0, p.1);
                lemma_box_key(p.0, p.1, res@[j].0, res@[j].1);
                assert(res@[j] == p);
            }
        }
    }
    res
}

/// `res` carries `msg` once to each cell, seen from the cell at (`row`, `clm`), that the
/// row map (by column), the column map (by row) and the box map (by position) mark open:
/// first the row, then the column, then the box, each in its map's own order.
pub open spec fn addressed(
    res: Seq<Message>,
    row: usize,
    clm: usize,
    row_map: Map<usize, bool>,
    clm_map: Map<usize, bool>,
    box_map: Map<(usize, usize), bool>,
    msg: Rule,
) -> bool {
    exists|a: Seq<usize>, b: Seq<usize>, c: Seq<(usize, usize)>|
        #![trigger lists_open(row_map, a), lists_open(clm_map, b), lists_open(box_map, c)]
        {
            &&& lists_open(row_map, a)
            &&& lists_open(clm_map, b)
            &&& lists_open(box_map, c)
            &&& res == a.map_values(|k: usize| ((row, k), msg)) + b.map_values(|k: usize| ((k, clm), msg))
                + c.map_values(|p: (usize, usize)| (p, msg))
        }
}

/// The messages that carry `msg` from the cell at (`row`, `clm`) to every open cell of its
/// row map, column map and box map.
pub(crate) fn messages(
    row: usize,
    clm: usize,
    row_cs: &HashMap<usize, bool>,
    clm_cs: &HashMap<usize, bool>,
    box_cs: &HashMap<usize, bool>,
    msg: Rule,
) -> (res: Vec<Message>)
    requires
        keys_in_grid(box_cs@),
    ensures
        addressed(res@, row, clm, row_cs@, clm_cs@, by_position(box_cs@), msg),
        res@.len() == open_count(row_cs@) + open_count(clm_cs@) + open_count(box_cs@),
{
    let a = open_keys(row_cs);
    let b = open_keys(clm_cs);
    let c = open_positions(box_cs);
    proof {
        lemma_open_count(row_cs@, a@);
        lemma_open_count(clm_cs@, b@);
    }
    let mut res: Vec<Message> = Vec::new();
    let mut i: usize = 0;
    while i < a.len()
        invariant
            i <= a@.len(),
            res@ == a@.take(i as int).map_values(|k: usize| ((row, k), msg)),
        decreases a@.len() - i,
    {
        res.push(((row, a[i]), msg));
        proof {
            assert(a@.take(i + 1) =~= a@.take(i as int).push(a@[i as int]));
            assert(res@ =~= a@.take(i + 1).map_values(|k: usize| ((row, k), msg)));
        }
        i = i + 1;
    }
    let ghost first = res@;
    let mut i: usize = 0;
    while i < b.len()
        invariant
            i <= b@.len(),
            res@ == first + b@.take(i as int).map_values(|k: usize| ((k, clm), msg)),
        decreases b@.len() - i,
    {
        res.push(((b[i], clm), msg));
        proof {
            assert(b@.take(i + 1) =~= b@.take(i as int).push(b@[i as int]));
            assert(res@ =~= first + b@.take(i + 1).map_values(|k: usize| ((k, clm), msg)));
        }
        i = i + 1;
    }
    let ghost second = res@;
    let mut i: usize = 0;
    while i < c.len()
        invariant
            i <= c@.len(),
            res@ == second + c@.take(i as int).map_values(|p: (usize, usize)| (p, msg)),
        decreases c@.len() - i,
    {
        res.push((c[i], msg));
        proof {
            assert(c@.take(i + 1) =~= c@.take(i as int).push(c@[i as int]));
            assert(res@ =~= second + c@.take(i + 1).map_values(|p: (usize, usize)| (p, msg)));
        }
        i = i + 1;
    }
    proof {
        assert(a@.take(a@.len() as int) =~= a@);
        assert(b@.take(b@.len() as int) =~= b@);
        assert(c@.take(c@.len() as int) =~= c@);
        assert(lists_open(row_cs@, a@) && lists_open(clm_cs@, b@) && lists_open(by_position(box_cs@), c@));
    }
    res
}

/// Where each cell of the board can be reached: `None` for a decided cell, which takes no
/// messages; `Some(true)` for an undecided cell whose inbox has not been handed out yet;
/// `Some(false)` once it has.
pub struct Network {
    chs: Matrix<Option<bool>, 9>,
}

impl View for Network {
    type V = Seq<Seq<Option<bool>>>;

    closed spec fn view(&self) -> Seq<Seq<Option<bool>>> {
        self.chs@
    }
}

/// The cells of row `row`, by column, each with whether it takes messages.
pub open spec fn row_endpoints(g: Seq<Seq<Option<bool>>>, row: int) -> Map<usize, bool> {
    Map::new(|k: usize| k < 9, |k: usize| g[row][k as int] is Some)
}

/// The cells of column `clm`, by row, each with whether it takes messages.
pub open spec fn clm_endpoints(g: Seq<Seq<Option<bool>>>, clm: int) -> Map<usize, bool> {
    Map::new(|k: usize| k < 9, |k: usize| g[k as int][clm] is Some)
}

/// The cells of the box of (`row`, `clm`), by position, each with whether it takes messages.
pub open spec fn box_endpoints(g: Seq<Seq<Option<bool>>>, row: int, clm: int) -> Map<(usize, usize), bool> {
    Map::new(
        |p: (usize, usize)| p.0 < 9 && p.1 < 9 && p.0 / 3 == row / 3 && p.1 / 3 == clm / 3,
        |p: (usize, usize)| g[p.0 as int][p.1 as int] is Some,
    )
}

impl Network {
    /// The layout has 9 rows of 9 cells.
    pub open spec fn wf(&self) -> bool {
        is_square(self@, 9)
    }

    /// The layout of `puzzle`: every undecided cell takes messages, with its inbox
    /// not handed out yet; decided cells take none.
    pub fn new(puzzle: &Puzzle) -> (res: Network)
        requires
            puzzle.wf(),
        ensures
            res.wf(),
            forall|r: int, c: int|
                in_grid(r, c) ==> #[trigger] res@[r][c] == (if puzzle@[r][c] == 0 {
                    Some(true)
                } else {
                    None
                }),
    {
        let mut chs: Matrix<Option<bool>, 9> = Matrix::new();
        let mut r: usize = 0;
        while r < 9
            invariant
                puzzle.wf(),
                r <= 9,
                chs.wf(),
                forall|i: int, j: int|
                    0 <= i < r && 0 <= j < 9 ==> #[trigger] chs@[i][j] == (if puzzle@[i][j] == 0 {
                        Some(true)
                    } else {
                        None
                    }),
            decreases 9 - r,
        {
            let mut c: usize = 0;
            while c < 9
                invariant
                    puzzle.wf(),
                    r < 9,
                    c <= 9,
                    chs.wf(),
                    forall|i: int, j: int|
                        (0 <= i < r && 0 <= j < 9) || (i == r && 0 <= j < c) ==> #[trigger] chs@[i][j] == (
                        if puzzle@[i][j] == 0 {
                            Some(true)
                        } else {
                            None
                        }),
                decreases 9 - c,
            {
                let open = puzzle.get(r, c).len() != 1;
                *chs.get_mut(r, c) = if open {
                    Some(true)
                } else {
                    None
                };
                c = c + 1;
            }
            r = r + 1;
        }
        Network { chs }
    }

    /// Hands out the inbox of (`row`, `clm`): true where the cell takes messages and its inbox
    /// had not been handed out yet, which it now has; otherwise false, and nothing changes.
    pub fn take_rx_at(&mut self, row: usize, clm: usize) -> (res: bool)
        requires
            old(self).wf(),
            row < 9,
            clm < 9,
        ensures
            final(self).wf(),
            res == (old(self)@[row as int][clm as int] == Some(true)),
            final(self)@ == (if res {
                old(self)@.update(row as int, old(self)@[row as int].update(clm as int, Some(false)))
            } else {
                old(self)@
            }),
    {
        let current: Option<bool> = *self.chs.get(row, clm);
        match current {
            Some(true) => {
                *self.chs.get_mut(row, clm) = Some(false);
                true
            },
            _ => false,
        }
    }

    /// An inbox is handed out at most once: once `take_rx_at` has handed out the inbox of a
    /// cell, the layout no longer offers it.
    pub proof fn lemma_take_once(g: Seq<Seq<Option<bool>>>, row: int, clm: int)
        requires
            is_square(g, 9),
            in_grid(row, clm),
        ensures
            g.update(row, g[row].update(clm, Some(false)))[row][clm] != Some(true),
            g.update(row, g[row].update(clm, Some(false)))[row][clm] is Some,
    {
    }

    /// The cells of row `row`, by column, each with whether it takes messages.
    pub fn get_row_txs(&self, row: usize) -> (res: HashMap<usize, bool>)
        requires
            self.wf(),
            row < 9,
        ensures
            res@ == row_endpoints(self@, row as int),
    {
        let line = self.chs.row_neighbors_iter(row);
        let mut res: HashMap<usize, bool> = HashMap::new();
        let mut i: usize = 0;
        while i < 9
            invariant
                self.wf(),
                row < 9,
                i <= 9,
                line@.len() == 9,
                forall|j: int| 0 <= j < 9 ==> *#[trigger] line@[j] == self@[row as int][j],
                res@ == Map::new(|k: usize| k < i, |k: usize| self@[row as int][k as int] is Some),
            decreases 9 - i,
        {
            res.insert(i, line[i].is_some());
            proof {
                assert(res@ =~= Map::new(|k: usize| k < i + 1, |k: usize| self@[row as int][k as int] is Some));
            }
            i = i + 1;
        }
        proof {
            assert(res@ =~= row_endpoints(self@, row as int));
        }
        res
    }

    /// The cells of column `clm`, by row, each with whether it takes messages.
    pub fn get_clm_txs(&self, clm: usize) -> (res: HashMap<usize, bool>)
        requires
            self.wf(),
            clm < 9,
        ensures
            res@ == clm_endpoints(self@, clm as int),
    {
        let line = self.chs.clm_neighbors_iter(clm);
        let mut res: HashMap<usize, bool> = HashMap::new();
        let mut i: usize = 0;
        while i < 9
            invariant
                self.wf(),
                clm < 9,
                i <= 9,
                line@.len() == 9,
                forall|j: int| 0 <= j < 9 ==> *#[trigger] line@[j] == self@[j][clm as int],
                res@ == Map::new(|k: usize| k < i, |k: usize| self@[k as int][clm as int] is Some),
            decreases 9 - i,
        {
            res.insert(i, line[i].is_some());
            proof {
                assert(res@ =~= Map::new(|k: usize| k < i + 1, |k: usize| self@[k as int][clm as int] is Some));
            }
            i = i + 1;
        }
        proof {
            assert(res@ =~= clm_endpoints(self@, clm as int));
        }
        res
    }

    /// The cells of the box of (`row`, `clm`), each with whether it takes messages; a cell
    /// at (r, c) is kept under the key r * 9 + c.
    pub fn get_box_txs(&self, row: usize, clm: usize) -> (res: HashMap<usize, bool>)
        requires
            self.wf(),
            row < 9,
            clm < 9,
        ensures
            keys_in_grid(res@),
            by_position(res@) == box_endpoints(self@, row as int, clm as int),
    {
        let upper_row: usize = row / 3 * 3;
        let leftmost_clm: usize = clm / 3 * 3;
        let mut res: HashMap<usize, bool> = HashMap::new();
        let mut r: usize = 0;
        while r < 3
            invariant
                self.wf(),
                row < 9,
                clm < 9,
                upper_row == row / 3 * 3,
                leftmost_clm == clm / 3 * 3,
                r <= 3,
                keys_in_grid(res@),
                by_position(res@) == Map::new(
                    |p: (usize, usize)| upper_row <= p.0 < upper_row + r && leftmost_clm <= p.1 < leftmost_clm + 3,
                    |p: (usize, usize)| self@[p.0 as int][p.1 as int] is Some,
                ),
            decreases 3 - r,
        {
            let mut c: usize = 0;
            while c < 3
                invariant
                    self.wf(),
                    row < 9,
                    clm < 9,
                    upper_row == row / 3 * 3,
                    leftmost_clm == clm / 3 * 3,
                    r < 3,
                    c <= 3,
                    keys_in_grid(res@),
                    by_position(res@) == Map::new(
                        |p: (usize, usize)|
                            (upper_row <= p.0 < upper_row + r && leftmost_clm <= p.1 < leftmost_clm + 3) || (p.0
                                == upper_row + r && leftmost_clm <= p.1 < leftmost_clm + c),
                        |p: (usize, usize)| self@[p.0 as int][p.1 as int] is Some,
                    ),
                decreases 3 - c,
            {
                let rr: usize = upper_row + r;
                let cc: usize = leftmost_clm + c;
                let open = self.chs.get(rr, cc).is_some();
                let ghost before = res@;
                res.insert(rr * 9 + cc, open);
                proof {
                    let target = Map::new(
                        |p: (usize, usize)|
                            (upper_row <= p.0 < upper_row + r && leftmost_clm <= p.1 < leftmost_clm + 3) || (p.0
                                == upper_row + r && leftmost_clm <= p.1 < leftmost_clm + c + 1),
                        |p: (usize, usize)| self@[p.0 as int][p.1 as int] is Some,
                    );
                    assert forall|p: (usize, usize)| #[trigger] by_position(res@).contains_key(p) <==> target.contains_key(p) by {
                        if p.0 < 9 && p.1 < 9 {
                            lemma_box_key(p.0, p.1, rr, cc);
                            assert(res@.contains_key(box_key(p.0, p.1)) <==> (before.contains_key(box_key(p.0, p.1))
                                || box_key(p.0, p.1) == box_key(rr, cc)));
                            assert(by_position(before).contains_key(p) <==> before.contains_key(box_key(p.0, p.1)));
                        }
                    }
                    assert forall|p: (usize, usize)| by_position(res@).contains_key(p) implies
                        #[trigger] by_position(res@)[p] == target[p] by {
                        lemma_box_key(p.0, p.1, rr, cc);
                        if p != (rr, cc) {
                            assert(before.contains_key(box_key(p.0, p.1)));
                            assert(by_position(before).contains_key(p));
                            assert(by_position(before)[p] == before[box_key(p.0, p.1)]);
                        }
                    }
                    assert(by_position(res@) =~= target);
                    lemma_box_key(rr, cc, rr, cc);
                }
                c = c + 1;
            }
            r = r + 1;
        }
        proof {
            assert forall|p: (usize, usize)| #[trigger] box_endpoints(self@, row as int, clm as int).contains_key(p)
                <==> (upper_row <= p.0 < upper_row + 3 && leftmost_clm <= p.1 < leftmost_clm + 3) by {
            }
            assert(by_position(res@) =~= box_endpoints(self@, row as int, clm as int));
        }
        res
    }
}

} // verus!
