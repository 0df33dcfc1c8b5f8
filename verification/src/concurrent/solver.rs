use vstd::prelude::*;
use crate::concurrent::detective::{Candidates, Cell, sent_to};
use crate::concurrent::network::{Message, Network, box_endpoints, clm_endpoints, row_endpoints};
use crate::concurrent::rule::{Rule, RuleType};
use crate::sequential::put;
use crate::sudoku::{Puzzle, full_digits, in_grid};

verus! {

/// A digit found for the cell at (`row`, `clm`), and why.
#[derive(Debug)]
pub struct Clue {
    pub row: usize,
    pub clm: usize,
    pub digit: usize,
    pub reason: RuleType,
}

/// How a cell of the board takes part in the search.
pub enum Setup {
    /// A decided cell: it only announces its digit, with these messages.
    Given(Vec<Message>),
    /// An undecided cell: it investigates as this detective, reading its own inbox.
    Open(Cell),
}

/// `cs` are the suspects of the cell at (`r`, `c`) in the layout `net`.
pub open spec fn suspects_from(cs: Candidates, net: Seq<Seq<Option<bool>>>, r: usize, c: usize) -> bool {
    &&& cs.owner() == (r, c)
    &&& cs.row_map() == row_endpoints(net, r as int).remove(c)
    &&& cs.clm_map() == clm_endpoints(net, c as int).remove(r)
    &&& cs.box_map() == box_endpoints(net, r as int, c as int).remove((r, c))
}

/// Sets up the cell at (`r`, `c`) of `puzzle` in `network`: a decided cell announces its digit
/// to every other cell of its row, column and box that takes messages; an undecided cell
/// becomes a detective for every digit, suspecting those same cells, and its inbox is handed
/// out.
pub fn prepare_cell(puzzle: &Puzzle, network: &mut Network, r: usize, c: usize) -> (res: Setup)
    requires
        puzzle.wf(),
        old(network).wf(),
        r < 9,
        c < 9,
        puzzle@[r as int][c as int] == 0 ==> old(network)@[r as int][c as int] == Some(true),
    ensures
        final(network).wf(),
        match res {
            Setup::Given(msgs) => {
                &&& puzzle@[r as int][c as int] != 0
                &&& final(network)@ == old(network)@
                &&& exists|cs: Candidates| #[trigger] suspects_from(cs, old(network)@, r, c)
                    && sent_to(msgs@, cs, Rule { type_id: RuleType::Discovery, row: r, clm: c, digit: puzzle@[r as int][c as int] })
            },
            Setup::Open(cell) => {
                &&& puzzle@[r as int][c as int] == 0
                &&& final(network)@ == old(network)@.update(r as int, old(network)@[r as int].update(c as int, Some(false)))
                &&& cell.wf()
                &&& cell.position() == (r, c)
                &&& cell.digits().dom() == full_digits()
                &&& forall|k: usize| #[trigger] cell.digits().contains_key(k) ==> suspects_from(cell.digits()[k], old(network)@, r, c)
            },
        },
{
    let candidates = Candidates::new(r, c, network);
    let digits = puzzle.get(r, c);
    if digits.len() == 1 {
        proof {
            crate::sudoku::lemma_value_of(puzzle@[r as int][c as int]);
            assert(digits@.to_set().contains(digits@[0]));
        }
        let rest = Rule { type_id: RuleType::Discovery, row: r, clm: c, digit: digits[0] };
        let msgs = candidates.notify(rest);
        proof {
            assert(suspects_from(candidates, old(network)@, r, c));
        }
        return Setup::Given(msgs);
    }
    network.take_rx_at(r, c);
    let det = Cell::new(r, c, candidates);
    Setup::Open(det)
}

/// `g` with the digit of each rule of `rules` decided in its cell, in order.
pub open spec fn apply_discoveries(g: Seq<Seq<usize>>, rules: Seq<Rule>) -> Seq<Seq<usize>>
    decreases rules.len(),
{
    if rules.len() == 0 {
        g
    } else {
        let last = rules.last();
        put(apply_discoveries(g, rules.drop_last()), last.row as int, last.clm as int, last.digit)
    }
}

/// Whether a rule of `rules` after the `i`-th names the cell at (`r`, `c`).
pub open spec fn named_after(rules: Seq<Rule>, i: int, r: int, c: int) -> bool {
    exists|j: int| i < j < rules.len() && (#[trigger] rules[j]).row == r && rules[j].clm == c
}

/// Writing discoveries into a grid: each cell that some rule names ends up holding the digit
/// of the last rule that names it, and every cell that no rule names keeps what it held.
pub proof fn lemma_discoveries_written(g: Seq<Seq<usize>>, rules: Seq<Rule>)
    requires
        crate::utils::is_square(g, 9),
        forall|i: int| 0 <= i < rules.len() ==> in_grid((#[trigger] rules[i]).row as int, rules[i].clm as int),
    ensures
        crate::utils::is_square(apply_discoveries(g, rules), 9),
        forall|r: int, c: int|
            in_grid(r, c) && !named_after(rules, -1, r, c) ==> #[trigger] apply_discoveries(g, rules)[r][c] == g[r][c],
        forall|i: int|
            0 <= i < rules.len() && !named_after(rules, i, (#[trigger] rules[i]).row as int, rules[i].clm as int)
                ==> apply_discoveries(g, rules)[rules[i].row as int][rules[i].clm as int] == rules[i].digit,
    decreases rules.len(),
{
    if rules.len() > 0 {
        let pre = rules.drop_last();
        let last = rules.last();
        let n = rules.len() - 1;
        lemma_discoveries_written(g, pre);
        let a = apply_discoveries(g, pre);
        assert(apply_discoveries(g, rules) == put(a, last.row as int, last.clm as int, last.digit));
        assert forall|r: int, c: int|
            in_grid(r, c) && !named_after(rules, -1, r, c) implies #[trigger] apply_discoveries(g, rules)[r][c] == g[r][c] by {
            if named_after(pre, -1, r, c) {
                let j = choose|j: int| -1 < j < pre.len() && (#[trigger] pre[j]).row == r && pre[j].clm == c;
                assert(rules[j] == pre[j]);
            }
            if last.row == r && last.clm == c {
                assert(rules[n] == last);
            }
        }
        assert forall|i: int|
            0 <= i < rules.len() && !named_after(rules, i, (#[trigger] rules[i]).row as int, rules[i].clm as int)
                implies apply_discoveries(g, rules)[rules[i].row as int][rules[i].clm as int] == rules[i].digit by {
            if i < n {
                assert(rules[i] == pre[i]);
                if named_after(pre, i, rules[i].row as int, rules[i].clm as int) {
                    let j = choose|j: int| i < j < pre.len() && (#[trigger] pre[j]).row == rules[i].row && pre[j].clm == rules[i].clm;
                    assert(rules[j] == pre[j]);
                }
                assert(!(last.row == rules[i].row && last.clm == rules[i].clm)) by {
                    assert(rules[n] == last);
                }
            }
        }
    }
}

/// Writes into `puzzle` the digit of every rule in `found`, in order.
pub fn record_discoveries(puzzle: &mut Puzzle, found: &Vec<Rule>)
    requires
        old(puzzle).wf(),
        forall|i: int| 0 <= i < found@.len() ==> in_grid((#[trigger] found@[i]).row as int, found@[i].clm as int),
    ensures
        final(puzzle).wf(),
        final(puzzle)@ == apply_discoveries(old(puzzle)@, found@),
        forall|r: int, c: int|
            in_grid(r, c) && !named_after(found@, -1, r, c) ==> #[trigger] final(puzzle)@[r][c] == old(puzzle)@[r][c],
        forall|i: int|
            0 <= i < found@.len() && !named_after(found@, i, (#[trigger] found@[i]).row as int, found@[i].clm as int)
                ==> final(puzzle)@[found@[i].row as int][found@[i].clm as int] == found@[i].digit,
{
    let mut i: usize = 0;
    while i < found.len()
        invariant
            puzzle.wf(),
            i <= found@.len(),
            forall|j: int| 0 <= j < found@.len() ==> in_grid((#[trigger] found@[j]).row as int, found@[j].clm as int),
            puzzle@ == apply_discoveries(old(puzzle)@, found@.take(i as int)),
        decreases found@.len() - i,
    {
        let clue = found[i];
        proof {
            assert(in_grid(found@[i as int].row as int, found@[i as int].clm as int));
        }
        puzzle.set_at(clue.row, clue.clm, clue.digit);
        proof {
            assert(found@.take(i + 1).drop_last() =~= found@.take(i as int));
        }
        i = i + 1;
    }
    proof {
        assert(found@.take(found@.len() as int) =~= found@);
        old(puzzle).lemma_shape();
        lemma_discoveries_written(old(puzzle)@, found@);
    }
}

} // verus!
