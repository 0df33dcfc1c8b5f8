use std::collections::HashMap;
use vstd::prelude::*;
use crate::concurrent::network::{
    Message, Network, addressed, box_endpoints, box_key, by_position, clm_endpoints, key_list,
    keys_in_grid, lemma_box_key, messages, open_count, row_endpoints,
};
use crate::concurrent::rule::{Rule, RuleType};

verus! {

broadcast use vstd::std_specs::hash::group_hash_axioms;

/// The other cells of the row, the column and the box of the cell at (`row`, `clm`) that are
/// still suspected of holding a given digit, each with whether it takes messages. The digit
/// belongs to the cell once one of the three groups is cleared.
pub struct Candidates {
    row: usize,
    clm: usize,
    row_cs: HashMap<usize, bool>,
    clm_cs: HashMap<usize, bool>,
    box_cs: HashMap<usize, bool>,
}

impl Candidates {
    /// The cell whose suspects these are.
    pub closed spec fn owner(&self) -> (usize, usize) {
        (self.row, self.clm)
    }

    /// The suspects in the row, by column.
    pub closed spec fn row_map(&self) -> Map<usize, bool> {
        self.row_cs@
    }

    /// The suspects in the column, by row.
    pub closed spec fn clm_map(&self) -> Map<usize, bool> {
        self.clm_cs@
    }

    /// The suspects in the box, by position.
    pub closed spec fn box_map(&self) -> Map<(usize, usize), bool> {
        by_position(self.box_cs@)
    }

    /// How many suspects take messages, counted once per group they are in.
    pub closed spec fn open_total(&self) -> nat {
        open_count(self.row_cs@) + open_count(self.clm_cs@) + open_count(self.box_cs@)
    }

    /// Every box suspect stands for a cell of the grid.
    pub closed spec fn wf(&self) -> bool {
        keys_in_grid(self.box_cs@)
    }

    /// Whether the row, the column or the box has no suspect left.
    pub open spec fn spec_win(&self) -> bool {
        self.row_map().is_empty() || self.clm_map().is_empty() || self.box_map().is_empty()
    }

    proof fn lemma_box_empty(&self)
        requires
            self.wf(),
        ensures
            self.box_cs@.is_empty() <==> self.box_map().is_empty(),
    {
        if !self.box_cs@.is_empty() {
            let k = self.box_cs@.dom().choose();
            assert(self.box_cs@.dom().contains(k));
            assert(k == (k / 9) * 9 + k % 9) by (nonlinear_arith);
            lemma_box_key(k / 9, k % 9, k / 9, k % 9);
            assert(self.box_map().dom().contains((k / 9, k % 9)));
        }
        if !self.box_map().is_empty() {
            let p = self.box_map().dom().choose();
            assert(self.box_map().dom().contains(p));
            assert(self.box_cs@.dom().contains(box_key(p.0, p.1)));
        }
    }

    /// The suspects of the cell at (`row`, `clm`) in `network`: every other cell of its row,
    /// its column and its box.
    pub fn new(row: usize, clm: usize, network: &Network) -> (res: Candidates)
        requires
            network.wf(),
            row < 9,
            clm < 9,
        ensures
            res.wf(),
            res.owner() == (row, clm),
            res.row_map() == row_endpoints(network@, row as int).remove(clm),
            res.clm_map() == clm_endpoints(network@, clm as int).remove(row),
            res.box_map() == box_endpoints(network@, row as int, clm as int).remove((row, clm)),
    {
        let mut suspect = Candidates {
            row,
            clm,
            row_cs: network.get_row_txs(row),
            clm_cs: network.get_clm_txs(clm),
            box_cs: network.get_box_txs(row, clm),
        };
        suspect.row_cs.remove(&clm);
        suspect.clm_cs.remove(&row);
        suspect.remove_box_candidate_at((row, clm));
        suspect
    }

    /// The messages that carry `msg` to every suspect that takes messages: those of the row,
    /// then of the column, then of the box.
    pub fn notify(&self, msg: Rule) -> (res: Vec<Message>)
        requires
            self.wf(),
        ensures
            addressed(res@, self.owner().0, self.owner().1, self.row_map(), self.clm_map(), self.box_map(), msg),
            res@.len() == self.open_total(),
    {
        messages(self.row, self.clm, &self.row_cs, &self.clm_cs, &self.box_cs, msg)
    }

    /// The cell in column `i` of the row is no longer a suspect.
    fn remove_row_candidate_at(&mut self, i: usize)
        requires
            old(self).wf(),
        ensures
            final(self).wf(),
            final(self).owner() == old(self).owner(),
            final(self).row_map() == old(self).row_map().remove(i),
            final(self).clm_map() == old(self).clm_map(),
            final(self).box_map() == old(self).box_map(),
    {
        self.row_cs.remove(&i);
    }

    /// The cell in row `i` of the column is no longer a suspect.
    fn remove_clm_candidate_at(&mut self, i: usize)
        requires
            old(self).wf(),
        ensures
            final(self).wf(),
            final(self).owner() == old(self).owner(),
            final(self).row_map() == old(self).row_map(),
            final(self).clm_map() == old(self).clm_map().remove(i),
            final(self).box_map() == old(self).box_map(),
    {
        self.clm_cs.remove(&i);
    }

    /// The cell at position `i` of the box is no longer a suspect.
    fn remove_box_candidate_at(&mut self, i: (usize, usize))
        requires
            old(self).wf(),
        ensures
            final(self).wf(),
            final(self).owner() == old(self).owner(),
            final(self).row_map() == old(self).row_map(),
            final(self).clm_map() == old(self).clm_map(),
            final(self).box_map() == old(self).box_map().remove(i),
    {
        let ghost before = self.box_cs@;
        let (row, clm) = i;
        if row < 9 && clm < 9 {
            self.box_cs.remove(&(row * 9 + clm));
            proof {
                assert forall|p: (usize, usize)| #[trigger] by_position(self.box_cs@).contains_key(p)
                    <==> by_position(before).remove(i).contains_key(p) by {
                    if p.0 < 9 && p.1 < 9 {
                        lemma_box_key(p.0, p.1, row, clm);
                    }
                }
            }
        }
        assert(by_position(self.box_cs@) =~= by_position(before).remove(i));
    }

    /// Whether the digit belongs to the cell at (`row`, `clm`) (the owner): its row, its column
    /// or its box has no suspect left.
    fn win(&self, row: usize, clm: usize) -> (res: bool)
        requires
            self.wf(),
        ensures
            res == (self.row_map().is_empty() || self.clm_map().is_empty() || self.box_map().is_empty()),
    {
        proof { self.lemma_box_empty(); }
        self.row_cs.is_empty() || self.clm_cs.is_empty() || self.box_cs.is_empty()
    }
}

impl Clone for Candidates {
    fn clone(&self) -> (res: Candidates)
        ensures
            res.owner() == self.owner(),
            res.row_map() == self.row_map(),
            res.clm_map() == self.clm_map(),
            res.box_map() == self.box_map(),
            res.open_total() == self.open_total(),
            res.wf() == self.wf(),
    {
        Candidates {
            row: self.row,
            clm: self.clm,
            row_cs: self.row_cs.clone(),
            clm_cs: self.clm_cs.clone(),
            box_cs: self.box_cs.clone(),
        }
    }
}

/// `new` is `old` after the cell at (`cell_row`, `cell_clm`) learned of a discovery at
/// (`row`, `clm`): the discovering cell is no longer a suspect in the groups the two share.
pub open spec fn suspects_removed(new: Candidates, old: Candidates, row: usize, clm: usize, cell_row: usize, cell_clm: usize) -> bool {
    &&& new.wf()
    &&& new.owner() == old.owner()
    &&& new.row_map() == (if cell_row == row {
        old.row_map().remove(clm)
    } else {
        old.row_map()
    })
    &&& new.clm_map() == (if cell_clm == clm {
        old.clm_map().remove(row)
    } else {
        old.clm_map()
    })
    &&& new.box_map() == (if cell_row / 3 == row / 3 && cell_clm / 3 == clm / 3 {
        old.box_map().remove((row, clm))
    } else {
        old.box_map()
    })
}

/// Suspects only ever go: once a group of a digit is cleared, it stays cleared after a discovery.
pub proof fn lemma_win_stays(old: Candidates, new: Candidates, row: usize, clm: usize, cell_row: usize, cell_clm: usize)
    requires
        old.spec_win(),
        suspects_removed(new, old, row, clm, cell_row, cell_clm),
    ensures
        new.spec_win(),
{
    if old.row_map().is_empty() {
        assert(new.row_map().dom() =~= Set::empty());
    } else if old.clm_map().is_empty() {
        assert(new.clm_map().dom() =~= Set::empty());
    } else {
        assert(new.box_map().dom() =~= Set::empty());
    }
}

/// The rule with which the cell at `pos` announces that it holds `digit`.
pub open spec fn announcement(pos: (usize, usize), digit: usize) -> Rule {
    Rule { type_id: RuleType::Discovery, digit, row: pos.0, clm: pos.1 }
}

/// `out` carries `r` to every suspect of `cs` that takes messages.
pub open spec fn sent_to(out: Seq<Message>, cs: Candidates, r: Rule) -> bool {
    addressed(out, cs.owner().0, cs.owner().1, cs.row_map(), cs.clm_map(), cs.box_map(), r)
}

/// What `Cell::on_discovery` does to the cell at `pos`, going from `old` to `new` digits, when
/// `digit` was found at (`row`, `clm`), returning `out_rule` and the messages `out`.
pub open spec fn discovery_step(
    pos: (usize, usize),
    old: Map<usize, Candidates>,
    new: Map<usize, Candidates>,
    digit: usize,
    row: usize,
    clm: usize,
    out_rule: Option<Rule>,
    out: Seq<Message>,
) -> bool {
    if !old.contains_key(digit) {
        &&& out_rule is None
        &&& out.len() == 0
        &&& new == old
    } else {
        let rest = old.remove(digit);
        let n = old[digit].open_total() as int;
        &&& new.dom() == rest.dom()
        &&& forall|k: usize| #[trigger] rest.contains_key(k) ==> suspects_removed(new[k], rest[k], row, clm, pos.0, pos.1)
        &&& out.len() >= n
        &&& sent_to(out.subrange(0, n), old[digit], Rule { type_id: RuleType::Clue, digit, row: pos.0, clm: pos.1 })
        &&& match out_rule {
            Some(r) => {
                &&& new.contains_key(r.digit)
                &&& r == announcement(pos, r.digit)
                &&& rest.len() == 1 || new[r.digit].spec_win()
                &&& sent_to(out.subrange(n, out.len() as int), new[r.digit], r)
            },
            None => {
                &&& rest.len() != 1
                &&& forall|k: usize| #[trigger] new.contains_key(k) ==> !new[k].spec_win()
                &&& out.len() == n
            },
        }
    }
}

/// What `Cell::on_hint` does to the cell at `pos`, going from `old` to `new` digits, when
/// the cell at (`row`, `clm`) can no longer hold `digit`, returning `out_rule` and the
/// messages `out`.
pub open spec fn hint_step(
    pos: (usize, usize),
    old: Map<usize, Candidates>,
    new: Map<usize, Candidates>,
    digit: usize,
    row: usize,
    clm: usize,
    out_rule: Option<Rule>,
    out: Seq<Message>,
) -> bool {
    if !old.contains_key(digit) {
        &&& out_rule is None
        &&& out.len() == 0
        &&& new == old
    } else {
        &&& new.dom() == old.dom()
        &&& forall|k: usize| old.contains_key(k) && k != digit ==> #[trigger] new[k] == old[k]
        &&& suspects_removed(new[digit], old[digit], row, clm, pos.0, pos.1)
        &&& if new[digit].spec_win() {
            out_rule == Some(announcement(pos, digit)) && sent_to(out, new[digit], announcement(pos, digit))
        } else {
            out_rule is None && out.len() == 0
        }
    }
}

/// A digit belongs to the cell exactly when its suspects in the row, in the column or in the
/// box have run out; an empty box group alone is enough.
pub proof fn lemma_win_iff_group_empty(cs: Candidates)
    ensures
        cs.spec_win() <==> (cs.row_map().is_empty() || cs.clm_map().is_empty() || cs.box_map().is_empty()),
        cs.box_map().is_empty() ==> cs.spec_win(),
{
}

/// A discovery of `digit` at (`row`, `clm`) reaching the cell at `pos`, whose digits go from
/// `old` to `new` while it answers `out_rule` and the messages `out`. A cell without `digit`
/// stays as it was and says nothing. A cell with it gives it up; each other digit keeps its
/// suspects but the finder, which leaves every group it shares with the cell; the cell tells
/// the suspects of `digit` that it gave it up; and it announces a digit, at its own position,
/// exactly when one digit is left or some digit has a group with no suspect left, the last
/// digit where only one is left.
pub proof fn lemma_discovery_reaction(
    pos: (usize, usize),
    old: Map<usize, Candidates>,
    new: Map<usize, Candidates>,
    digit: usize,
    row: usize,
    clm: usize,
    out_rule: Option<Rule>,
    out: Seq<Message>,
)
    requires
        discovery_step(pos, old, new, digit, row, clm, out_rule, out),
    ensures
        !old.contains_key(digit) ==> new == old && out_rule is None && out.len() == 0,
        old.contains_key(digit) ==> new.dom() == old.dom().remove(digit),
        old.contains_key(digit) ==> forall|k: usize| #[trigger] new.contains_key(k) ==> {
            &&& new[k].owner() == old[k].owner()
            &&& new[k].row_map() == (if pos.0 == row {
                old[k].row_map().remove(clm)
            } else {
                old[k].row_map()
            })
            &&& new[k].clm_map() == (if pos.1 == clm {
                old[k].clm_map().remove(row)
            } else {
                old[k].clm_map()
            })
            &&& new[k].box_map() == (if pos.0 / 3 == row / 3 && pos.1 / 3 == clm / 3 {
                old[k].box_map().remove((row, clm))
            } else {
                old[k].box_map()
            })
        },
        old.contains_key(digit) ==> {
            let n = old[digit].open_total() as int;
            let od = old[digit];
            &&& n <= out.len()
            &&& addressed(out.subrange(0, n), od.owner().0, od.owner().1, od.row_map(), od.clm_map(), od.box_map(),
                Rule { type_id: RuleType::Clue, digit, row: pos.0, clm: pos.1 })
        },
        old.contains_key(digit) ==> (out_rule is Some <==> (new.dom().len() == 1 || exists|k: usize|
            #[trigger] new.contains_key(k) && (new[k].row_map().is_empty() || new[k].clm_map().is_empty()
                || new[k].box_map().is_empty()))),
        old.contains_key(digit) ==> forall|k: usize| #[trigger] new.dom().remove(k).is_empty() && new.contains_key(k)
            ==> out_rule == Some(Rule { type_id: RuleType::Discovery, digit: k, row: pos.0, clm: pos.1 }),
        out_rule matches Some(r) ==> {
            let nr = new[r.digit];
            &&& new.contains_key(r.digit)
            &&& r == Rule { type_id: RuleType::Discovery, digit: r.digit, row: pos.0, clm: pos.1 }
            &&& addressed(out.subrange(old[digit].open_total() as int, out.len() as int), nr.owner().0, nr.owner().1,
                nr.row_map(), nr.clm_map(), nr.box_map(), r)
        },
        out_rule is None && old.contains_key(digit) ==> out.len() == old[digit].open_total(),
{
    if old.contains_key(digit) {
        let rest = old.remove(digit);
        assert(new.dom() == rest.dom());
        assert forall|k: usize| #[trigger] new.contains_key(k) implies rest.contains_key(k) && rest[k] == old[k] by {}
        if out_rule is None {
            assert forall|k: usize| #[trigger] new.contains_key(k) implies !(new[k].row_map().is_empty()
                || new[k].clm_map().is_empty() || new[k].box_map().is_empty()) by {
                assert(!new[k].spec_win());
            }
        } else {
            let r = out_rule.unwrap();
            if new.dom().len() != 1 {
                assert(new[r.digit].spec_win());
            }
        }
        assert forall|k: usize| #[trigger] new.dom().remove(k).is_empty() && new.contains_key(k)
            implies out_rule == Some(Rule { type_id: RuleType::Discovery, digit: k, row: pos.0, clm: pos.1 }) by {
            assert(new.dom() =~= set![k]);
            assert(rest.len() == 1);
            let r = out_rule.unwrap();
            assert(new.dom().contains(r.digit));
        }
    }
}

/// A clue that the cell at (`row`, `clm`) cannot hold `digit` reaching the cell at `pos`,
/// whose digits go from `old` to `new` while it answers `out_rule` and the messages `out`. A
/// cell without `digit` stays as it was and says nothing. A cell with it keeps every other
/// digit as it was, and takes the sender off the suspects of `digit` in each group it shares
/// with the cell; it announces `digit`, at its own position and to its remaining suspects,
/// exactly when one of those groups has no suspect left, and otherwise sends nothing.
pub proof fn lemma_clue_reaction(
    pos: (usize, usize),
    old: Map<usize, Candidates>,
    new: Map<usize, Candidates>,
    digit: usize,
    row: usize,
    clm: usize,
    out_rule: Option<Rule>,
    out: Seq<Message>,
)
    requires
        hint_step(pos, old, new, digit, row, clm, out_rule, out),
    ensures
        !old.contains_key(digit) ==> new == old && out_rule is None && out.len() == 0,
        old.contains_key(digit) ==> {
            let nd = new[digit];
            &&& new.dom() == old.dom()
            &&& forall|k: usize| old.contains_key(k) && k != digit ==> #[trigger] new[k] == old[k]
            &&& nd.owner() == old[digit].owner()
            &&& nd.row_map() == (if pos.0 == row {
                old[digit].row_map().remove(clm)
            } else {
                old[digit].row_map()
            })
            &&& nd.clm_map() == (if pos.1 == clm {
                old[digit].clm_map().remove(row)
            } else {
                old[digit].clm_map()
            })
            &&& nd.box_map() == (if pos.0 / 3 == row / 3 && pos.1 / 3 == clm / 3 {
                old[digit].box_map().remove((row, clm))
            } else {
                old[digit].box_map()
            })
            &&& (out_rule is Some <==> (nd.row_map().is_empty() || nd.clm_map().is_empty() || nd.box_map().is_empty()))
            &&& out_rule is Some ==> {
                &&& out_rule == Some(Rule { type_id: RuleType::Discovery, digit, row: pos.0, clm: pos.1 })
                &&& addressed(out, nd.owner().0, nd.owner().1, nd.row_map(), nd.clm_map(), nd.box_map(),
                    Rule { type_id: RuleType::Discovery, digit, row: pos.0, clm: pos.1 })
            }
            &&& out_rule is None ==> out.len() == 0
        },
{
}

/// A cell that has not found its digit yet: for each digit it may still hold, the suspects
/// that may hold it instead.
pub struct Cell {
    row: usize,
    clm: usize,
    digits: HashMap<usize, Candidates>,
}

impl Cell {
    /// The position of the cell.
    pub closed spec fn position(&self) -> (usize, usize) {
        (self.row, self.clm)
    }

    /// For each digit the cell may still hold, its suspects.
    pub closed spec fn digits(&self) -> Map<usize, Candidates> {
        self.digits@
    }

    /// Every set of suspects is well formed.
    pub open spec fn wf(&self) -> bool {
        forall|k: usize| self.digits().contains_key(k) ==> (#[trigger] self.digits()[k]).wf()
    }

    /// The cell at (`row`, `clm`), open to every digit from 1 to 9, each with the same `candidates`.
    pub fn new(row: usize, clm: usize, candidates: Candidates) -> (res: Cell)
        requires
            candidates.wf(),
        ensures
            res.wf(),
            res.position() == (row, clm),
            res.digits().dom() == crate::sudoku::full_digits(),
            forall|k: usize|
                res.digits().contains_key(k) ==> {
                    &&& (#[trigger] res.digits()[k]).owner() == candidates.owner()
                    &&& res.digits()[k].row_map() == candidates.row_map()
                    &&& res.digits()[k].clm_map() == candidates.clm_map()
                    &&& res.digits()[k].box_map() == candidates.box_map()
                },
    {
        let mut digits: HashMap<usize, Candidates> = HashMap::new();
        let mut digit: usize = 1;
        while digit <= 9
            invariant
                candidates.wf(),
                1 <= digit <= 10,
                digits@.dom() == Set::new(|d: usize| 1 <= d < digit),
                forall|k: usize|
                    digits@.contains_key(k) ==> {
                        &&& (#[trigger] digits@[k]).wf()
                        &&& digits@[k].owner() == candidates.owner()
                        &&& digits@[k].row_map() == candidates.row_map()
                        &&& digits@[k].clm_map() == candidates.clm_map()
                        &&& digits@[k].box_map() == candidates.box_map()
                    },
            decreases 10 - digit,
        {
            digits.insert(digit, candidates.clone());
            assert(digits@.dom() =~= Set::new(|d: usize| 1 <= d < digit + 1));
            digit = digit + 1;
        }
        assert(digits@.dom() =~= crate::sudoku::full_digits());
        Cell { row, clm, digits }
    }

    /// The discovery at (`row`, `clm`) takes that cell off the suspects of `digit`, in the
    /// groups it shares with this cell.
    fn remove_digit_candidate_at(&mut self, digit: usize, row: usize, clm: usize)
        requires
            old(self).wf(),
            old(self).digits().contains_key(digit),
        ensures
            final(self).wf(),
            final(self).position() == old(self).position(),
            final(self).digits().dom() == old(self).digits().dom(),
            forall|k: usize| old(self).digits().contains_key(k) && k != digit ==> #[trigger] final(self).digits()[k] == old(self).digits()[k],
            suspects_removed(final(self).digits()[digit], old(self).digits()[digit], row, clm, old(self).row, old(self).clm),
    {
        proof {
            assert(old(self).digits()[digit].wf());
        }
        let mut cs = self.digits.remove(&digit).unwrap();
        if self.row == row {
            cs.remove_row_candidate_at(clm);
        }
        if self.clm == clm {
            cs.remove_clm_candidate_at(row);
        }
        if self.row / 3 == row / 3 && self.clm / 3 == clm / 3 {
            cs.remove_box_candidate_at((row, clm));
        }
        self.digits.insert(digit, cs);
        proof {
            assert(self.digits@.dom() =~= old(self).digits@.dom());
            assert forall|k: usize| self.digits@.contains_key(k) implies (#[trigger] self.digits@[k]).wf() by {
                if k != digit {
                    assert(old(self).digits()[k].wf());
                }
            }
        }
    }

    /// `digit` was found at (`row`, `clm`): the cell gives it up and tells the suspects of
    /// `digit` so (a clue), the finder is no longer a suspect of any other digit, and the cell
    /// announces the digit it is now sure of, if any: the only one left, or one whose suspects
    /// ran out in a group.
    fn on_discovery(&mut self, digit: usize, row: usize, clm: usize) -> (res: (Option<Rule>, Vec<Message>))
        requires
            old(self).wf(),
        ensures
            final(self).wf(),
            final(self).position() == old(self).position(),
            discovery_step(old(self).position(), old(self).digits(), final(self).digits(), digit, row, clm, res.0, res.1@),
    {
        let ghost d0 = self.digits@;
        let other_cs = match self.digits.remove(&digit) {
            Some(cs) => cs,
            None => {
                assert(self.digits@ =~= d0);
                assert(self.digits() == old(self).digits());
                return (None, Vec::new());
            },
        };
        let ghost rest = self.digits@;
        proof {
            assert(old(self).digits()[digit].wf());
            assert forall|k: usize| self.digits@.contains_key(k) implies (#[trigger] self.digits@[k]).wf() by {
                assert(old(self).digits()[k].wf());
            }
        }
        let clue = Rule { type_id: RuleType::Clue, digit: digit, row: self.row, clm: self.clm };
        let mut out = other_cs.notify(clue);
        let ghost clue_out = out@;
        let keys = key_list(&self.digits);
        let mut i: usize = 0;
        #[verifier::loop_isolation(false)]
        while i < keys.len()
            invariant
                self.wf(),
                self.row == old(self).row,
                self.clm == old(self).clm,
                keys@.to_set() == rest.dom(),
                keys@.no_duplicates(),
                i <= keys@.len(),
                self.digits@.dom() == rest.dom(),
                forall|k: usize|
                    #![trigger self.digits@[k]]
                    rest.contains_key(k) ==> (if keys@.take(i as int).contains(k) {
                        suspects_removed(self.digits@[k], rest[k], row, clm, self.row, self.clm)
                    } else {
                        self.digits@[k] == rest[k]
                    }),
            decreases keys@.len() - i,
        {
            let k = keys[i];
            proof {
                assert(keys@.to_set().contains(k));
                assert(!keys@.take(i as int).contains(k)) by {
                    if keys@.take(i as int).contains(k) {
                        let j = choose|j: int| 0 <= j < i && #[trigger] keys@[j] == k;
                        assert(keys@[j] == keys@[i as int]);
                    }
                }
                assert forall|x: usize| #[trigger] keys@.take(i + 1).contains(x) <==> (keys@.take(i as int).contains(x) || x == k) by {
                    if keys@.take(i + 1).contains(x) {
                        let j = choose|j: int| 0 <= j < i + 1 && #[trigger] keys@[j] == x;
                        assert(keys@.take(i + 1)[j] == x);
                        if j < i {
                            assert(keys@.take(i as int)[j] == x);
                        }
                    }
                    if keys@.take(i as int).contains(x) {
                        let j = choose|j: int| 0 <= j < i && #[trigger] keys@[j] == x;
                        assert(keys@.take(i as int)[j] == x);
                        assert(keys@.take(i + 1)[j] == x);
                    }
                    if x == k {
                        assert(keys@.take(i + 1)[i as int] == x);
                    }
                }
            }
            self.remove_digit_candidate_at(k, row, clm);
            i = i + 1;
        }
        proof {
            assert(keys@.take(keys@.len() as int) =~= keys@);
            assert forall|k: usize| #[trigger] rest.contains_key(k) implies suspects_removed(self.digits@[k], rest[k], row, clm, self.row, self.clm) by {
                assert(keys@.to_set().contains(k));
            }
        }
        if self.digits.len() == 1 {
            let only = key_list(&self.digits);
            proof {
                assert(only@.len() == 1) by {
                    only@.unique_seq_to_set();
                }
                assert(only@.to_set().contains(only@[0]));
            }
            let k = only[0];
            let discovery = Rule { type_id: RuleType::Discovery, digit: k, row: self.row, clm: self.clm };
            let cs = self.digits.get(&k).unwrap();
            proof {
                assert(self.digits@[k].wf());
            }
            let mut more = cs.notify(discovery);
            let ghost tail = more@;
            out.append(&mut more);
            proof {
                assert(out@.subrange(0, clue_out.len() as int) =~= clue_out);
                assert(out@.subrange(clue_out.len() as int, out@.len() as int) =~= tail);
            }
            return (Some(discovery), out);
        }
        let keys = key_list(&self.digits);
        let mut i: usize = 0;
        let ghost mid = self.digits@;
        #[verifier::loop_isolation(false)]
        while i < keys.len()
            invariant
                self.wf(),
                self.digits@ == mid,
                out@ == clue_out,
                keys@.to_set() == self.digits@.dom(),
                i <= keys@.len(),
                forall|j: int| 0 <= j < i ==> !(#[trigger] self.digits@[keys@[j]]).spec_win(),
            decreases keys@.len() - i,
        {
            let k = keys[i];
            proof {
                assert(keys@.to_set().contains(k));
                assert(self.digits@[k].wf());
            }
            if self.digits.get(&k).unwrap().win(self.row, self.clm) {
                let discovery = Rule { type_id: RuleType::Discovery, digit: k, row: self.row, clm: self.clm };
                let mut more = self.digits.get(&k).unwrap().notify(discovery);
                let ghost tail = more@;
                out.append(&mut more);
                proof {
                    assert(out@.subrange(0, clue_out.len() as int) =~= clue_out);
                    assert(out@.subrange(clue_out.len() as int, out@.len() as int) =~= tail);
                }
                return (Some(discovery), out);
            }
            i = i + 1;
        }
        proof {
            assert forall|k: usize| #[trigger] self.digits@.contains_key(k) implies !self.digits@[k].spec_win() by {
                assert(keys@.to_set().contains(k));
                let j = choose|j: int| 0 <= j < keys@.len() && keys@[j] == k;
                assert(!self.digits@[keys@[j]].spec_win());
            }
            assert(out@.subrange(0, clue_out.len() as int) =~= clue_out);
        }
        (None, out)
    }

    /// The cell at (`row`, `clm`) can no longer hold `digit`: it is no longer a suspect of it
    /// in the groups it shares with this cell. Where that clears a group, the cell announces
    /// `digit` to its suspects.
    fn on_hint(&mut self, digit: usize, row: usize, clm: usize) -> (res: (Option<Rule>, Vec<Message>))
        requires
            old(self).wf(),
        ensures
            final(self).wf(),
            final(self).position() == old(self).position(),
            hint_step(old(self).position(), old(self).digits(), final(self).digits(), digit, row, clm, res.0, res.1@),
    {
        if self.digits.get(&digit).is_none() {
            return (None, Vec::new());
        }
        self.remove_digit_candidate_at(digit, row, clm);
        proof {
            assert(self.digits@[digit].wf());
        }
        if self.digits.get(&digit).unwrap().win(self.row, self.clm) {
            let discovery = Rule { type_id: RuleType::Discovery, digit: digit, row: self.row, clm: self.clm };
            let out = self.digits.get(&digit).unwrap().notify(discovery);
            return (Some(discovery), out);
        }
        (None, Vec::new())
    }

    /// Takes in one `rule` from a peer: a discovery or a clue. Returns the rule that announces
    /// the cell's digit, if it is now sure of one, and the messages to send.
    pub fn react(&mut self, rule: Rule) -> (res: (Option<Rule>, Vec<Message>))
        requires
            old(self).wf(),
        ensures
            final(self).wf(),
            final(self).position() == old(self).position(),
            if rule.type_id == RuleType::Discovery {
                discovery_step(old(self).position(), old(self).digits(), final(self).digits(), rule.digit, rule.row, rule.clm, res.0, res.1@)
            } else {
                hint_step(old(self).position(), old(self).digits(), final(self).digits(), rule.digit, rule.row, rule.clm, res.0, res.1@)
            },
    {
        match rule.type_id {
            RuleType::Discovery => self.on_discovery(rule.digit, rule.row, rule.clm),
            RuleType::Clue => self.on_hint(rule.digit, rule.row, rule.clm),
        }
    }
}

} // verus!
