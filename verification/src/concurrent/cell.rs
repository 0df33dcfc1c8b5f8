use std::collections::HashMap;
use vstd::prelude::*;
use crate::concurrent::network::{Message, addressed, key_list};
use crate::concurrent::rivals::Rivals;
use crate::concurrent::rule::{Rule, RuleType};

verus! {

broadcast use vstd::std_specs::hash::group_hash_axioms;

/// `new` is `old` with the cell at (`row`, `clm`) no longer a rival, as `Rivals::remove_at`
/// does for a rival of the cell at (`cell_row`, `cell_clm`).
pub open spec fn rivals_removed(new: Rivals, old: Rivals, row: usize, clm: usize, cell_row: usize, cell_clm: usize) -> bool {
    &&& new.wf()
    &&& new.owner() == old.owner()
    &&& new.row_map() == (if row == cell_row {
        old.row_map().remove(clm)
    } else {
        old.row_map()
    })
    &&& new.clm_map() == (if clm == cell_clm {
        old.clm_map().remove(row)
    } else {
        old.clm_map()
    })
    &&& new.box_map() == old.box_map().remove((row, clm))
}

/// A cell that has not found its digit yet: for each digit it may still hold, the rivals
/// that may hold it too.
pub struct Cell {
    row: usize,
    clm: usize,
    digits: HashMap<usize, Rivals>,
}

/// What `Cell::on_discovery` does to the cell at `pos`, going from `old` to `new` digits, when
/// `digit` was found at (`row`, `clm`): the outcome `found` and the messages `msgs` to send.
pub open spec fn discovery_step(
    pos: (usize, usize),
    old: Map<usize, Rivals>,
    new: Map<usize, Rivals>,
    digit: usize,
    row: usize,
    clm: usize,
    found: Option<usize>,
    msgs: Seq<Message>,
) -> bool {
    if !old.contains_key(digit) {
        &&& found is None
        &&& msgs.len() == 0
        &&& new == old
    } else if old.remove(digit).len() == 1 {
        &&& new == old.remove(digit)
        &&& found matches Some(k) && new.contains_key(k)
        &&& msgs.len() == 0
    } else {
        &&& new.dom() == old.remove(digit).dom()
        &&& exists|done: Set<usize>| #[trigger] discovery_done(pos, old, new, digit, row, clm, found, msgs, done)
    }
}

/// The keys in `done` are the digits whose rivals `Cell::on_discovery` went through before
/// stopping (all of them where it found nothing): each of them lost the cell at (`row`, `clm`),
/// the others are as they were.
pub open spec fn discovery_done(
    pos: (usize, usize),
    old: Map<usize, Rivals>,
    new: Map<usize, Rivals>,
    digit: usize,
    row: usize,
    clm: usize,
    found: Option<usize>,
    msgs: Seq<Message>,
    done: Set<usize>,
) -> bool {
    let rest = old.remove(digit);
    &&& done.subset_of(rest.dom())
    &&& forall|k: usize|
        #![trigger new[k]]
        rest.contains_key(k) ==> (if done.contains(k) {
            rivals_removed(new[k], rest[k], row, clm, pos.0, pos.1)
        } else {
            new[k] == rest[k]
        })
    &&& match found {
        Some(k) => {
            &&& done.contains(k)
            &&& new[k].spec_lose()
            &&& forall|k2: usize| done.contains(k2) && k2 != k ==> !(#[trigger] new[k2]).spec_lose()
            &&& msgs.len() == 0
        },
        None => {
            &&& done == rest.dom()
            &&& forall|k2: usize| done.contains(k2) ==> !(#[trigger] new[k2]).spec_lose()
            &&& addressed(
                msgs,
                old[digit].owner().0,
                old[digit].owner().1,
                old[digit].row_map(),
                old[digit].clm_map(),
                old[digit].box_map(),
                Rule { type_id: RuleType::Clue, digit, row: pos.0, clm: pos.1 },
            )
        },
    }
}

/// What `Cell::on_hint` does to the cell at `pos`, going from `old` to `new` digits, when the
/// cell at (`row`, `clm`) can no longer hold `digit`: the outcome `found`.
pub open spec fn hint_step(
    pos: (usize, usize),
    old: Map<usize, Rivals>,
    new: Map<usize, Rivals>,
    digit: usize,
    row: usize,
    clm: usize,
    found: Option<usize>,
) -> bool {
    if !old.contains_key(digit) {
        found is None && new == old
    } else {
        &&& new.dom() == old.dom()
        &&& forall|k: usize| old.contains_key(k) && k != digit ==> #[trigger] new[k] == old[k]
        &&& rivals_removed(new[digit], old[digit], row, clm, pos.0, pos.1)
        &&& found == (if new[digit].spec_lose() {
            Some(digit)
        } else {
            None::<usize>
        })
    }
}

/// What `Cell::react` does with `rule` to the cell at `pos`, going from `old` to `new` digits,
/// returning `out_rule` and the messages `out`: the step of `on_discovery` or `on_hint`; where
/// it found a digit, `out_rule` announces it and `out` carries the announcement to its rivals;
/// where it did not, `out` holds the messages of the step.
pub open spec fn reaction(
    pos: (usize, usize),
    old: Map<usize, Rivals>,
    new: Map<usize, Rivals>,
    rule: Rule,
    out_rule: Option<Rule>,
    out: Seq<Message>,
) -> bool {
    let found = match out_rule {
        Some(r) => Some(r.digit),
        None => None::<usize>,
    };
    let msgs = if out_rule is Some {
        Seq::<Message>::empty()
    } else {
        out
    };
    &&& (if rule.type_id == RuleType::Discovery {
        discovery_step(pos, old, new, rule.digit, rule.row, rule.clm, found, msgs)
    } else {
        hint_step(pos, old, new, rule.digit, rule.row, rule.clm, found) && msgs.len() == 0
    })
    &&& match out_rule {
        Some(r) => {
            let rv = new[r.digit];
            &&& new.contains_key(r.digit)
            &&& r == Rule { type_id: RuleType::Discovery, digit: r.digit, row: pos.0, clm: pos.1 }
            &&& addressed(out, rv.owner().0, rv.owner().1, rv.row_map(), rv.clm_map(), rv.box_map(), r)
            &&& out.len() == rv.open_total()
        },
        None => true,
    }
}

/// What a cell at `pos` does with `rule`, its digits going from `old` to `new` while it answers
/// `out_rule` and the messages `out`. Where a discovery takes away one of two digits the cell
/// still holds, the cell is sure of the other one and keeps only it. Whenever it announces a
/// digit, the announcement is a discovery at its own position of a digit it still holds, sent
/// to every open rival of that digit in its row, column and box, one message each. A clue on a
/// digit the cell holds takes the sender off its rivals, and the cell announces that digit
/// exactly when one of its groups has no rival left.
pub proof fn lemma_cell_reaction(
    pos: (usize, usize),
    old: Map<usize, Rivals>,
    new: Map<usize, Rivals>,
    rule: Rule,
    out_rule: Option<Rule>,
    out: Seq<Message>,
)
    requires
        reaction(pos, old, new, rule, out_rule, out),
    ensures
        rule.type_id == RuleType::Discovery && old.contains_key(rule.digit) ==> forall|k: usize|
            #[trigger] old.dom().remove(rule.digit).remove(k).is_empty() && old.contains_key(k) && k != rule.digit ==> {
                &&& out_rule == Some(Rule { type_id: RuleType::Discovery, digit: k, row: pos.0, clm: pos.1 })
                &&& new == old.remove(rule.digit)
            },
        rule.type_id == RuleType::Discovery && !old.contains_key(rule.digit) ==> new == old && out_rule is None && out.len() == 0,
        rule.type_id == RuleType::Discovery && old.contains_key(rule.digit) && old.dom().remove(rule.digit).len() != 1 ==> {
            &&& new.dom() == old.dom().remove(rule.digit)
            &&& forall|k: usize| #[trigger] new.contains_key(k) ==> {
                &&& new[k].owner() == old[k].owner()
                &&& (new[k] == old[k] || {
                    &&& new[k].row_map() == (if rule.row == pos.0 {
                        old[k].row_map().remove(rule.clm)
                    } else {
                        old[k].row_map()
                    })
                    &&& new[k].clm_map() == (if rule.clm == pos.1 {
                        old[k].clm_map().remove(rule.row)
                    } else {
                        old[k].clm_map()
                    })
                    &&& new[k].box_map() == old[k].box_map().remove((rule.row, rule.clm))
                })
            }
            &&& out_rule is None ==> {
                let od = old[rule.digit];
                &&& addressed(out, od.owner().0, od.owner().1, od.row_map(), od.clm_map(), od.box_map(),
                    Rule { type_id: RuleType::Clue, digit: rule.digit, row: pos.0, clm: pos.1 })
                &&& forall|k: usize| #[trigger] new.contains_key(k) ==> {
                    &&& new[k].row_map() == (if rule.row == pos.0 {
                        old[k].row_map().remove(rule.clm)
                    } else {
                        old[k].row_map()
                    })
                    &&& new[k].clm_map() == (if rule.clm == pos.1 {
                        old[k].clm_map().remove(rule.row)
                    } else {
                        old[k].clm_map()
                    })
                    &&& new[k].box_map() == old[k].box_map().remove((rule.row, rule.clm))
                    &&& !new[k].row_map().is_empty()
                    &&& !new[k].clm_map().is_empty()
                    &&& !new[k].box_map().is_empty()
                }
            }
            &&& out_rule matches Some(r) ==> {
                let nr = new[r.digit];
                let or = old[r.digit];
                &&& nr.row_map() == (if rule.row == pos.0 {
                    or.row_map().remove(rule.clm)
                } else {
                    or.row_map()
                })
                &&& nr.clm_map() == (if rule.clm == pos.1 {
                    or.clm_map().remove(rule.row)
                } else {
                    or.clm_map()
                })
                &&& nr.box_map() == or.box_map().remove((rule.row, rule.clm))
                &&& (nr.row_map().is_empty() || nr.clm_map().is_empty() || nr.box_map().is_empty())
            }
        },
        rule.type_id == RuleType::Clue && old.contains_key(rule.digit) ==> {
            let nd = new[rule.digit];
            &&& new.dom() == old.dom()
            &&& forall|k: usize| old.contains_key(k) && k != rule.digit ==> #[trigger] new[k] == old[k]
            &&& nd.owner() == old[rule.digit].owner()
            &&& nd.row_map() == (if rule.row == pos.0 {
                old[rule.digit].row_map().remove(rule.clm)
            } else {
                old[rule.digit].row_map()
            })
            &&& nd.clm_map() == (if rule.clm == pos.1 {
                old[rule.digit].clm_map().remove(rule.row)
            } else {
                old[rule.digit].clm_map()
            })
            &&& nd.box_map() == old[rule.digit].box_map().remove((rule.row, rule.clm))
            &&& (out_rule is Some <==> (nd.row_map().is_empty() || nd.clm_map().is_empty() || nd.box_map().is_empty()))
        },
        rule.type_id == RuleType::Clue && !old.contains_key(rule.digit) ==> new == old && out_rule is None && out.len() == 0,
        rule.type_id == RuleType::Clue && out_rule is None ==> out.len() == 0,
        out_rule matches Some(r) ==> {
            let rv = new[r.digit];
            &&& new.contains_key(r.digit)
            &&& r == Rule { type_id: RuleType::Discovery, digit: r.digit, row: pos.0, clm: pos.1 }
            &&& addressed(out, rv.owner().0, rv.owner().1, rv.row_map(), rv.clm_map(), rv.box_map(), r)
            &&& out.len() == rv.open_total()
        },
{
    if rule.type_id == RuleType::Discovery && old.contains_key(rule.digit) {
        assert forall|k: usize|
            #[trigger] old.dom().remove(rule.digit).remove(k).is_empty() && old.contains_key(k) && k != rule.digit implies {
                &&& out_rule == Some(Rule { type_id: RuleType::Discovery, digit: k, row: pos.0, clm: pos.1 })
                &&& new == old.remove(rule.digit)
            } by {
            let rest = old.remove(rule.digit);
            assert(rest.dom() =~= set![k]);
            assert(rest.len() == 1);
            let r = out_rule.unwrap();
            assert(new.dom().contains(r.digit));
        }
        if old.dom().remove(rule.digit).len() != 1 {
            let d = rule.digit;
            let rest = old.remove(d);
            assert(rest.dom() =~= old.dom().remove(d));
            let found = match out_rule {
                Some(r) => Some(r.digit),
                None => None::<usize>,
            };
            let msgs = if out_rule is Some {
                Seq::<Message>::empty()
            } else {
                out
            };
            let done = choose|done: Set<usize>| #[trigger] discovery_done(pos, old, new, d, rule.row, rule.clm, found, msgs, done);
            assert forall|k: usize| #[trigger] new.contains_key(k) implies rest.contains_key(k) && rest[k] == old[k] by {}
            assert forall|k: usize| #[trigger] new.contains_key(k) implies new[k].owner() == old[k].owner() by {
                assert(rest.contains_key(k));
                if done.contains(k) {
                    assert(rivals_removed(new[k], rest[k], rule.row, rule.clm, pos.0, pos.1));
                } else {
                    assert(new[k] == rest[k]);
                }
            }
            if out_rule is None {
                assert forall|k: usize| #[trigger] new.contains_key(k) implies !new[k].spec_lose() by {
                    assert(done.contains(k));
                }
            }
        }
    }
}

impl Cell {
    /// The position of the cell.
    pub closed spec fn position(&self) -> (usize, usize) {
        (self.row, self.clm)
    }

    /// For each digit the cell may still hold, its rivals.
    pub closed spec fn digits(&self) -> Map<usize, Rivals> {
        self.digits@
    }

    /// Every set of rivals is well formed.
    pub open spec fn wf(&self) -> bool {
        forall|k: usize| self.digits().contains_key(k) ==> (#[trigger] self.digits()[k]).wf()
    }

    /// The cell at (`row`, `clm`), open to every digit from 1 to 9, each with the same `rivals`.
    pub fn new(row: usize, clm: usize, rivals: Rivals) -> (res: Cell)
        requires
            rivals.wf(),
        ensures
            res.wf(),
            res.position() == (row, clm),
            res.digits().dom() == crate::sudoku::full_digits(),
            forall|k: usize|
                res.digits().contains_key(k) ==> {
                    &&& (#[trigger] res.digits()[k]).owner() == rivals.owner()
                    &&& res.digits()[k].row_map() == rivals.row_map()
                    &&& res.digits()[k].clm_map() == rivals.clm_map()
                    &&& res.digits()[k].box_map() == rivals.box_map()
                },
    {
        let mut digits: HashMap<usize, Rivals> = HashMap::new();
        let mut digit: usize = 1;
        while digit <= 9
            invariant
                rivals.wf(),
                1 <= digit <= 10,
                digits@.dom() == Set::new(|d: usize| 1 <= d < digit),
                forall|k: usize|
                    digits@.contains_key(k) ==> {
                        &&& (#[trigger] digits@[k]).wf()
                        &&& digits@[k].owner() == rivals.owner()
                        &&& digits@[k].row_map() == rivals.row_map()
                        &&& digits@[k].clm_map() == rivals.clm_map()
                        &&& digits@[k].box_map() == rivals.box_map()
                    },
            decreases 10 - digit,
        {
            digits.insert(digit, rivals.clone());
            assert(digits@.dom() =~= Set::new(|d: usize| 1 <= d < digit + 1));
            digit = digit + 1;
        }
        assert(digits@.dom() =~= crate::sudoku::full_digits());
        Cell { row, clm, digits }
    }

    /// `digit` was found at (`row`, `clm`): the cell gives it up, and every other digit's
    /// rivals lose that cell. Returns the digit the cell is now sure of, if any: the only one
    /// left, or one whose rivals ran out. Where the cell learns nothing, it tells the rivals
    /// of `digit` that it cannot hold it (the messages returned).
    fn on_discovery(&mut self, digit: usize, row: usize, clm: usize) -> (res: (Option<usize>, Vec<Message>))
        requires
            old(self).wf(),
        ensures
            final(self).wf(),
            final(self).position() == old(self).position(),
            discovery_step(old(self).position(), old(self).digits(), final(self).digits(), digit, row, clm, res.0, res.1@),
    {
        let ghost d0 = self.digits@;
        let rivals = match self.digits.remove(&digit) {
            Some(r) => r,
            None => {
                assert(self.digits@ =~= d0);
                assert(self.digits() == old(self).digits());
                return (None, Vec::new());
            },
        };
        let ghost rest = self.digits@;
        proof {
            assert(old(self).digits()[digit].wf());
            assert forall|k: usize| rest.contains_key(k) implies (#[trigger] rest[k]).wf() by {
                assert(d0.contains_key(k));
                assert(old(self).digits()[k].wf());
            }
        }
        assert(rest == d0.remove(digit));
        if self.digits.len() == 1 {
            let keys = key_list(&self.digits);
            proof {
                assert(keys@.len() == 1) by {
                    keys@.unique_seq_to_set();
                }
                assert(keys@.to_set().contains(keys@[0]));
            }
            return (Some(keys[0]), Vec::new());
        }
        let keys = key_list(&self.digits);
        let mut i: usize = 0;
        while i < keys.len()
            invariant
                d0 == old(self).digits@,
                rest == d0.remove(digit),
                d0.contains_key(digit),
                rest.len() != 1,
                forall|k: usize| rest.contains_key(k) ==> (#[trigger] rest[k]).wf(),
                keys@.to_set() == rest.dom(),
                keys@.no_duplicates(),
                i <= keys@.len(),
                self.row == old(self).row,
                self.clm == old(self).clm,
                self.digits@.dom() == rest.dom(),
                forall|k: usize|
                    #![trigger self.digits@[k]]
                    rest.contains_key(k) ==> (if keys@.take(i as int).contains(k) {
                        rivals_removed(self.digits@[k], rest[k], row, clm, self.row, self.clm)
                            && !self.digits@[k].spec_lose()
                    } else {
                        self.digits@[k] == rest[k]
                    }),
            decreases keys@.len() - i,
        {
            let k = keys[i];
            proof {
                assert(keys@.to_set().contains(k));
                assert(!keys@.take(i as int).contains(k)) by {
                    if keys@.take(i as int).contains(k) {
                        let j = choose|j: int| 0 <= j < i && #[trigger] keys@[j] == k;
                        assert(keys@[j] == keys@[i as int]);
                    }
                }
            }
            let mut r = self.digits.remove(&k).unwrap();
            r.remove_at(row, clm, self.row, self.clm);
            let lost = r.lose();
            self.digits.insert(k, r);
            proof {
                assert(keys@.take(i + 1) =~= keys@.take(i as int).push(k));
                assert forall|x: usize| #[trigger] keys@.take(i + 1).contains(x) <==> (keys@.take(i as int).contains(x) || x == k) by {
                    if keys@.take(i + 1).contains(x) {
                        let j = choose|j: int| 0 <= j < i + 1 && #[trigger] keys@[j] == x;
                        assert(keys@.take(i + 1)[j] == x);
                        if j < i {
                            assert(keys@.take(i as int)[j] == x);
                        }
                    }
                    if keys@.take(i as int).contains(x) {
                        let j = choose|j: int| 0 <= j < i && #[trigger] keys@[j] == x;
                        assert(keys@.take(i as int)[j] == x);
                        assert(keys@.take(i + 1)[j] == x);
                    }
                    if x == k {
                        assert(keys@.take(i + 1)[i as int] == x);
                    }
                }
            }
            if lost {
                proof {
                    let done = keys@.take(i + 1).to_set();
                    assert(done.subset_of(rest.dom()));
                    assert(done.contains(k));
                    assert forall|k2: usize| done.contains(k2) && k2 != k implies !(#[trigger] self.digits@[k2]).spec_lose() by {
                        assert(keys@.take(i as int).contains(k2));
                    }
                    assert forall|x: usize| #![trigger self.digits@[x]] rest.contains_key(x) implies (if done.contains(x) {
                        rivals_removed(self.digits@[x], rest[x], row, clm, self.row, self.clm)
                    } else {
                        self.digits@[x] == rest[x]
                    }) by {
                    }
                    assert(d0.remove(digit).len() != 1);
                    assert(self.digits@.dom() =~= rest.dom());
                    assert(discovery_done(old(self).position(), d0, self.digits@, digit, row, clm, Some(k), Seq::empty(), done));
                }
                return (Some(k), Vec::new());
            }
            i = i + 1;
        }
        let clue = Rule { type_id: RuleType::Clue, digit: digit, row: self.row, clm: self.clm };
        let out = rivals.notify(clue);
        proof {
            assert(keys@.take(keys@.len() as int) =~= keys@);
            let done = rest.dom();
            assert forall|x: usize| #![trigger self.digits@[x]] rest.contains_key(x) implies (if done.contains(x) {
                rivals_removed(self.digits@[x], rest[x], row, clm, self.row, self.clm)
            } else {
                self.digits@[x] == rest[x]
            }) by {
                assert(keys@.to_set().contains(x));
            }
            assert forall|k2: usize| done.contains(k2) implies !(#[trigger] self.digits@[k2]).spec_lose() by {
                assert(keys@.to_set().contains(k2));
            }
            assert(discovery_done(old(self).position(), d0, self.digits@, digit, row, clm, None, out@, done));
        }
        (None, out)
    }

    /// The cell at (`row`, `clm`) can no longer hold `digit`: it is no longer a rival for it.
    /// Returns `digit` where its rivals ran out.
    fn on_hint(&mut self, digit: usize, row: usize, clm: usize) -> (res: Option<usize>)
        requires
            old(self).wf(),
        ensures
            final(self).wf(),
            final(self).position() == old(self).position(),
            hint_step(old(self).position(), old(self).digits(), final(self).digits(), digit, row, clm, res),
    {
        let ghost d0 = self.digits@;
        let mut rivals = match self.digits.remove(&digit) {
            Some(r) => r,
            None => {
                assert(self.digits@ =~= d0);
                assert(self.digits() == old(self).digits());
                return None;
            },
        };
        proof {
            assert(old(self).digits()[digit].wf());
        }
        rivals.remove_at(row, clm, self.row, self.clm);
        let lost = rivals.lose();
        self.digits.insert(digit, rivals);
        proof {
            assert(self.digits@.dom() =~= old(self).digits@.dom());
            assert forall|k: usize| self.digits@.contains_key(k) implies (#[trigger] self.digits@[k]).wf() by {
                if k != digit {
                    assert(old(self).digits()[k].wf());
                }
            }
        }
        if lost {
            return Some(digit);
        }
        None
    }

    /// Takes in one `rule` from a peer. Returns the rule that announces the cell's digit, if it
    /// is now sure of one, and the messages to send: the clue of a fruitless discovery, or the
    /// announcement to the rivals of the found digit.
    pub fn react(&mut self, rule: Rule) -> (res: (Option<Rule>, Vec<Message>))
        requires
            old(self).wf(),
        ensures
            final(self).wf(),
            final(self).position() == old(self).position(),
            reaction(old(self).position(), old(self).digits(), final(self).digits(), rule, res.0, res.1@),
    {
        let (found, mut out) = match rule.type_id {
            RuleType::Discovery => self.on_discovery(rule.digit, rule.row, rule.clm),
            RuleType::Clue => (self.on_hint(rule.digit, rule.row, rule.clm), Vec::new()),
        };
        match found {
            Some(d) => {
                let discovery = Rule { digit: d, clm: self.clm, row: self.row, type_id: RuleType::Discovery };
                let rv = self.digits.get(&d).unwrap();
                proof {
                    assert(self.digits@[d].wf());
                }
                let more = rv.notify(discovery);
                proof {
                    assert(out@ =~= Seq::<Message>::empty());
                }
                (Some(discovery), more)
            },
            None => (None, out),
        }
    }
}

} // verus!
