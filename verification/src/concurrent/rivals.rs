use std::collections::HashMap;
use vstd::prelude::*;
use crate::concurrent::network::{
    Message, Network, addressed, box_endpoints, box_key, by_position, clm_endpoints, keys_in_grid,
    lemma_box_key, messages, row_endpoints,
};
use crate::concurrent::rule::Rule;

verus! {

broadcast use vstd::std_specs::hash::group_hash_axioms;

/// The other cells of the row, the column and the box of the cell at (`row`, `clm`) that may
/// still take a given digit, each with whether it takes messages. The digit belongs to the
/// cell once one of the three groups is empty.
pub struct Rivals {
    row: usize,
    clm: usize,
    row_cs: HashMap<usize, bool>,
    clm_cs: HashMap<usize, bool>,
    box_cs: HashMap<usize, bool>,
}

impl Rivals {
    /// The cell whose rivals these are.
    pub closed spec fn owner(&self) -> (usize, usize) {
        (self.row, self.clm)
    }

    /// The rivals in the row, by column.
    pub closed spec fn row_map(&self) -> Map<usize, bool> {
        self.row_cs@
    }

    /// The rivals in the column, by row.
    pub closed spec fn clm_map(&self) -> Map<usize, bool> {
        self.clm_cs@
    }

    /// The rivals in the box, by position.
    pub closed spec fn box_map(&self) -> Map<(usize, usize), bool> {
        by_position(self.box_cs@)
    }

    /// How many rivals take messages, counted once per group they are in.
    pub closed spec fn open_total(&self) -> nat {
        crate::concurrent::network::open_count(self.row_cs@) + crate::concurrent::network::open_count(self.clm_cs@)
            + crate::concurrent::network::open_count(self.box_cs@)
    }

    /// Every box rival stands for a cell of the grid.
    pub closed spec fn wf(&self) -> bool {
        keys_in_grid(self.box_cs@)
    }

    /// Whether no rival is left in the row, in the column or in the box.
    pub open spec fn spec_lose(&self) -> bool {
        self.row_map().is_empty() || self.clm_map().is_empty() || self.box_map().is_empty()
    }

    proof fn lemma_box_empty(&self)
        requires
            self.wf(),
        ensures
            self.box_cs@.is_empty() <==> self.box_map().is_empty(),
    {
        if !self.box_cs@.is_empty() {
            let k = self.box_cs@.dom().choose();
            assert(self.box_cs@.dom().contains(k));
            assert(k == (k / 9) * 9 + k % 9) by (nonlinear_arith);
            lemma_box_key(k / 9, k % 9, k / 9, k % 9);
            assert(self.box_map().dom().contains((k / 9, k % 9)));
        }
        if !self.box_map().is_empty() {
            let p = self.box_map().dom().choose();
            assert(self.box_map().dom().contains(p));
            assert(self.box_cs@.dom().contains(box_key(p.0, p.1)));
        }
    }

    /// The rivals of the cell at (`row`, `clm`) in `net`: every other cell of its row, its
    /// column and its box.
    pub fn new(row: usize, clm: usize, net: &Network) -> (res: Rivals)
        requires
            net.wf(),
            row < 9,
            clm < 9,
        ensures
            res.wf(),
            res.owner() == (row, clm),
            res.row_map() == row_endpoints(net@, row as int).remove(clm),
            res.clm_map() == clm_endpoints(net@, clm as int).remove(row),
            res.box_map() == box_endpoints(net@, row as int, clm as int).remove((row, clm)),
    {
        let mut suspect = Rivals {
            row,
            clm,
            row_cs: net.get_row_txs(row),
            clm_cs: net.get_clm_txs(clm),
            box_cs: net.get_box_txs(row, clm),
        };
        let ghost before = suspect.box_cs@;
        suspect.row_cs.remove(&clm);
        suspect.clm_cs.remove(&row);
        suspect.box_cs.remove(&(row * 9 + clm));
        proof {
            lemma_box_key(row, clm, row, clm);
            assert forall|p: (usize, usize)| #[trigger] by_position(suspect.box_cs@).contains_key(p)
                <==> by_position(before).remove((row, clm)).contains_key(p) by {
                if p.0 < 9 && p.1 < 9 {
                    lemma_box_key(p.0, p.1, row, clm);
                }
            }
            assert(by_position(suspect.box_cs@) =~= by_position(before).remove((row, clm)));
        }
        suspect
    }

    /// The messages that carry `msg` to every rival that takes messages: those of the row,
    /// then of the column, then of the box.
    pub fn notify(&self, msg: Rule) -> (res: Vec<Message>)
        requires
            self.wf(),
        ensures
            addressed(res@, self.owner().0, self.owner().1, self.row_map(), self.clm_map(), self.box_map(), msg),
            res@.len() == self.open_total(),
    {
        messages(self.row, self.clm, &self.row_cs, &self.clm_cs, &self.box_cs, msg)
    }

    /// Whether the digit belongs to the cell: no rival is left in its row, its column or its box.
    pub fn lose(&self) -> (res: bool)
        requires
            self.wf(),
        ensures
            res == (self.row_map().is_empty() || self.clm_map().is_empty() || self.box_map().is_empty()),
    {
        proof { self.lemma_box_empty(); }
        self.row_cs.is_empty() || self.clm_cs.is_empty() || self.box_cs.is_empty()
    }

    /// The cell at (`row`, `clm`) is no longer a rival: of the row where it shares the row
    /// (`cell_row`) with the owner, of the column where it shares the column (`cell_clm`), and of
    /// the box in any case.
    pub fn remove_at(&mut self, row: usize, clm: usize, cell_row: usize, cell_clm: usize)
        requires
            old(self).wf(),
        ensures
            final(self).wf(),
            final(self).owner() == old(self).owner(),
            final(self).row_map() == (if row == cell_row {
                old(self).row_map().remove(clm)
            } else {
                old(self).row_map()
            }),
            final(self).clm_map() == (if clm == cell_clm {
                old(self).clm_map().remove(row)
            } else {
                old(self).clm_map()
            }),
            final(self).box_map() == old(self).box_map().remove((row, clm)),
    {
        if row == cell_row {
            self.row_cs.remove(&clm);
        }
        if clm == cell_clm {
            self.clm_cs.remove(&row);
        }
        let ghost before = self.box_cs@;
        if row < 9 && clm < 9 {
            self.box_cs.remove(&(row * 9 + clm));
            proof {
                assert forall|p: (usize, usize)| #[trigger] by_position(self.box_cs@).contains_key(p)
                    <==> by_position(before).remove((row, clm)).contains_key(p) by {
                    if p.0 < 9 && p.1 < 9 {
                        lemma_box_key(p.0, p.1, row, clm);
                    }
                }
            }
        }
        assert(by_position(self.box_cs@) =~= by_position(before).remove((row, clm)));
    }
}

/// A digit belongs to the cell exactly when its rivals in the row, in the column or in the box
/// have run out; an empty box group alone is enough.
pub proof fn lemma_lose_iff_group_empty(rv: Rivals)
    ensures
        rv.spec_lose() <==> (rv.row_map().is_empty() || rv.clm_map().is_empty() || rv.box_map().is_empty()),
        rv.box_map().is_empty() ==> rv.spec_lose(),
{
}

/// Rivals only ever go: once a digit belongs to its cell, it still does after `remove_at`.
pub proof fn lemma_lose_stays(old: Rivals, new: Rivals, row: usize, clm: usize, cell_row: usize, cell_clm: usize)
    requires
        old.spec_lose(),
        new.owner() == old.owner(),
        new.row_map() == (if row == cell_row {
            old.row_map().remove(clm)
        } else {
            old.row_map()
        }),
        new.clm_map() == (if clm == cell_clm {
            old.clm_map().remove(row)
        } else {
            old.clm_map()
        }),
        new.box_map() == old.box_map().remove((row, clm)),
    ensures
        new.spec_lose(),
{
    if old.row_map().is_empty() {
        assert(new.row_map().dom() =~= Set::empty());
    } else if old.clm_map().is_empty() {
        assert(new.clm_map().dom() =~= Set::empty());
    } else {
        assert(new.box_map().dom() =~= Set::empty());
    }
}

impl Clone for Rivals {
    fn clone(&self) -> (res: Rivals)
        ensures
            res.owner() == self.owner(),
            res.row_map() == self.row_map(),
            res.clm_map() == self.clm_map(),
            res.box_map() == self.box_map(),
            res.wf() == self.wf(),
    {
        Rivals {
            row: self.row,
            clm: self.clm,
            row_cs: self.row_cs.clone(),
            clm_cs: self.clm_cs.clone(),
            box_cs: self.box_cs.clone(),
        }
    }
}

} // verus!
