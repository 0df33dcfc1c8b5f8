use vstd::prelude::*;

verus! {

/// What a message between cells says: a cell found its digit (`Discovery`), or a cell
/// can no longer hold a digit (`Clue`).
#[derive(Clone, Copy, PartialEq, Eq, Debug, Structural)]
pub enum RuleType {
    Discovery,
    Clue,
}

/// A message between cells: `digit` at (`row`, `clm`), of kind `type_id`.
#[derive(Clone, Copy, Debug)]
pub struct Rule {
    pub type_id: RuleType,
    pub digit: usize,
    pub row: usize,
    pub clm: usize,
}

} // verus!
