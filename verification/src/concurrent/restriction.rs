use vstd::prelude::*;

verus! {

/// The kind of a restriction: a found digit, or a clue against one.
#[derive(Clone, Copy, PartialEq, Eq, Structural)]
pub enum RestrictionType {
    Discovery,
    Clue,
}

/// `digit` at (`row`, `clm`), of kind `type_id`.
#[derive(Clone, Copy)]
pub struct Restriction {
    pub type_id: RestrictionType,
    pub digit: usize,
    pub row: usize,
    pub clm: usize,
}

impl Restriction {
    /// The row of the restriction.
    pub fn row(&self) -> (res: usize)
        ensures
            res == self.row,
    {
        self.row
    }

    /// The column of the restriction.
    pub fn clm(&self) -> (res: usize)
        ensures
            res == self.clm,
    {
        self.clm
    }

    /// The digit of the restriction.
    pub fn digit(&self) -> (res: usize)
        ensures
            res == self.digit,
    {
        self.digit
    }

    /// The kind of the restriction.
    pub fn of_type(&self) -> (res: RestrictionType)
        ensures
            res == self.type_id,
    {
        self.type_id
    }
}

} // verus!
