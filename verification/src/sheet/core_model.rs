use vstd::prelude::*;

verus! {

/// A zero-based cell coordinate on the sheet.
#[derive(Eq, Hash, Clone, Copy, Debug)]
pub struct SheetAddress {
    pub row: i32,
    pub col: i32,
}

impl PartialEq for SheetAddress {
    fn eq(&self, other: &SheetAddress) -> (r: bool)
        ensures
            r == (self == other),
    {
        self.row == other.row && self.col == other.col
    }
}

impl vstd::std_specs::cmp::PartialEqSpecImpl for SheetAddress {
    open spec fn obeys_eq_spec() -> bool {
        true
    }

    open spec fn eq_spec(&self, other: &SheetAddress) -> bool {
        self == other
    }
}

impl SheetAddress {
    /// Swaps the row and column.
    pub fn transpose(&self) -> (r: Self)
        ensures
            r.row == self.col,
            r.col == self.row,
    {
        Self { row: self.col, col: self.row }
    }
}

} // verus!
