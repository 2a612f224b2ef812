use vstd::prelude::*;

verus! {

/// A caret position: `row` and `column` locate the caret in the document,
/// `sticky_column` remembers the last intentional horizontal position across
/// vertical moves over shorter lines. Two cursors are equal when their `row`
/// and `column` agree; `sticky_column` is not part of a caret's identity.
#[derive(Clone, Copy, Debug)]
pub struct Cursor {
    pub row: usize,
    pub column: usize,
    pub sticky_column: usize,
}

impl Cursor {
    /// True when the two cursors denote the same text position.
    pub open spec fn same_position(self, other: Cursor) -> bool {
        self.row == other.row && self.column == other.column
    }

    pub fn new(row: usize, column: usize, sticky_column: usize) -> (c: Cursor)
        ensures
            c.row == row,
            c.column == column,
            c.sticky_column == sticky_column,
    {
        Cursor { row, column, sticky_column }
    }
}

impl PartialEq for Cursor {
    fn eq(&self, other: &Self) -> (r: bool)
    {
        self.row == other.row && self.column == other.column
    }
}

impl vstd::std_specs::cmp::PartialEqSpecImpl for Cursor {
    open spec fn obeys_eq_spec() -> bool {
        true
    }

    open spec fn eq_spec(&self, other: &Self) -> bool {
        self.same_position(*other)
    }
}

impl Eq for Cursor {}

impl Default for Cursor {
    fn default() -> (c: Cursor)
        ensures
            c.row == 0,
            c.column == 0,
            c.sticky_column == 0,
    {
        Cursor { row: 0, column: 0, sticky_column: 0 }
    }
}

} // verus!
