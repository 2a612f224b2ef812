use vstd::prelude::*;

use crate::cursor::Cursor;

verus! {

/// A pair of carets with no implicit ordering between `start` and `end`.
#[derive(Clone, Copy, Debug)]
pub struct Selection {
    pub start: Cursor,
    pub end: Cursor,
}

impl Selection {
    /// True when `start` comes textually at or before `end`
    /// (row ascending, then column ascending).
    pub open spec fn is_ordered(self) -> bool {
        self.start.row < self.end.row || (self.start.row == self.end.row
            && self.start.column <= self.end.column)
    }

    pub fn new(start: Cursor, end: Cursor) -> (s: Selection)
        ensures
            s.start == start,
            s.end == end,
    {
        Selection { start, end }
    }

    /// Returns the same pair of carets, swapped if necessary so that the
    /// resulting selection's start is textually at or before its end.
    pub fn normalized(&self) -> (s: Selection)
        ensures
            s.is_ordered(),
            (s.start == self.start && s.end == self.end) || (s.start == self.end && s.end
                == self.start),
            self.is_ordered() ==> (s.start == self.start && s.end == self.end),
    {
        if self.start.row == self.end.row && self.start.column > self.end.column
            || self.start.row > self.end.row {
            Selection { start: self.end, end: self.start }
        } else {
            *self
        }
    }

    /// True when the two carets denote the same text position
    /// (sticky columns are ignored).
    pub fn is_empty(&self) -> (r: bool)
        ensures
            r == self.start.same_position(self.end),
    {
        self.start == self.end
    }
}

impl Default for Selection {
    fn default() -> (s: Selection)
        ensures
            s.start.row == 0 && s.start.column == 0 && s.start.sticky_column == 0,
            s.end.row == 0 && s.end.column == 0 && s.end.sticky_column == 0,
    {
        Selection { start: Cursor::default(), end: Cursor::default() }
    }
}

} // verus!
