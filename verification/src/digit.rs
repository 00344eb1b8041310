use vstd::prelude::*;

verus! {

/// A single digit in a Sudoku puzzle, restricted to the range 1..=9.
#[derive(Debug, Clone, Copy, PartialEq, Eq, Structural)]
pub struct Digit {
    value: u8,
}

impl View for Digit {
    type V = int;

    closed spec fn view(&self) -> int {
        self.value as int
    }
}

impl Digit {
    /// A digit is well formed when its value lies in 1..=9.
    pub open spec fn wf(self) -> bool {
        1 <= self@ <= 9
    }

    /// Validated constructor: succeeds exactly on values 1 through 9.
    pub fn new(value: u8) -> (r: Option<Digit>)
        ensures
            r is Some <==> 1 <= value <= 9,
            r matches Some(d) ==> d.wf() && d@ == value,
    {
        if 1 <= value && value <= 9 {
            Some(Digit { value })
        } else {
            None
        }
    }

    /// Unchecked constructor for callers that have already established the range.
    pub fn unchecked(value: u8) -> (r: Digit)
        requires
            1 <= value <= 9,
        ensures
            r.wf() && r@ == value,
    {
        Digit { value }
    }

    /// Index 0..=8 for the digit.
    pub fn index(self) -> (r: u8)
        requires
            self.wf(),
        ensures
            r == self@ - 1,
    {
        self.value - 1
    }

    /// Inverse of `index`: succeeds exactly on indices 0 through 8.
    pub fn from_index(value: u8) -> (r: Option<Digit>)
        ensures
            r is Some <==> value <= 8,
            r matches Some(d) ==> d.wf() && d@ == value + 1,
    {
        if value <= 8 {
            Some(Digit { value: value + 1 })
        } else {
            None
        }
    }

    /// The next larger digit, if any.
    pub fn next(self) -> (r: Option<Digit>)
        requires
            self.wf(),
        ensures
            self@ < 9 ==> (r matches Some(d) && d.wf() && d@ == self@ + 1),
            self@ == 9 ==> r is None,
    {
        if self.value < 9 {
            Some(Digit { value: self.value + 1 })
        } else {
            None
        }
    }
}

} // verus!
