use vstd::prelude::*;

verus! {

/// One position of the board: a given clue, a player's entry, or nothing.
#[derive(Debug, Clone, Copy)]
pub enum Square {
    Initial(u8),
    Filled(u8),
    Empty,
}

impl Square {
    /// The numeric value of the cell; an empty cell counts as 0.
    pub open spec fn val(self) -> int {
        match self {
            Square::Initial(v) => v as int,
            Square::Filled(v) => v as int,
            Square::Empty => 0,
        }
    }

    /// A non-empty cell holds a digit from 1 to 9.
    pub open spec fn wf(self) -> bool {
        match self {
            Square::Initial(v) => 1 <= v <= 9,
            Square::Filled(v) => 1 <= v <= 9,
            Square::Empty => true,
        }
    }

    /// The cell a player's digit turns into: 0 clears, 1 to 9 fills.
    pub open spec fn of_entry(value: u8) -> Square {
        if value == 0 {
            Square::Empty
        } else {
            Square::Filled(value)
        }
    }

    /// The cell a clue value turns into: 0 is blank, 1 to 9 is a clue.
    pub open spec fn of_clue(value: int) -> Square {
        if value == 0 {
            Square::Empty
        } else {
            Square::Initial(value as u8)
        }
    }

    /// The cell with its digit renamed through `p` (digit `v` becomes
    /// `p[v - 1]`), keeping its kind.
    pub open spec fn relabeled(self, p: Seq<u8>) -> Square {
        match self {
            Square::Initial(v) => Square::Initial(p[v - 1]),
            Square::Filled(v) => Square::Filled(p[v - 1]),
            Square::Empty => Square::Empty,
        }
    }

    pub fn from_value(value: u8) -> (r: Square)
        requires
            value <= 9,
        ensures
            r == Square::of_entry(value),
            r.wf(),
    {
        if value == 0 {
            Square::Empty
        } else {
            Square::Filled(value)
        }
    }

    pub fn initial(value: u8) -> (r: Square)
        requires
            1 <= value <= 9,
        ensures
            r == Square::Initial(value),
            r.wf(),
    {
        Square::Initial(value)
    }

    pub fn is_initial(self) -> (r: bool)
        ensures
            r == self is Initial,
    {
        matches!(self, Square::Initial(_))
    }

    pub fn is_empty(self) -> (r: bool)
        ensures
            r == self is Empty,
    {
        matches!(self, Square::Empty)
    }

    pub fn value(self) -> (r: u8)
        ensures
            r as int == self.val(),
    {
        match self {
            Square::Initial(value) => value,
            Square::Filled(value) => value,
            Square::Empty => 0,
        }
    }
}

/// Two cells are equal when their values are, whatever their kind.
impl PartialEq for Square {
    fn eq(&self, other: &Square) -> (r: bool) {
        self.value() == other.value()
    }
}

impl vstd::std_specs::cmp::PartialEqSpecImpl for Square {
    open spec fn obeys_eq_spec() -> bool {
        true
    }

    open spec fn eq_spec(&self, other: &Square) -> bool {
        self.val() == other.val()
    }
}

} // verus!
