use crate::graphics::Point;
use vstd::prelude::*;

verus! {

/// The state of one position of the board. A negative `number` marks a
/// mine; otherwise `number` counts the mines around the cell.
#[derive(Debug, Clone, Copy, PartialEq, Eq, Structural)]
pub struct Cell {
    pub number: i8,
    pub cleared: bool,
    pub flagged: bool,
    pub coordinates: Point,
}

impl Default for Cell {
    fn default() -> (r: Cell)
        ensures
            r == (Cell {
                number: 0,
                cleared: false,
                flagged: false,
                coordinates: Point { x: 0, y: 0 },
            }),
    {
        Cell { number: 0, cleared: false, flagged: false, coordinates: Point { x: 0, y: 0 } }
    }
}

impl Cell {
    pub open spec fn spec_is_mine(&self) -> bool {
        self.number < 0
    }

    #[verifier::when_used_as_spec(spec_is_mine)]
    pub fn is_mine(&self) -> (r: bool)
        ensures
            r == self.spec_is_mine(),
    {
        self.number < 0
    }

    pub fn new_mine(coordinates: Point) -> (r: Cell)
        ensures
            r == (Cell { number: -1i8, cleared: false, flagged: false, coordinates }),
    {
        Cell { number: -1, cleared: false, flagged: false, coordinates }
    }
}

} // verus!
