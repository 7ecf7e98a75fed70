use vstd::prelude::*;

verus! {

/// Coordinates are stored in thousandths of a point, so that the text codec
/// can reproduce fractional positions exactly. This bound keeps every
/// coordinate well inside `i64` even after scaling by 1000.
pub const COORD_LIMIT_MILLI: i64 = 1_000_000_000_000_000;

/// A position on the canvas. Positions take no part in the simulation; they
/// are kept for layout and carried through the text codec.
#[derive(Clone, Copy, PartialEq, Eq, Structural, Debug)]
pub struct Pos {
    /// Horizontal coordinate, in thousandths of a point.
    pub x_milli: i64,
    /// Vertical coordinate, in thousandths of a point.
    pub y_milli: i64,
}

impl Pos {
    /// Both coordinates lie strictly within the codec's range.
    pub open spec fn wf(self) -> bool {
        &&& -COORD_LIMIT_MILLI < self.x_milli < COORD_LIMIT_MILLI
        &&& -COORD_LIMIT_MILLI < self.y_milli < COORD_LIMIT_MILLI
    }

    pub fn new(x_milli: i64, y_milli: i64) -> (p: Pos)
        requires
            -COORD_LIMIT_MILLI < x_milli < COORD_LIMIT_MILLI,
            -COORD_LIMIT_MILLI < y_milli < COORD_LIMIT_MILLI,
        ensures
            p == (Pos { x_milli, y_milli }),
            p.wf(),
    {
        Pos { x_milli, y_milli }
    }
}

} // verus!
