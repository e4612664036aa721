//! The shape of a plane: `height x width` values, row by row.
use vstd::prelude::*;

verus! {

/// The shape of a plane.
#[derive(Debug, Clone, Copy, PartialEq, Eq, Hash)]
pub struct Shape {
    /// Rows.
    pub height: usize,
    /// Columns.
    pub width: usize,
}

impl Shape {
    /// The values of a plane of this shape.
    pub fn size(self) -> (values: usize)
        requires
            self.height * self.width <= usize::MAX,
        ensures
            values == self.height * self.width,
    {
        self.height * self.width
    }
}

} // verus!
