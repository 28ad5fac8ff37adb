//! The plain rectangle.
use vstd::prelude::*;

verus! {

/// A rectangle with a height and width.
#[derive(Debug, Clone, Copy, PartialEq, Eq, Structural)]
pub struct RectArea {
    pub width: u8,
    pub height: u8,
}

impl RectArea {
    pub fn new(width: u8, height: u8) -> (r: Self)
        ensures
            r.width == width,
            r.height == height,
    {
        RectArea { width, height }
    }

    pub fn area(&self) -> (r: usize)
        ensures
            r as int == self.width as int * self.height as int,
    {
        assert(self.width as int * self.height as int <= 65025) by (nonlinear_arith)
            requires
                self.width <= 255,
                self.height <= 255,
        ;
        assert(0 <= self.width as int * self.height as int) by (nonlinear_arith);
        self.width as usize * self.height as usize
    }
}

} // verus!
