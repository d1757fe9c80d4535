use vstd::prelude::*;

verus! {

/// The size of the window, in whole pixels.
#[derive(Debug, Clone, Copy, PartialEq, Eq, Structural)]
pub struct WindowSize {
    pub width: u32,
    pub height: u32,
}

impl WindowSize {
    pub fn new(width: u32, height: u32) -> (size: WindowSize)
        ensures
            size.width == width,
            size.height == height,
    {
        Self { width, height }
    }
}

} // verus!
