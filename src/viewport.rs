use vstd::prelude::*;

verus! {

/// The drawable area of a window, in physical pixels.
#[derive(Clone, Copy, Debug, PartialEq, Eq, Structural)]
pub struct Viewport {
    pub width: u32,
    pub height: u32,
}

/// A viewport or window size that no aspect ratio can be derived from.
#[derive(Clone, Copy, Debug, PartialEq, Eq, Structural)]
pub enum ViewportError {
    /// The height is zero.
    DegenerateViewport,
}

impl Viewport {
    /// The aspect ratio as the exact fraction `(width, height)`, numerator
    /// first, for the caller to divide in its own arithmetic. Fails on a zero
    /// height, which has no ratio, so nothing downstream divides by zero.
    pub fn aspect_ratio(&self) -> (r: Result<(u32, u32), ViewportError>)
        ensures
            r is Err <==> self.height == 0,
            r matches Ok(d) ==> d == (self.width, self.height),
    {
        if self.height == 0 {
            Err(ViewportError::DegenerateViewport)
        } else {
            Ok((self.width, self.height))
        }
    }
}

} // verus!
