use vstd::prelude::*;
use crate::constants::{DEFAULT_HEIGHT, DEFAULT_WIDTH, MIN_HEIGHT, MIN_WIDTH};
use crate::viewport::{Viewport, ViewportError};

verus! {

/// Settings of a window: title, initial size, and the size it may not be
/// shrunk below.
pub struct WindowConfig {
    pub title: String,
    pub height: u32,
    pub width: u32,
    pub minimum_dimension: [u32; 2],
}

impl Default for WindowConfig {
    /// An 800 x 600 window titled "untitled" that may shrink to 250 x 250.
    fn default() -> (r: Self)
        ensures
            r.title@ == "untitled"@,
            r.width == DEFAULT_WIDTH,
            r.height == DEFAULT_HEIGHT,
            r.minimum_dimension@ == seq![MIN_WIDTH, MIN_HEIGHT],
    {
        let r = WindowConfig {
            title: "untitled".to_owned(),
            width: DEFAULT_WIDTH,
            height: DEFAULT_HEIGHT,
            minimum_dimension: [MIN_WIDTH, MIN_HEIGHT],
        };
        assert(r.minimum_dimension@ =~= seq![MIN_WIDTH, MIN_HEIGHT]);
        r
    }
}

impl WindowConfig {
    /// Settings with the given title and size and the default minimum size.
    /// A size with a zero side has no aspect ratio and is refused.
    pub fn new(title: String, width: u32, height: u32) -> (r: Result<Self, ViewportError>)
        ensures
            r is Err <==> width == 0 || height == 0,
            r matches Ok(c) ==> {
                &&& c.title == title
                &&& c.width == width
                &&& c.height == height
                &&& c.minimum_dimension@ == seq![MIN_WIDTH, MIN_HEIGHT]
            },
    {
        if width == 0 || height == 0 {
            return Err(ViewportError::DegenerateViewport);
        }
        let c = WindowConfig { title, width, height, minimum_dimension: [MIN_WIDTH, MIN_HEIGHT] };
        assert(c.minimum_dimension@ =~= seq![MIN_WIDTH, MIN_HEIGHT]);
        Ok(c)
    }

    /// The viewport the window opens with.
    pub fn viewport(&self) -> (r: Viewport)
        ensures
            r.width == self.width,
            r.height == self.height,
    {
        Viewport { width: self.width, height: self.height }
    }
}

} // verus!
