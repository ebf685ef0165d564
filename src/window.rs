//! The game window: the size it opens with and the size it keeps track of.
use vstd::prelude::*;

verus! {

/// Width, in logical pixels, of the window at start.
pub const DEFAULT_WINDOW_WIDTH: u32 = 1200;

/// Height, in logical pixels, of the window at start.
pub const DEFAULT_WINDOW_HEIGHT: u32 = 900;

/// The current window size, in logical pixels.
#[derive(Clone, Copy, Debug, PartialEq, Eq, Structural)]
pub struct WindowSize {
    pub width: u32,
    pub height: u32,
}

/// Sets up and maintains the window size that the layout of the game reads.
pub struct GameWindowPlugin;

impl GameWindowPlugin {
    /// The window size the game starts with.
    pub fn build(&self) -> (r: WindowSize)
        ensures
            r.width == DEFAULT_WINDOW_WIDTH,
            r.height == DEFAULT_WINDOW_HEIGHT,
    {
        WindowSize { width: DEFAULT_WINDOW_WIDTH, height: DEFAULT_WINDOW_HEIGHT }
    }
}

/// Applies this frame's resize events, `(width, height)` in the order they
/// came: the size becomes the last one, and stays as it was without events.
pub fn on_resize_window(size: &mut WindowSize, events: &Vec<(u32, u32)>)
    ensures
        events@.len() == 0 ==> *final(size) == *old(size),
        events@.len() > 0 ==> final(size).width == events@.last().0 && final(size).height
            == events@.last().1,
{
    let mut i: usize = 0;
    while i < events.len()
        invariant
            i <= events@.len(),
            i == 0 ==> *size == *old(size),
            i > 0 ==> size.width == events@[i - 1].0 && size.height == events@[i - 1].1,
        decreases events@.len() - i,
    {
        let (w, h) = events[i];
        size.width = w;
        size.height = h;
        i += 1;
    }
}

} // verus!
