//! The window a world is shown in, and what its event loop decides.

use crate::world::World;
use vstd::prelude::*;

verus! {

/// What the display reports between two frames, as far as the loop cares.
#[derive(Clone, Copy, Debug, PartialEq, Eq, Structural)]
pub enum WindowEvent {
    /// The window was asked to close.
    Quit,
    /// The escape key went down.
    EscapePressed,
    /// Anything else.
    Other,
}

/// A world and the size of the surface it is shown on.
pub struct Window {
    pub width: u32,
    pub height: u32,
    pub world: World,
}

impl Window {
    /// A window as large as the surface of `world`.
    pub fn new(world: World) -> (window: Window)
        ensures
            window.width == world@.image.width,
            window.height == world@.image.height,
            window.world == world,
    {
        Window { width: world.image().width, height: world.image().height, world }
    }

    /// Whether the loop goes on after `event`: a loop that has stopped stays
    /// stopped, and a running one stops on a request to close or on escape.
    pub fn stays_open(running: bool, event: WindowEvent) -> (open: bool)
        ensures
            open == (running && event == WindowEvent::Other),
    {
        match event {
            WindowEvent::Quit => false,
            WindowEvent::EscapePressed => false,
            WindowEvent::Other => running,
        }
    }
}

} // verus!
