use vstd::prelude::*;

verus! {

/// State of the window that shows a simulation.
#[derive(Clone, Copy, Debug, PartialEq, Eq, Structural)]
pub enum WindowStatus {
    /// The window is open: keep stepping and drawing.
    Open,
    /// The window was closed: stop.
    Close,
}

} // verus!
