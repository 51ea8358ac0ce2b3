use vstd::prelude::*;

pub mod compositor;
pub mod surface;

verus! {

/// Events that the view hands to the surrounding application.
#[derive(Debug, Clone)]
pub enum Message {
    /// Text that the user selected for copying.
    Clipboard(String),
}

} // verus!
