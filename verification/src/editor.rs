//! The data model of an interactive graph editor: what kind of element is
//! being placed, and which one is selected. The drawing and hit-testing
//! that use these live outside the library.

use vstd::prelude::*;

verus! {

/// What a click in the editor creates.
#[derive(Debug, PartialEq, Eq, Clone, Copy, Structural, Default)]
pub enum Mode {
    #[default]
    Vertex,
    Edge,
}

/// The element the editor currently has selected, if any.
#[derive(Debug, PartialEq, Eq, Clone, Copy, Structural, Default)]
pub enum SelectedItem {
    Vertex(usize),
    Edge(usize, usize),
    #[default]
    Nothing,
}

} // verus!
