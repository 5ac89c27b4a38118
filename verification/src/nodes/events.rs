//! Interaction events of UI nodes, each carrying the node's ID.
use vstd::prelude::*;

verus! {

/// The pointer started hovering the node `id`.
#[derive(Debug, Clone)]
pub struct UINodeStartHoverEvent {
    pub id: String,
}

/// The pointer stopped hovering the node `id`.
#[derive(Debug, Clone)]
pub struct UINodeEndHoverEvent {
    pub id: String,
}

/// The node `id` was pressed.
#[derive(Debug, Clone)]
pub struct UINodePressedEvent {
    pub id: String,
}

/// The node `id` was released.
#[derive(Debug, Clone)]
pub struct UINodeReleasedEvent {
    pub id: String,
}

} // verus!
