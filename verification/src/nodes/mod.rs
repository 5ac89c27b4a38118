//! The UI node tree that the application authors.
use vstd::prelude::*;

pub mod data;
pub mod events;

use data::UINode;

verus! {

/// Root of a `UINode` tree that is to be rendered as SDFs.
pub struct UINodeSDFRoot<S>(pub UINode<S>);

/// Provides the SDF elements of every `UINodeSDFRoot` in a world.
#[derive(Default, Debug)]
pub struct UINodeSDFProvider;

} // verus!
