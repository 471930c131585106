//! Marker types for the host engine's pointer-picking and hover systems.
//! The picking geometry itself (point-in-triangle tests against unprojected
//! pointer coordinates) is the engine's concern; the core only needs these
//! markers to tag what the engine attaches them to.

use vstd::prelude::*;

verus! {

/// Marks an entity whose sprite brightens while the pointer hovers it.
pub struct Hoverable;

/// Marks the camera whose viewport pointer picking unprojects against.
pub struct PickCamera;

} // verus!
