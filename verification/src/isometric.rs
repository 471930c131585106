//! Isometric grid directions and the depth (draw-order) axis of the
//! isometric projection.

use vstd::prelude::*;

verus! {

/// The four cardinal movement directions of the isometric grid, named after
/// the direction a sprite appears to walk on screen.
#[derive(Clone, Copy, Debug, PartialEq, Eq, Structural)]
pub enum IsometricDirection {
    UpRight,
    UpLeft,
    DownRight,
    DownLeft,
}

/// The direction that a one-tile step `delta` points in, or `None` when the
/// step is not a single cardinal step.
pub open spec fn direction_of(delta: (i32, i32)) -> Option<IsometricDirection> {
    if delta == (0i32, -1i32) {
        Some(IsometricDirection::UpRight)
    } else if delta == (-1i32, 0i32) {
        Some(IsometricDirection::UpLeft)
    } else if delta == (1i32, 0i32) {
        Some(IsometricDirection::DownRight)
    } else if delta == (0i32, 1i32) {
        Some(IsometricDirection::DownLeft)
    } else {
        None
    }
}

impl IsometricDirection {
    /// Classifies a one-tile step as one of the four cardinal directions.
    pub fn from_vec(dir: (i32, i32)) -> (r: Option<Self>)
        ensures
            r == direction_of(dir),
    {
        match dir {
            (0i32, -1i32) => Some(Self::UpRight),
            (-1i32, 0i32) => Some(Self::UpLeft),
            (1i32, 0i32) => Some(Self::DownRight),
            (0i32, 1i32) => Some(Self::DownLeft),
            _ => None,
        }
    }
}

/// Depth value of the isometric projection for grid cell `(x, y)` on terrain
/// layer `z`, doubled so that the half-step that lifts a unit above the tile
/// it stands on stays an integer. Cells further down-right draw on top.
pub open spec fn depth_of(x: i32, y: i32, z: u32, is_unit: bool) -> int {
    2 * (x + y + z) + if is_unit {
        1int
    } else {
        0int
    }
}

/// The draw-order (depth) axis of the isometric projection: twice
/// `x + y + z`, plus one for a unit so that it draws above the terrain of its
/// own cell.
pub fn iso_depth(x: i32, y: i32, z: u32, is_unit: bool) -> (d: i64)
    ensures
        d == depth_of(x, y, z, is_unit),
{
    let s: i64 = x as i64 + y as i64 + z as i64;
    if is_unit {
        2 * s + 1
    } else {
        2 * s
    }
}

} // verus!
