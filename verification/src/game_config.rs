//! The game's startup configuration: which map and tileset assets to load.

use vstd::prelude::*;

verus! {

/// Asset paths the game starts from.
pub struct GameConfig {
    pub tileset: String,
    pub map: String,
}

impl GameConfig {
    pub fn new(tileset: String, map: String) -> (r: Self)
        ensures
            r.tileset == tileset,
            r.map == map,
    {
        GameConfig { tileset, map }
    }
}

} // verus!
