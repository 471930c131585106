//! Core logic of an isometric, tile-based tactics game: the unit-placement and
//! turn-rotation state machine, breadth-first reachability search with terrain
//! cost rules over a tile layout, transient tile-selection state, and
//! tick-driven waypoint interpolation for moving units.
//!
//! The host engine (rendering, asset loading, input devices, the frame
//! scheduler) stays outside this crate; it drives these systems with plain
//! values and consumes the events they return.

pub mod coord_map;
pub mod game_config;
pub mod game_state;
pub mod isometric;
pub mod map;
pub mod map_state;
pub mod pathfind;
pub mod picking;
pub mod unit;

pub use game_config::GameConfig;
pub use game_state::{GameEvent, GameState, GameStateEvent, GameStates, Participant};
pub use isometric::IsometricDirection;
pub use map::{MapLayout, Tile, TiledLayer, TiledMap};
pub use map_state::{MapState, Tint};
pub use picking::{Hoverable, PickCamera};
pub use unit::{TickOutcome, Unit, UnitRegistry};
