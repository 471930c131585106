//! Transient selection state: the tile-tint overlay shown while a unit is
//! selected, the pending move (the selected unit and its reachable-tile
//! predecessor map), and the flag that blocks input while a unit walks.

use vstd::prelude::*;

use crate::coord_map::CoordMap;
use crate::game_state::{GameEvent, GameState, GameStates, Participant};
use crate::map::MapLayout;
use crate::pathfind::{
    find_unit_paths, path_ok, pred_edges_ok, pred_tree_ok, reachable_within, to_path,
};
use crate::unit::{Unit, UnitRegistry};

verus! {

/// A tile highlight colour, with channels in thousandths.
#[derive(Clone, Copy, Debug, PartialEq, Eq, Structural)]
pub struct Tint {
    pub r: u16,
    pub g: u16,
    pub b: u16,
}

/// The pale green laid over every tile a selected unit can reach.
pub open spec fn reachable_tint() -> Tint {
    Tint { r: 600u16, g: 1000u16, b: 600u16 }
}

/// Transient per-board selection state.
pub struct MapState {
    /// The current tile-tint overlay.
    pub tile_tints: CoordMap<Tint>,
    /// The pending move: the selected unit's id, the tile it stands on, and
    /// the predecessor map of the tiles it can reach.
    pub unit_move_selection: Option<(u64, (i32, i32), CoordMap<(i32, i32)>)>,
    /// Whether a unit is walking; selection and placement wait until it
    /// arrives.
    pub unit_moving: bool,
}

impl MapState {
    /// The tint map and the selection's predecessor map keep their key
    /// invariants; the predecessor map is a tree rooted at the selection's
    /// origin tile; and without a pending selection no tile is tinted.
    pub open spec fn wf(&self) -> bool {
        &&& self.tile_tints.wf()
        &&& match self.unit_move_selection {
            Some((_, origin, m)) => m.wf() && pred_tree_ok(m@, origin),
            None => self.tile_tints@ == Map::<(i32, i32), Tint>::empty(),
        }
    }

    /// A fresh board: nothing tinted, nothing selected, nothing moving.
    pub fn new() -> (r: Self)
        ensures
            r.wf(),
            r.tile_tints@ == Map::<(i32, i32), Tint>::empty(),
            r.unit_move_selection is None,
            !r.unit_moving,
    {
        MapState { tile_tints: CoordMap::new(), unit_move_selection: None, unit_moving: false }
    }
}

/// A secondary click clears the tint overlay and any pending move,
/// unconditionally. When no selection is pending this is a no-op: the state
/// is unchanged.
pub fn clear_tile_selection(map_state: &mut MapState)
    requires
        old(map_state).wf(),
    ensures
        final(map_state).wf(),
        final(map_state).tile_tints@ == Map::<(i32, i32), Tint>::empty(),
        final(map_state).unit_move_selection is None,
        final(map_state).unit_moving == old(map_state).unit_moving,
        old(map_state).unit_move_selection is None ==> final(map_state).tile_tints@ == old(
            map_state,
        ).tile_tints@ && final(map_state).unit_move_selection == old(
            map_state,
        ).unit_move_selection && final(map_state).unit_moving == old(map_state).unit_moving,
{
    map_state.unit_move_selection = None;
    map_state.tile_tints.clear();
    proof {
        if old(map_state).unit_move_selection is None {
            assert(old(map_state).tile_tints@ =~= map_state.tile_tints@);
        }
    }
}

/// Whose move it is: the participant id in the occupied turn-order slot the
/// turn index points at, if the game is in the turn phase.
pub open spec fn acting_player(game_state: GameState) -> Option<usize> {
    match game_state.state {
        GameStates::Turn(ti, _) => match game_state.turn_order@[ti as int] {
            Some((pid, _)) => Some(pid),
            None => None,
        },
        GameStates::Placing(_, _) => None,
    }
}

/// Whether a primary click may select a unit's tile: no unit is walking and
/// the human participant holds the current turn.
pub fn should_select_tile(map_state: &MapState, game_state: &GameState) -> (r: bool)
    requires
        game_state.wf(),
    ensures
        r == (!map_state.unit_moving && (match acting_player(*game_state) {
            Some(pid) => game_state.participants@[pid as int] is Me,
            None => false,
        })),
{
    if map_state.unit_moving {
        return false;
    }
    let ti = match game_state.state {
        GameStates::Turn(ti, _) => ti,
        GameStates::Placing(_, _) => {
            return false;
        },
    };
    match game_state.turn_order[ti] {
        Some((pid, _)) => matches!(game_state.participants[pid], Participant::Me),
        None => false,
    }
}

/// Whether a primary click may confirm a pending move: as for selection,
/// with a pending move present.
pub fn should_confirm_move(map_state: &MapState, game_state: &GameState) -> (r: bool)
    requires
        game_state.wf(),
    ensures
        r == (!map_state.unit_moving && map_state.unit_move_selection is Some && (
        match acting_player(*game_state) {
            Some(pid) => game_state.participants@[pid as int] is Me,
            None => false,
        })),
{
    map_state.unit_move_selection.is_some() && should_select_tile(map_state, game_state)
}

/// Whether a primary click may place a unit: the placement phase is on and
/// the human participant places next.
pub fn should_place_unit(game_state: &GameState) -> (r: bool)
    requires
        game_state.wf(),
    ensures
        r == (match game_state.state {
            GameStates::Placing(pid, _) => game_state.participants@[pid as int] is Me,
            GameStates::Turn(_, _) => false,
        }),
{
    match game_state.state {
        GameStates::Placing(pid, _) => matches!(game_state.participants[pid], Participant::Me),
        GameStates::Turn(_, _) => false,
    }
}

/// A primary click on tile `tile`, occupied by unit `unit_id` whose data is
/// `unit`: computes the unit's reachable tiles, tints every one of them with
/// the reachable highlight, and stores the pending move.
pub fn select_tile(
    map_state: &mut MapState,
    tile: (i32, i32),
    unit_id: u64,
    unit: &Unit,
    map_layout: &MapLayout,
)
    requires
        old(map_state).wf(),
        map_layout.wf(),
        unit.travel_distance < 0xffff_ffffu32,
    ensures
        final(map_state).wf(),
        final(map_state).unit_moving == old(map_state).unit_moving,
        final(map_state).unit_move_selection matches Some((id, origin, _)) && id == unit_id
            && origin == tile,
        (match final(map_state).unit_move_selection {
            Some((_, _, m)) => {
                &&& forall|t: (i32, i32)|
                    m@.dom().contains(t) <==> reachable_within(
                        map_layout.tiles@,
                        unit.is_air,
                        tile,
                        t,
                        unit.travel_distance as nat,
                    )
                &&& pred_tree_ok(m@, tile)
                &&& pred_edges_ok(m@, tile, map_layout.tiles@, unit.is_air)
                &&& final(map_state).tile_tints@.dom() == m@.dom()
            },
            None => false,
        }),
        forall|t: (i32, i32)|
            final(map_state).tile_tints@.dom().contains(t) ==> final(map_state).tile_tints@[t]
                == reachable_tint(),
{
    let paths = find_unit_paths(unit.travel_distance, tile, map_layout, unit);
    map_state.tile_tints.clear();
    let keys = paths.keys();
    let n = keys.len();
    let mut i: usize = 0;
    while i < n
        invariant
            n == keys@.len(),
            i <= n,
            map_state.tile_tints.wf(),
            map_state.unit_moving == old(map_state).unit_moving,
            forall|k: int| 0 <= k < keys@.len() ==> paths@.dom().contains(#[trigger] keys@[k]),
            forall|t: (i32, i32)|
                map_state.tile_tints@.dom().contains(t) ==> map_state.tile_tints@[t]
                    == reachable_tint(),
            forall|t: (i32, i32)|
                map_state.tile_tints@.dom().contains(t) ==> paths@.dom().contains(t),
            forall|k: int|
                0 <= k < i ==> map_state.tile_tints@.dom().contains(#[trigger] keys@[k]),
        decreases n - i,
    {
        map_state.tile_tints.insert(keys[i], Tint { r: 600, g: 1000, b: 600 });
        i = i + 1;
    }
    proof {
        assert forall|t: (i32, i32)| paths@.dom().contains(t) implies
            map_state.tile_tints@.dom().contains(t) by {
            assert(keys@.contains(t));
            let k = choose|k: int| 0 <= k < keys@.len() && keys@[k] == t;
            assert(map_state.tile_tints@.dom().contains(keys@[k]));
        }
        assert(map_state.tile_tints@.dom() =~= paths@.dom());
    }
    map_state.unit_move_selection = Some((unit_id, tile, paths));
}

/// A primary click on tile `tile` while a move is pending for `unit`: if the
/// tile is reachable and not the unit's own tile, the unit is ordered to
/// walk the reconstructed path and the board is marked "unit moving"; any
/// other click just drops the selection. The tint overlay and the pending
/// move are cleared in every case. Returns whether a move started.
pub fn confirm_move(map_state: &mut MapState, tile: (i32, i32), unit: &mut Unit) -> (moved: bool)
    requires
        old(map_state).wf(),
        old(map_state).unit_move_selection is Some,
    ensures
        final(map_state).wf(),
        final(map_state).tile_tints@ == Map::<(i32, i32), Tint>::empty(),
        final(map_state).unit_move_selection is None,
        *final(unit) == (if moved {
            Unit {
                path: final(unit).path,
                path_progress: None,
                ..*old(unit)
            }
        } else {
            *old(unit)
        }),
        final(map_state).unit_moving == (moved || old(map_state).unit_moving),
        (match old(map_state).unit_move_selection {
            Some((_, origin, m)) => {
                if m@.dom().contains(tile) && old(unit).x == 1000 * origin.0 && old(unit).y
                    == 1000 * origin.1 {
                    exists|p: Seq<(i32, i32)>|
                        {
                            &&& path_ok(m@, origin, tile, p)
                            &&& (p.len() > 1 ==> moved && (final(unit).path matches Some((
                                leg,
                                vp,
                            )) && leg == 0u32 && vp@ == p))
                            &&& (p.len() <= 1 ==> !moved)
                        }
                } else {
                    !moved
                }
            },
            None => !moved,
        }),
{
    let (origin, paths) = match &map_state.unit_move_selection {
        Some((_, o, p)) => (*o, p),
        None => {
            // unreachable under the precondition
            proof {
                assert(false);
            }
            return false;
        },
    };

    let mut moved = false;
    if paths.contains_key(tile) {
        if unit.x == 1000 * (origin.0 as i64) && unit.y == 1000 * (origin.1 as i64) {
            if let Some(path) = to_path(paths, origin, tile) {
                if path.len() > 1 {
                    unit.move_path(path);
                    moved = true;
                }
            }
        }
    }

    if moved {
        map_state.unit_moving = true;
    }
    map_state.unit_move_selection = None;
    map_state.tile_tints.clear();
    moved
}

/// A primary click on tile `tile` during the human participant's placement:
/// requests a unit spawn there, unless the tile is already occupied or
/// placement is over.
pub fn place_unit(
    tile: (i32, i32),
    units: &UnitRegistry,
    game_state: &GameState,
) -> (r: Option<GameEvent>)
    requires
        units.wf(),
    ensures
        r == (match game_state.state {
            GameStates::Placing(pid, _) => if units.units@.dom().contains(tile) {
                Option::<GameEvent>::None
            } else {
                Some(GameEvent::SpawnUnit(tile.0, tile.1, pid))
            },
            GameStates::Turn(_, _) => Option::<GameEvent>::None,
        }),
{
    if units.units.contains_key(tile) {
        return None;
    }
    match game_state.state {
        GameStates::Placing(pid, _) => Some(GameEvent::SpawnUnit(tile.0, tile.1, pid)),
        GameStates::Turn(_, _) => None,
    }
}

} // verus!
