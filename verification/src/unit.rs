//! Units on the board: their movement stats, their in-flight path state, and
//! the registry that maps an occupied grid coordinate to the unit standing
//! on it.
//!
//! Positions and movement progress are kept in thousandths (milli-units): a
//! unit standing on tile `(x, y)` has position `(1000 * x, 1000 * y)`, and
//! the progress along one path leg runs from 0 up to (but never reaching)
//! 1000.

use vstd::prelude::*;

use crate::coord_map::CoordMap;
use crate::isometric::{depth_of, direction_of, iso_depth, IsometricDirection};
use crate::map::MapLayout;
use crate::map_state::MapState;
use crate::pathfind::adjacent;

verus! {

/// One progress unit short of a whole leg: progress lives in `[0, 1000)`.
pub const PROGRESS_ONE: u32 = 1000;

/// Maps an occupied grid coordinate to the id of the unit standing on it.
/// Exactly one unit may occupy a coordinate.
pub struct UnitRegistry {
    pub units: CoordMap<u64>,
}

impl UnitRegistry {
    pub open spec fn wf(&self) -> bool {
        self.units.wf()
    }

    /// An empty registry.
    pub fn new() -> (r: Self)
        ensures
            r.wf(),
            r.units@ == Map::<(i32, i32), u64>::empty(),
    {
        UnitRegistry { units: CoordMap::new() }
    }
}

/// A unit: its continuous board position in milli-tiles, its terrain layer,
/// its movement stats, and its in-flight path state while it walks.
pub struct Unit {
    /// Position in milli-tiles: 1000 times the grid coordinate.
    pub x: i64,
    pub y: i64,
    /// The terrain layer the unit stands on.
    pub z: u32,
    /// How many tiles of movement cost one order may spend.
    pub travel_distance: u32,
    /// Progress per second along a leg, in milli-units.
    pub travel_speed: u32,
    /// Air units may cross terrain-layer boundaries at a fixed cost.
    pub is_air: bool,
    /// While walking: the index of the leg being walked and the waypoints.
    pub path: Option<(u32, Vec<(i32, i32)>)>,
    /// While mid-leg: progress through the current leg, in `[0, 1000)`.
    pub path_progress: Option<u32>,
    /// While mid-leg: the pinned draw-order depth, so the unit never draws
    /// behind the wrong tile in transit.
    pub render_priority: Option<i64>,
}

impl Unit {
    /// A freshly placed unit standing on tile `(x, y)` at layer `z`, idle.
    pub fn new(x: i32, y: i32, z: u32, travel_distance: u32, travel_speed: u32, is_air: bool) -> (r:
        Unit)
        ensures
            r.x == 1000 * x && r.y == 1000 * y && r.z == z,
            r.travel_distance == travel_distance,
            r.travel_speed == travel_speed,
            r.is_air == is_air,
            r.path is None && r.path_progress is None && r.render_priority is None,
    {
        Unit {
            x: 1000 * (x as i64),
            y: 1000 * (y as i64),
            z,
            travel_distance,
            travel_speed,
            is_air,
            path: None,
            path_progress: None,
            render_priority: None,
        }
    }

    /// The path state a walking unit must keep: the current leg exists, all
    /// waypoints are tiles of the layout, consecutive waypoints are cardinal
    /// neighbours, and any mid-leg progress is below a whole leg.
    pub open spec fn move_wf(&self, lay: Map<(i32, i32), u32>) -> bool {
        &&& match self.path {
            Some((i, p)) => {
                &&& p@.len() >= 2
                &&& p@.len() < 0x1_0000_0000
                &&& i + 1 < p@.len()
                &&& forall|k: int| 0 <= k < p@.len() ==> lay.dom().contains(#[trigger] p@[k])
                &&& forall|k: int| 0 <= k < p@.len() - 1 ==> adjacent(#[trigger] p@[k], p@[k + 1])
            },
            None => true,
        }
        &&& match self.path_progress {
            Some(pr) => pr < PROGRESS_ONE && self.path is Some,
            None => true,
        }
    }

    /// Orders the unit to walk the given waypoints, starting at the first
    /// leg. The caller hands over a path of at least two waypoints, as the
    /// pathfinder reconstructs them.
    pub fn move_path(&mut self, path: Vec<(i32, i32)>)
        requires
            path@.len() >= 2,
        ensures
            *final(self) == (Unit {
                path: Some((0u32, path)),
                path_progress: None,
                ..*old(self)
            }),
    {
        self.path = Some((0, path));
        self.path_progress = None;
    }
}

/// What one movement tick did to a unit.
#[derive(Clone, Copy, Debug, PartialEq, Eq)]
pub enum TickOutcome {
    /// The unit has no path: nothing happened.
    Idle,
    /// The unit advanced along its path; `play` names the directional walk
    /// clip to start when a new leg began this tick.
    Moving { play: Option<IsometricDirection> },
    /// The unit reached the path's final waypoint this tick.
    Arrived,
}

/// How much leg progress (in milli-units) a tick of `elapsed_ms` adds at the
/// given speed.
pub open spec fn progress_gain(travel_speed: u32, elapsed_ms: u32) -> int {
    (travel_speed * elapsed_ms) / 1000
}

/// The larger of two depth values.
pub open spec fn depth_max(d1: int, d2: int) -> int {
    if d1 >= d2 {
        d1
    } else {
        d2
    }
}

/// The render-priority depth pinned for the whole of one leg: the larger of
/// the two endpoint tiles' unit depths, so the unit never draws behind the
/// wrong tile mid-transit.
pub open spec fn leg_priority(lay: Map<(i32, i32), u32>, a: (i32, i32), b: (i32, i32)) -> int {
    depth_max(depth_of(a.0, a.1, lay[a], true), depth_of(b.0, b.1, lay[b], true))
}

/// What `move_unit` does, relating the unit, the registry contents and the
/// unit-moving flag before and after one tick. With no path nothing changes.
/// Otherwise progress grows by `progress_gain`; short of a whole leg the
/// unit's position is the linear blend of the leg's endpoints and the leg's
/// render priority is pinned; at a whole leg the unit snaps to the next
/// waypoint with progress and priority reset, and if that waypoint is the
/// path's last, the path is cleared, the registry moves the unit from the
/// path's first tile to its last, and the board stops blocking input.
pub open spec fn move_unit_post(
    pre: Unit,
    post: Unit,
    entity: u64,
    elapsed_ms: u32,
    lay: Map<(i32, i32), u32>,
    reg0: Map<(i32, i32), u64>,
    reg1: Map<(i32, i32), u64>,
    moving0: bool,
    moving1: bool,
    r: TickOutcome,
) -> bool {
    match pre.path {
        None => post == pre && reg1 == reg0 && moving1 == moving0 && r == TickOutcome::Idle,
        Some((leg, p)) => {
            let a = p@[leg as int];
            let b = p@[leg as int + 1];
            let started = pre.path_progress is None;
            let pr0: int = match pre.path_progress {
                Some(pr) => pr as int,
                None => 0,
            };
            let pr1 = pr0 + progress_gain(pre.travel_speed, elapsed_ms);
            let cue: Option<IsometricDirection> = if started {
                direction_of(((b.0 - a.0) as i32, (b.1 - a.1) as i32))
            } else {
                None
            };
            &&& post.z == pre.z
            &&& post.travel_distance == pre.travel_distance
            &&& post.travel_speed == pre.travel_speed
            &&& post.is_air == pre.is_air
            &&& if pr1 < PROGRESS_ONE {
                &&& post.x == (PROGRESS_ONE - pr1) * a.0 + pr1 * b.0
                &&& post.y == (PROGRESS_ONE - pr1) * a.1 + pr1 * b.1
                &&& post.path == pre.path
                &&& post.path_progress == Some(pr1 as u32)
                &&& post.render_priority == (if pre.render_priority is Some {
                    pre.render_priority
                } else {
                    Some(leg_priority(lay, a, b) as i64)
                })
                &&& reg1 == reg0
                &&& moving1 == moving0
                &&& r == (TickOutcome::Moving { play: cue })
            } else if leg + 2 < p@.len() {
                &&& post.x == 1000 * b.0
                &&& post.y == 1000 * b.1
                &&& post.path matches Some((leg1, p1)) && leg1 == leg + 1 && p1 == p
                &&& post.path_progress is None
                &&& post.render_priority is None
                &&& reg1 == reg0
                &&& moving1 == moving0
                &&& r == (TickOutcome::Moving { play: cue })
            } else {
                &&& post.x == 1000 * p@.last().0
                &&& post.y == 1000 * p@.last().1
                &&& post.path is None
                &&& post.path_progress is None
                &&& post.render_priority is None
                &&& reg1 == reg0.remove(p@[0]).insert(p@.last(), entity)
                &&& moving1 == false
                &&& r == TickOutcome::Arrived
            }
        },
    }
}

/// One movement tick for one unit: advances the unit along its path by
/// `travel_speed` times the elapsed time, switching to the leg's directional
/// walk clip on a fresh leg, pinning the draw depth for the leg, and on
/// arrival snapping the position, re-registering the unit under its new
/// tile, unblocking the board and signalling that the turn may advance; see
/// `move_unit_post`. The tint overlay and pending selection are untouched.
pub fn move_unit(
    unit: &mut Unit,
    entity: u64,
    elapsed_ms: u32,
    map_layout: &MapLayout,
    unit_registry: &mut UnitRegistry,
    map_state: &mut MapState,
) -> (r: TickOutcome)
    requires
        old(unit).move_wf(map_layout.tiles@),
        map_layout.wf(),
        old(unit_registry).wf(),
        old(map_state).wf(),
    ensures
        final(unit).move_wf(map_layout.tiles@),
        final(unit_registry).wf(),
        final(map_state).wf(),
        final(map_state).tile_tints == old(map_state).tile_tints,
        final(map_state).unit_move_selection == old(map_state).unit_move_selection,
        move_unit_post(
            *old(unit),
            *final(unit),
            entity,
            elapsed_ms,
            map_layout.tiles@,
            old(unit_registry).units@,
            final(unit_registry).units@,
            old(map_state).unit_moving,
            final(map_state).unit_moving,
            r,
        ),
{
    let (leg, path_len, a, b) = match &unit.path {
        None => {
            return TickOutcome::Idle;
        },
        Some((leg, p)) => {
            let lg = *leg;
            (lg, p.len(), p[lg as usize], p[lg as usize + 1])
        },
    };

    // a fresh leg starts: face the walk direction
    let started = unit.path_progress.is_none();
    let cue: Option<IsometricDirection> = if started {
        IsometricDirection::from_vec((b.0 - a.0, b.1 - a.1))
    } else {
        None
    };
    let pr0: u32 = match unit.path_progress {
        Some(pr) => pr,
        None => 0,
    };

    // pin the draw depth for the leg
    if unit.render_priority.is_none() {
        let za = match map_layout.tiles.get(a) {
            Some(z) => *z,
            None => {
                proof {
                    assert(false);
                }
                0
            },
        };
        let zb = match map_layout.tiles.get(b) {
            Some(z) => *z,
            None => {
                proof {
                    assert(false);
                }
                0
            },
        };
        let prio_a = iso_depth(a.0, a.1, za, true);
        let prio_b = iso_depth(b.0, b.1, zb, true);
        unit.render_priority = Some(if prio_a >= prio_b {
            prio_a
        } else {
            prio_b
        });
    }

    // advance the leg progress
    proof {
        assert((unit.travel_speed as int) * (elapsed_ms as int) < 0x1_0000_0000_0000_0000)
            by (nonlinear_arith)
            requires
                unit.travel_speed < 0x1_0000_0000,
                elapsed_ms < 0x1_0000_0000,
        ;
    }
    let gain: u64 = (unit.travel_speed as u64) * (elapsed_ms as u64) / 1000;
    let pr1: u64 = pr0 as u64 + gain;

    if pr1 >= PROGRESS_ONE as u64 {
        // the unit has reached a waypoint
        let new_leg = leg + 1;
        unit.render_priority = None;
        unit.path_progress = None;
        if new_leg as usize == path_len - 1 {
            // the waypoint is the path's last: the move is over
            let (last, first) = match &unit.path {
                Some((_, p)) => (p[path_len - 1], p[0]),
                None => {
                    proof {
                        assert(false);
                    }
                    ((0, 0), (0, 0))
                },
            };
            unit.x = 1000 * (last.0 as i64);
            unit.y = 1000 * (last.1 as i64);
            unit.path = None;
            unit_registry.units.remove(first);
            unit_registry.units.insert(last, entity);
            map_state.unit_moving = false;
            return TickOutcome::Arrived;
        }
        // snap to the reached waypoint and walk the next leg next tick
        unit.x = 1000 * (b.0 as i64);
        unit.y = 1000 * (b.1 as i64);
        match &mut unit.path {
            Some(pair) => {
                pair.0 = new_leg;
            },
            None => {
                proof {
                    assert(false);
                }
            },
        }
        return TickOutcome::Moving { play: cue };
    }

    // still mid-leg: blend the position between the leg's endpoints
    let pr = pr1 as u32;
    unit.path_progress = Some(pr);
    unit.x = lerp_milli(pr, a.0, b.0);
    unit.y = lerp_milli(pr, a.1, b.1);
    TickOutcome::Moving { play: cue }
}

/// The linear blend `(1000 - w) * a + w * b`, the position in milli-tiles of
/// a unit `w` thousandths of the way from tile coordinate `a` to `b`.
fn lerp_milli(w: u32, a: i32, b: i32) -> (r: i64)
    requires
        w <= 1000,
    ensures
        r == (1000 - w) * (a as int) + w * (b as int),
{
    proof {
        assert(-0x8000_0000_0000 <= (1000 - w as int) * (a as int) <= 0x8000_0000_0000)
            by (nonlinear_arith)
            requires
                0 <= (w as int) && (w as int) <= 1000,
                -0x8000_0000 <= (a as int) && (a as int) < 0x8000_0000,
        ;
        assert(-0x8000_0000_0000 <= (w as int) * (b as int) <= 0x8000_0000_0000)
            by (nonlinear_arith)
            requires
                0 <= (w as int) && (w as int) <= 1000,
                -0x8000_0000 <= (b as int) && (b as int) < 0x8000_0000,
        ;
    }
    ((1000 - w) as i64) * (a as i64) + (w as i64) * (b as i64)
}

/// Where the bot places its next unit: the first tile on the board diagonal
/// `(0, 0), (1, 1), ...` that exists in the layout and is not occupied, or
/// `None` when the whole diagonal is full or missing.
pub fn find_ai_placement(map_layout: &MapLayout, unit_registry: &UnitRegistry) -> (r: Option<
    (i32, i32),
>)
    requires
        map_layout.wf(),
        unit_registry.wf(),
    ensures
        match r {
            Some(c) => {
                &&& c.1 == c.0 && c.0 >= 0
                &&& map_layout.tiles@.dom().contains(c)
                &&& !unit_registry.units@.dom().contains(c)
                &&& forall|d: i32|
                    0 <= d < c.0 ==> !(map_layout.tiles@.dom().contains((d, d))
                        && !unit_registry.units@.dom().contains((d, d)))
            },
            None => forall|d: i32|
                d >= 0 ==> !(map_layout.tiles@.dom().contains((d, d))
                    && !unit_registry.units@.dom().contains((d, d))),
        },
{
    let keys = map_layout.tiles.keys();
    let n = keys.len();
    if n == 0 {
        proof {
            assert forall|d: i32| d >= 0 implies !(map_layout.tiles@.dom().contains((d, d))
                && !unit_registry.units@.dom().contains((d, d))) by {
                if map_layout.tiles@.dom().contains((d, d)) {
                    assert(keys@.contains((d, d)));
                }
            }
        }
        return None;
    }
    let mut max_x: i32 = keys[0].0;
    let mut i: usize = 1;
    while i < n
        invariant
            n == keys@.len(),
            1 <= i <= n,
            forall|k: int| 0 <= k < i ==> (#[trigger] keys@[k]).0 <= max_x,
        decreases n - i,
    {
        if keys[i].0 > max_x {
            max_x = keys[i].0;
        }
        i = i + 1;
    }

    let mut d: i64 = 0;
    while d <= max_x as i64
        invariant
            map_layout.wf(),
            unit_registry.wf(),
            n == keys@.len(),
            forall|k: int| 0 <= k < n ==> (#[trigger] keys@[k]).0 <= max_x,
            forall|k: (i32, i32)| map_layout.tiles@.dom().contains(k) ==> keys@.contains(k),
            0 <= d,
            forall|e: i32|
                0 <= e < d ==> !(map_layout.tiles@.dom().contains((e, e))
                    && !unit_registry.units@.dom().contains((e, e))),
        decreases max_x as i64 + 1 - d,
    {
        let c = (d as i32, d as i32);
        if map_layout.tiles.contains_key(c) && !unit_registry.units.contains_key(c) {
            return Some(c);
        }
        d = d + 1;
    }
    proof {
        assert forall|e: i32| e >= 0 implies !(map_layout.tiles@.dom().contains((e, e))
            && !unit_registry.units@.dom().contains((e, e))) by {
            if e > max_x {
                if map_layout.tiles@.dom().contains((e, e)) {
                    assert(keys@.contains((e, e)));
                    let k = choose|k: int| 0 <= k < keys@.len() && keys@[k] == (e, e);
                    assert(keys@[k].0 <= max_x);
                }
            }
        }
    }
    None
}

} // verus!
