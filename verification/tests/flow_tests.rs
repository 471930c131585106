//! One whole round of the game driven through the public API, in the order
//! the engine scheduler would: placement for both participants (the bot via
//! the placement-request event), selection, move confirmation, per-tick
//! movement, and the turn rotation on arrival.

use std::collections::HashMap;

use tactics_core::game_state::{GameEvent, GameState, GameStateEvent, GameStates, Participant};
use tactics_core::map::MapLayout;
use tactics_core::map_state::{
    confirm_move, place_unit, select_tile, should_confirm_move, should_place_unit,
    should_select_tile, MapState,
};
use tactics_core::unit::{find_ai_placement, move_unit, TickOutcome, Unit, UnitRegistry};
use tactics_core::GameConfig;

struct World {
    layout: MapLayout,
    game_state: GameState,
    registry: UnitRegistry,
    map_state: MapState,
    units: HashMap<u64, Unit>,
    next_entity: u64,
}

impl World {
    fn spawn(&mut self, x: i32, y: i32) {
        let z = *self.layout.tiles.get((x, y)).unwrap();
        let id = self.next_entity;
        self.next_entity += 1;
        self.units.insert(id, Unit::new(x, y, z, 3, 500, false));
        self.registry.units.insert((x, y), id);
        if let Some(out) = self.game_state.handle_event(GameStateEvent::SpawnedUnit(id)) {
            self.handle_game_event(out);
        }
    }

    fn handle_game_event(&mut self, event: GameEvent) {
        match event {
            GameEvent::SpawnUnit(x, y, _) => self.spawn(x, y),
            GameEvent::PlaceAiUnit(_) => {
                let (x, y) = find_ai_placement(&self.layout, &self.registry).unwrap();
                self.spawn(x, y);
            }
        }
    }

    fn click(&mut self, tile: (i32, i32)) {
        if should_confirm_move(&self.map_state, &self.game_state) {
            let id = self.map_state.unit_move_selection.as_ref().unwrap().0;
            let unit = self.units.get_mut(&id).unwrap();
            confirm_move(&mut self.map_state, tile, unit);
        }
        if should_select_tile(&self.map_state, &self.game_state) {
            if let Some(&id) = self.registry.units.get(tile) {
                let unit = &self.units[&id];
                select_tile(&mut self.map_state, tile, id, unit, &self.layout);
            }
        }
        if should_place_unit(&self.game_state) {
            if let Some(event) = place_unit(tile, &self.registry, &self.game_state) {
                self.handle_game_event(event);
            }
        }
    }
}

#[test]
fn a_full_round_from_placement_to_the_next_turn() {
    let _config = GameConfig::new("tiles.tsj".to_string(), "board.tmj".to_string());
    let mut layout = MapLayout::new();
    for x in 0..4 {
        for y in 0..4 {
            layout.tiles.insert((x, y), 0);
        }
    }
    let mut world = World {
        layout,
        game_state: GameState::new(vec![Participant::Me, Participant::Bot], 2),
        registry: UnitRegistry::new(),
        map_state: MapState::new(),
        units: HashMap::new(),
        next_entity: 1,
    };

    // the human places at (3, 0) and (3, 1); each placement triggers the
    // bot, which fills the diagonal from (0, 0)
    world.click((3, 0));
    world.click((3, 1));
    assert_eq!(world.game_state.state, GameStates::Turn(0, false));
    assert_eq!(world.registry.units.get((3, 0)), Some(&1));
    assert_eq!(world.registry.units.get((0, 0)), Some(&2));
    assert_eq!(world.registry.units.get((3, 1)), Some(&3));
    assert_eq!(world.registry.units.get((1, 1)), Some(&4));
    // turn order: the human's units first, in placement order
    assert_eq!(
        world.game_state.turn_order,
        vec![Some((0, 1)), Some((0, 3)), Some((1, 2)), Some((1, 4))]
    );

    // unit 1 holds the first turn: select it and send it two tiles down
    world.click((3, 0));
    assert!(world.map_state.unit_move_selection.is_some());
    world.click((3, 2));
    assert!(world.map_state.unit_moving);

    // half-speed legs: each takes two 1-second ticks; run until arrival
    let mut arrivals = 0;
    for _ in 0..16 {
        if !world.map_state.unit_moving {
            break;
        }
        let outcome = move_unit(
            world.units.get_mut(&1).unwrap(),
            1,
            1000,
            &world.layout,
            &mut world.registry,
            &mut world.map_state,
        );
        if outcome == TickOutcome::Arrived {
            arrivals += 1;
            world.game_state.handle_event(GameStateEvent::MovedUnit(1));
        }
    }
    assert_eq!(arrivals, 1);
    assert_eq!(world.registry.units.get((3, 0)), None);
    assert_eq!(world.registry.units.get((3, 2)), Some(&1));
    // the turn passed to the human's second unit
    assert_eq!(world.game_state.state, GameStates::Turn(1, false));
    // and the board accepts input again
    assert!(!world.map_state.unit_moving);
    assert!(should_select_tile(&world.map_state, &world.game_state));
}

#[test]
fn registry_replaces_and_removes_occupants() {
    let mut registry = UnitRegistry::new();
    registry.units.insert((0, 0), 1);
    registry.units.insert((0, 0), 2);
    assert_eq!(registry.units.get((0, 0)), Some(&2));
    registry.units.remove((0, 0));
    assert_eq!(registry.units.get((0, 0)), None);
    // removing an absent key changes nothing
    registry.units.remove((5, 5));
    assert!(!registry.units.contains_key((5, 5)));
}

#[test]
fn config_carries_the_asset_paths() {
    let config = GameConfig::new("a.tsj".to_string(), "b.tmj".to_string());
    assert_eq!(config.tileset, "a.tsj");
    assert_eq!(config.map, "b.tmj");
}
