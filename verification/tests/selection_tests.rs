use tactics_core::game_state::{GameEvent, GameState, GameStates, Participant};
use tactics_core::map::MapLayout;
use tactics_core::map_state::{
    clear_tile_selection, confirm_move, place_unit, select_tile, should_confirm_move,
    should_place_unit, should_select_tile, MapState, Tint,
};
use tactics_core::unit::{find_ai_placement, Unit, UnitRegistry};

fn flat_map(w: i32, h: i32) -> MapLayout {
    let mut ml = MapLayout::new();
    for x in 0..w {
        for y in 0..h {
            ml.tiles.insert((x, y), 0);
        }
    }
    ml
}

fn game_in_human_turn() -> GameState {
    let mut gs = GameState::new(vec![Participant::Me, Participant::Bot], 1);
    gs.place(1);
    gs.place(2);
    assert_eq!(gs.state, GameStates::Turn(0, false));
    gs
}

#[test]
fn clear_with_no_pending_selection_is_a_noop() {
    // a secondary click with nothing selected leaves the state unchanged
    let mut ms = MapState::new();
    clear_tile_selection(&mut ms);
    assert!(ms.unit_move_selection.is_none());
    assert!(!ms.tile_tints.contains_key((0, 0)));
    assert!(!ms.unit_moving);
    // and clearing twice is the same as clearing once
    clear_tile_selection(&mut ms);
    assert!(ms.unit_move_selection.is_none());
    assert!(!ms.unit_moving);
}

#[test]
fn select_tile_tints_reachable_tiles_and_stores_the_selection() {
    let ml = flat_map(5, 5);
    let unit = Unit::new(2, 2, 0, 1, 250, false);
    let mut ms = MapState::new();
    select_tile(&mut ms, (2, 2), 42, &unit, &ml);
    let (id, origin, paths) = ms.unit_move_selection.as_ref().unwrap();
    assert_eq!(*id, 42);
    assert_eq!(*origin, (2, 2));
    // the diamond of radius 1: the tile itself and its four neighbours
    let expected_green = Tint {
        r: 600,
        g: 1000,
        b: 600,
    };
    for t in [(2, 2), (1, 2), (3, 2), (2, 1), (2, 3)] {
        assert!(paths.contains_key(t));
        assert_eq!(ms.tile_tints.get(t), Some(&expected_green));
    }
    assert!(!ms.tile_tints.contains_key((0, 0)));
}

#[test]
fn secondary_click_clears_selection_and_tints() {
    let ml = flat_map(3, 3);
    let unit = Unit::new(1, 1, 0, 1, 250, false);
    let mut ms = MapState::new();
    select_tile(&mut ms, (1, 1), 9, &unit, &ml);
    assert!(ms.unit_move_selection.is_some());
    clear_tile_selection(&mut ms);
    assert!(ms.unit_move_selection.is_none());
    assert!(!ms.tile_tints.contains_key((1, 1)));
}

#[test]
fn confirm_move_starts_a_walk_to_a_reachable_tile() {
    let ml = flat_map(4, 1);
    let mut unit = Unit::new(0, 0, 0, 2, 250, false);
    let mut ms = MapState::new();
    select_tile(&mut ms, (0, 0), 5, &unit, &ml);
    let moved = confirm_move(&mut ms, (2, 0), &mut unit);
    assert!(moved);
    assert!(ms.unit_moving);
    assert!(ms.unit_move_selection.is_none());
    assert!(!ms.tile_tints.contains_key((1, 0)));
    let (leg, path) = unit.path.as_ref().unwrap();
    assert_eq!(*leg, 0);
    assert_eq!(path, &vec![(0, 0), (1, 0), (2, 0)]);
}

#[test]
fn confirm_move_on_unreachable_tile_only_clears() {
    let ml = flat_map(2, 1);
    let mut unit = Unit::new(0, 0, 0, 1, 250, false);
    let mut ms = MapState::new();
    select_tile(&mut ms, (0, 0), 5, &unit, &ml);
    let moved = confirm_move(&mut ms, (9, 9), &mut unit);
    assert!(!moved);
    assert!(!ms.unit_moving);
    assert!(ms.unit_move_selection.is_none());
    assert!(unit.path.is_none());
}

#[test]
fn confirm_move_on_own_tile_is_a_self_click() {
    let ml = flat_map(2, 1);
    let mut unit = Unit::new(0, 0, 0, 1, 250, false);
    let mut ms = MapState::new();
    select_tile(&mut ms, (0, 0), 5, &unit, &ml);
    let moved = confirm_move(&mut ms, (0, 0), &mut unit);
    assert!(!moved);
    assert!(!ms.unit_moving);
    assert!(unit.path.is_none());
    assert!(ms.unit_move_selection.is_none());
}

#[test]
fn selection_gates_follow_phase_and_participant() {
    let ms = MapState::new();
    // during placement neither selection nor confirmation may run
    let placing = GameState::new(vec![Participant::Me, Participant::Bot], 1);
    assert!(!should_select_tile(&ms, &placing));
    assert!(!should_confirm_move(&ms, &placing));
    assert!(should_place_unit(&placing));
    // in the human's turn, selection may run
    let turn = game_in_human_turn();
    assert!(should_select_tile(&ms, &turn));
    // confirmation additionally needs a pending selection
    assert!(!should_confirm_move(&ms, &turn));
    let ml = flat_map(2, 1);
    let unit = Unit::new(0, 0, 0, 1, 250, false);
    let mut selected = MapState::new();
    select_tile(&mut selected, (0, 0), 1, &unit, &ml);
    assert!(should_confirm_move(&selected, &turn));
    // a walking unit blocks both
    let mut busy = MapState::new();
    busy.unit_moving = true;
    assert!(!should_select_tile(&busy, &turn));
    assert!(!should_confirm_move(&busy, &turn));
}

#[test]
fn selection_waits_for_the_bot_turn_to_pass() {
    let mut gs = game_in_human_turn();
    gs.next_turn();
    // index 1 holds the bot's unit
    let ms = MapState::new();
    assert!(!should_select_tile(&ms, &gs));
}

#[test]
fn place_unit_requests_a_spawn_on_a_free_tile() {
    let gs = GameState::new(vec![Participant::Me, Participant::Bot], 1);
    let mut registry = UnitRegistry::new();
    assert_eq!(
        place_unit((2, 3), &registry, &gs),
        Some(GameEvent::SpawnUnit(2, 3, 0))
    );
    // an occupied tile is refused
    registry.units.insert((2, 3), 8);
    assert_eq!(place_unit((2, 3), &registry, &gs), None);
    // outside the placement phase nothing spawns
    let turn = game_in_human_turn();
    assert_eq!(place_unit((4, 4), &UnitRegistry::new(), &turn), None);
}

#[test]
fn ai_places_on_the_first_free_diagonal_tile() {
    let mut ml = MapLayout::new();
    ml.tiles.insert((0, 0), 0);
    ml.tiles.insert((1, 1), 0);
    ml.tiles.insert((2, 2), 0);
    let mut registry = UnitRegistry::new();
    assert_eq!(find_ai_placement(&ml, &registry), Some((0, 0)));
    registry.units.insert((0, 0), 1);
    assert_eq!(find_ai_placement(&ml, &registry), Some((1, 1)));
    registry.units.insert((1, 1), 2);
    registry.units.insert((2, 2), 3);
    assert_eq!(find_ai_placement(&ml, &registry), None);
    // an empty layout has no diagonal at all
    assert_eq!(find_ai_placement(&MapLayout::new(), &UnitRegistry::new()), None);
}
