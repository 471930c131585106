use tactics_core::game_state::{GameEvent, GameState, GameStateEvent, GameStates, Participant};

fn two_player_game(units_per_participant: u32) -> GameState {
    GameState::new(
        vec![Participant::Me, Participant::Bot],
        units_per_participant,
    )
}

#[test]
fn placement_starts_at_player_zero_round_zero() {
    let gs = two_player_game(3);
    assert_eq!(gs.state, GameStates::Placing(0, 0));
    assert!(gs.turn_order.is_empty());
}

#[test]
fn place_advances_cursor_and_requests_bot_placement() {
    let mut gs = two_player_game(3);
    // the human places; the next seat is the bot, so its placement is requested
    let ev = gs.place(1);
    assert_eq!(gs.state, GameStates::Placing(1, 0));
    assert_eq!(ev, Some(GameEvent::PlaceAiUnit(1)));
    // the bot places; the cursor wraps into round 1 on the human seat
    let ev = gs.place(2);
    assert_eq!(gs.state, GameStates::Placing(0, 1));
    assert_eq!(ev, None);
}

#[test]
fn placement_wraparound_ends_in_turn_zero() {
    // after participants * units_per_participant placements the phase is
    // exactly Turn(0, false), never Placing
    let mut gs = two_player_game(3);
    for entity in 1..=6u64 {
        assert!(matches!(gs.state, GameStates::Placing(_, _)));
        gs.place(entity);
    }
    assert_eq!(gs.state, GameStates::Turn(0, false));
}

#[test]
fn turn_order_sorted_by_player_then_placement() {
    // placements alternate Me, Bot, Me, Bot, ...; the turn order groups by
    // participant id, each group in placement order
    let mut gs = two_player_game(3);
    for entity in 1..=6u64 {
        gs.place(entity);
    }
    let expected = vec![
        Some((0usize, 1u64)),
        Some((0, 3)),
        Some((0, 5)),
        Some((1, 2)),
        Some((1, 4)),
        Some((1, 6)),
    ];
    assert_eq!(gs.turn_order, expected);
}

#[test]
fn place_is_a_noop_in_turn_phase() {
    let mut gs = two_player_game(1);
    gs.place(1);
    gs.place(2);
    assert_eq!(gs.state, GameStates::Turn(0, false));
    let before = gs.turn_order.clone();
    let ev = gs.place(99);
    assert_eq!(ev, None);
    assert_eq!(gs.state, GameStates::Turn(0, false));
    assert_eq!(gs.turn_order, before);
}

#[test]
fn next_turn_advances_circularly() {
    let mut gs = two_player_game(1);
    gs.place(1);
    gs.place(2);
    assert_eq!(gs.state, GameStates::Turn(0, false));
    gs.next_turn();
    assert_eq!(gs.state, GameStates::Turn(1, false));
    gs.next_turn();
    assert_eq!(gs.state, GameStates::Turn(0, false));
}

#[test]
fn next_turn_skips_vacated_slots() {
    let mut gs = two_player_game(2);
    for entity in 1..=4u64 {
        gs.place(entity);
    }
    assert_eq!(gs.state, GameStates::Turn(0, false));
    gs.turn_order[1] = None;
    gs.next_turn();
    assert_eq!(gs.state, GameStates::Turn(2, false));
    gs.next_turn();
    assert_eq!(gs.state, GameStates::Turn(3, false));
    gs.next_turn();
    assert_eq!(gs.state, GameStates::Turn(0, false));
}

#[test]
fn next_turn_with_all_slots_vacated_is_a_noop() {
    let mut gs = two_player_game(1);
    gs.place(1);
    gs.place(2);
    gs.turn_order[0] = None;
    gs.turn_order[1] = None;
    gs.next_turn();
    assert_eq!(gs.state, GameStates::Turn(0, false));
}

#[test]
fn next_turn_is_a_noop_while_placing() {
    let mut gs = two_player_game(3);
    gs.next_turn();
    assert_eq!(gs.state, GameStates::Placing(0, 0));
}

#[test]
fn handle_event_dispatches_spawn_and_move() {
    let mut gs = two_player_game(1);
    let ev = gs.handle_event(GameStateEvent::SpawnedUnit(1));
    assert_eq!(ev, Some(GameEvent::PlaceAiUnit(1)));
    gs.handle_event(GameStateEvent::SpawnedUnit(2));
    assert_eq!(gs.state, GameStates::Turn(0, false));
    let ev = gs.handle_event(GameStateEvent::MovedUnit(1));
    assert_eq!(ev, None);
    assert_eq!(gs.state, GameStates::Turn(1, false));
}

#[test]
fn turn_order_deterministic_across_runs() {
    // the same placement sequence always yields the same turn order
    let build = || {
        let mut gs = two_player_game(2);
        for entity in [10u64, 20, 11, 21] {
            gs.place(entity);
        }
        gs.turn_order.clone()
    };
    assert_eq!(build(), build());
    assert_eq!(
        build(),
        vec![Some((0, 10)), Some((0, 11)), Some((1, 20)), Some((1, 21))]
    );
}
