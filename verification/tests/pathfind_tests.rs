use tactics_core::map::MapLayout;
use tactics_core::pathfind::{distance_cost_from_to, find_unit_paths, to_path};
use tactics_core::unit::Unit;

fn flat_map(w: i32, h: i32, layer: u32) -> MapLayout {
    let mut ml = MapLayout::new();
    for x in 0..w {
        for y in 0..h {
            ml.tiles.insert((x, y), layer);
        }
    }
    ml
}

fn ground_unit(x: i32, y: i32, distance: u32) -> Unit {
    Unit::new(x, y, 0, distance, 250, false)
}

fn air_unit(x: i32, y: i32, distance: u32) -> Unit {
    Unit::new(x, y, 0, distance, 250, true)
}

fn manhattan(a: (i32, i32), b: (i32, i32)) -> i32 {
    (b.0 - a.0).abs() + (b.1 - a.1).abs()
}

#[test]
fn reachable_set_is_manhattan_diamond_on_flat_map() {
    // a ground unit with travel distance 2 in the middle of a flat map
    // reaches exactly the tiles at Manhattan distance <= 2
    let ml = flat_map(7, 7, 0);
    let unit = ground_unit(3, 3, 2);
    let paths = find_unit_paths(2, (3, 3), &ml, &unit);
    for x in 0..7 {
        for y in 0..7 {
            let expected = manhattan((3, 3), (x, y)) <= 2;
            assert_eq!(
                paths.contains_key((x, y)),
                expected,
                "tile ({}, {})",
                x,
                y
            );
        }
    }
}

#[test]
fn origin_maps_to_itself() {
    let ml = flat_map(3, 3, 0);
    let unit = ground_unit(1, 1, 1);
    let paths = find_unit_paths(1, (1, 1), &ml, &unit);
    assert_eq!(paths.get((1, 1)), Some(&(1, 1)));
}

#[test]
fn missing_tiles_are_unreachable() {
    let mut ml = flat_map(3, 1, 0);
    ml.tiles.remove((1, 0));
    let unit = ground_unit(0, 0, 5);
    let paths = find_unit_paths(5, (0, 0), &ml, &unit);
    assert!(paths.contains_key((0, 0)));
    assert!(!paths.contains_key((1, 0)));
    // the far side is cut off entirely
    assert!(!paths.contains_key((2, 0)));
}

#[test]
fn air_unit_crosses_layer_boundary_that_ground_cannot() {
    // two tiles on different layers, one step apart: with travel distance 3
    // the air unit hops across for a cost of 3, the ground unit stays put
    let mut ml = MapLayout::new();
    ml.tiles.insert((0, 0), 0);
    ml.tiles.insert((0, 1), 1);
    let ground = ground_unit(0, 0, 3);
    let ground_paths = find_unit_paths(3, (0, 0), &ml, &ground);
    assert!(!ground_paths.contains_key((0, 1)));
    let air = air_unit(0, 0, 3);
    let air_paths = find_unit_paths(3, (0, 0), &ml, &air);
    assert!(air_paths.contains_key((0, 1)));
}

#[test]
fn air_crossing_needs_three_movement() {
    let mut ml = MapLayout::new();
    ml.tiles.insert((0, 0), 0);
    ml.tiles.insert((0, 1), 1);
    let air = air_unit(0, 0, 2);
    let paths = find_unit_paths(2, (0, 0), &ml, &air);
    assert!(!paths.contains_key((0, 1)));
}

#[test]
fn edge_costs_follow_terrain_layers() {
    let mut ml = MapLayout::new();
    ml.tiles.insert((0, 0), 0);
    ml.tiles.insert((1, 0), 0);
    ml.tiles.insert((2, 0), 1);
    let ground = ground_unit(0, 0, 3);
    let air = air_unit(0, 0, 3);
    // same layer: cost 1 for everyone
    assert_eq!(distance_cost_from_to((0, 0), (1, 0), &ml, &ground), Some(1));
    assert_eq!(distance_cost_from_to((0, 0), (1, 0), &ml, &air), Some(1));
    // layer boundary: impassable on the ground, 3 in the air
    assert_eq!(distance_cost_from_to((1, 0), (2, 0), &ml, &ground), None);
    assert_eq!(distance_cost_from_to((1, 0), (2, 0), &ml, &air), Some(3));
    // a missing tile never carries an edge
    assert_eq!(distance_cost_from_to((2, 0), (3, 0), &ml, &ground), None);
    assert_eq!(distance_cost_from_to((2, 0), (3, 0), &ml, &air), None);
}

#[test]
fn path_reconstruction_round_trip() {
    // for every reachable tile the reconstructed path starts at the origin,
    // ends at the tile, and each consecutive pair is a cardinal step over
    // tiles of the layout
    let mut ml = flat_map(4, 4, 0);
    ml.tiles.remove((1, 1));
    ml.tiles.remove((2, 1));
    let unit = ground_unit(0, 0, 4);
    let origin = (0, 0);
    let paths = find_unit_paths(4, origin, &ml, &unit);
    for x in 0..4 {
        for y in 0..4 {
            let t = (x, y);
            if !paths.contains_key(t) {
                continue;
            }
            let path = to_path(&paths, origin, t).expect("reachable tile must have a path");
            assert_eq!(path[0], origin);
            assert_eq!(*path.last().unwrap(), t);
            for pair in path.windows(2) {
                let (a, b) = (pair[0], pair[1]);
                assert_eq!(manhattan(a, b), 1, "non-cardinal step {:?} -> {:?}", a, b);
                assert!(ml.tiles.contains_key(a));
                assert!(ml.tiles.contains_key(b));
                assert_eq!(ml.tiles.get(a), ml.tiles.get(b));
            }
        }
    }
}

#[test]
fn unreachable_destination_yields_no_path() {
    let ml = flat_map(2, 1, 0);
    let unit = ground_unit(0, 0, 1);
    let paths = find_unit_paths(1, (0, 0), &ml, &unit);
    assert_eq!(to_path(&paths, (0, 0), (5, 5)), None);
}

#[test]
fn path_to_origin_is_the_origin_alone() {
    let ml = flat_map(2, 1, 0);
    let unit = ground_unit(0, 0, 1);
    let paths = find_unit_paths(1, (0, 0), &ml, &unit);
    assert_eq!(to_path(&paths, (0, 0), (0, 0)), Some(vec![(0, 0)]));
}

#[test]
fn path_follows_minimal_cost_detour() {
    // a wall forces the path around: the reconstructed path has the length
    // of the detour
    let mut ml = flat_map(3, 3, 0);
    ml.tiles.remove((1, 0));
    ml.tiles.remove((1, 1));
    let unit = ground_unit(0, 0, 6);
    let paths = find_unit_paths(6, (0, 0), &ml, &unit);
    let path = to_path(&paths, (0, 0), (2, 0)).unwrap();
    // around the wall: down to y=2, across, and back up
    assert_eq!(path.len(), 7);
    assert_eq!(path[0], (0, 0));
    assert_eq!(*path.last().unwrap(), (2, 0));
}
