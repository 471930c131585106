use tactics_core::isometric::{iso_depth, IsometricDirection};
use tactics_core::map::{build_map_layout, correct_editor_transform, MapLayout, Tile, TiledLayer, TiledMap};

fn map_with_layers(layers: Vec<TiledLayer>) -> TiledMap {
    TiledMap {
        compressionlevel: -1,
        height: 2,
        width: 2,
        layers,
        tilewidth: 232,
        tileheight: 116,
    }
}

fn layer(id: i32, width: u32, height: u32, data: Vec<i32>) -> TiledLayer {
    TiledLayer {
        data,
        id,
        name: format!("layer {}", id),
        height,
        width,
    }
}

#[test]
fn editor_coordinates_shift_by_one_per_axis_and_layer() {
    assert_eq!(correct_editor_transform(0, 0, 0), (-1, -1));
    assert_eq!(correct_editor_transform(3, 1, 0), (2, 0));
    assert_eq!(correct_editor_transform(3, 1, 2), (4, 2));
}

#[test]
fn layout_skips_empty_tiles_and_corrects_coordinates() {
    // row-major 2x2 grid: (0,0)=1, (1,0)=0, (0,1)=2, (1,1)=3
    let map = map_with_layers(vec![layer(1, 2, 2, vec![1, 0, 2, 3])]);
    let ml = build_map_layout(&map);
    assert_eq!(ml.tiles.get((-1, -1)), Some(&0));
    assert_eq!(ml.tiles.get((-1, 0)), Some(&0));
    assert_eq!(ml.tiles.get((0, 0)), Some(&0));
    // tile id 0 means "no tile"
    assert_eq!(ml.tiles.get((0, -1)), None);
}

#[test]
fn later_layer_wins_where_layers_collide() {
    // layer 0 puts a tile at corrected (0,0); layer 1's single cell corrects
    // to (0,0) as well and overrides it
    let l0 = layer(1, 2, 2, vec![0, 0, 0, 7]);
    let l1 = layer(2, 1, 1, vec![9]);
    let map = map_with_layers(vec![l0, l1]);
    let ml = build_map_layout(&map);
    assert_eq!(ml.tiles.get((0, 0)), Some(&1));
}

#[test]
fn empty_map_builds_empty_layout() {
    let map = map_with_layers(vec![]);
    let ml = build_map_layout(&map);
    assert!(!ml.tiles.contains_key((0, 0)));
}

#[test]
fn layout_edits_replace_and_remove() {
    let mut ml = MapLayout::new();
    ml.tiles.insert((2, 3), 0);
    ml.tiles.insert((2, 3), 5);
    assert_eq!(ml.tiles.get((2, 3)), Some(&5));
    ml.tiles.remove((2, 3));
    assert_eq!(ml.tiles.get((2, 3)), None);
    ml.tiles.insert((1, 1), 2);
    ml.tiles.clear();
    assert!(!ml.tiles.contains_key((1, 1)));
}

#[test]
fn tile_carries_its_coordinates() {
    let t = Tile::new(4, -2, 1);
    assert_eq!((t.x, t.y, t.z), (4, -2, 1));
}

#[test]
fn iso_depth_is_twice_the_diagonal_sum_plus_unit_lift() {
    // depth orders draws by x + y + z, doubled; a unit sits half a step above
    assert_eq!(iso_depth(2, 3, 1, false), 12);
    assert_eq!(iso_depth(2, 3, 1, true), 13);
    assert_eq!(iso_depth(-4, 0, 0, false), -8);
    assert_eq!(iso_depth(0, 0, 0, true), 1);
}

#[test]
fn from_vec_maps_the_four_cardinal_steps() {
    assert!(matches!(
        IsometricDirection::from_vec((0, -1)),
        Some(IsometricDirection::UpRight)
    ));
    assert!(matches!(
        IsometricDirection::from_vec((-1, 0)),
        Some(IsometricDirection::UpLeft)
    ));
    assert!(matches!(
        IsometricDirection::from_vec((1, 0)),
        Some(IsometricDirection::DownRight)
    ));
    assert!(matches!(
        IsometricDirection::from_vec((0, 1)),
        Some(IsometricDirection::DownLeft)
    ));
    assert!(IsometricDirection::from_vec((1, 1)).is_none());
    assert!(IsometricDirection::from_vec((0, 0)).is_none());
    assert!(IsometricDirection::from_vec((0, 2)).is_none());
}
