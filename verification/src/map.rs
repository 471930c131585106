//! The static tile layout of the board: which grid coordinates hold a tile
//! and on which terrain layer, built once from the parsed map asset.

use vstd::prelude::*;

use crate::coord_map::CoordMap;

verus! {

/// One tile of the board, as attached to a spawned tile entity.
pub struct Tile {
    pub x: i32,
    pub y: i32,
    pub z: i32,
}

impl Tile {
    pub fn new(x: i32, y: i32, z: i32) -> (r: Self)
        ensures
            r.x == x && r.y == y && r.z == z,
    {
        Tile { x, y, z }
    }
}

/// One layer of a parsed map asset: a `width` x `height` grid of tile ids in
/// row-major order, where id 0 means "no tile here".
pub struct TiledLayer {
    pub data: Vec<i32>,
    pub id: i32,
    pub name: String,
    pub height: u32,
    pub width: u32,
}

impl TiledLayer {
    /// The grid data covers the stated dimensions.
    pub open spec fn wf(&self) -> bool {
        self.data@.len() == self.width * self.height
    }
}

/// A parsed map asset: a stack of layers plus the pixel size of one tile.
pub struct TiledMap {
    pub compressionlevel: i32,
    pub height: u32,
    pub width: u32,
    pub layers: Vec<TiledLayer>,
    pub tilewidth: u32,
    pub tileheight: u32,
}

impl TiledMap {
    /// Every layer is well-formed and the dimensions are small enough that
    /// corrected grid coordinates fit an `i32`.
    pub open spec fn wf(&self) -> bool {
        &&& self.layers@.len() < 0x4000_0000
        &&& forall|i: int|
            0 <= i < self.layers@.len() ==> (#[trigger] self.layers@[i]).wf()
                && self.layers@[i].width < 0x4000_0000 && self.layers@[i].height < 0x4000_0000
    }
}

/// The static per-coordinate terrain layer index of the board. Absence of a
/// coordinate means "no tile": impassable and non-existent.
pub struct MapLayout {
    pub tiles: CoordMap<u32>,
}

impl MapLayout {
    pub open spec fn wf(&self) -> bool {
        self.tiles.wf()
    }

    /// An empty layout, as present before any map asset has loaded.
    pub fn new() -> (r: Self)
        ensures
            r.wf(),
            r.tiles@ == Map::<(i32, i32), u32>::empty(),
    {
        MapLayout { tiles: CoordMap::new() }
    }
}

/// The editor stores each layer's grid shifted by one cell per axis and by
/// one more per layer; this undoes that convention.
pub open spec fn corrected_x(editor_x: int, layer_id: int) -> int {
    editor_x - 1 + layer_id
}

/// Whether layer `li` of the asset puts a tile at board coordinate `c`:
/// `c` corrects back to an in-range editor cell whose tile id is not 0.
pub open spec fn layer_has_tile(layer: TiledLayer, li: int, c: (i32, i32)) -> bool {
    let ex = c.0 + 1 - li;
    let ey = c.1 + 1 - li;
    &&& 0 <= ex < layer.width
    &&& 0 <= ey < layer.height
    &&& layer.data@[ex + ey * layer.width] != 0
}

/// The board layout contributed by the first `n` layers; a later layer
/// overrides an earlier one where both put a tile on the same coordinate.
pub open spec fn layout_upto(layers: Seq<TiledLayer>, n: int) -> Map<(i32, i32), u32>
    decreases n,
{
    if n <= 0 {
        Map::empty()
    } else {
        layout_upto(layers, n - 1).union_prefer_right(
            Map::new(|c: (i32, i32)| layer_has_tile(layers[n - 1], n - 1, c), |c: (i32, i32)| (n
                - 1) as u32),
        )
    }
}

/// The board layout that a whole map asset denotes.
pub open spec fn layout_of(map: TiledMap) -> Map<(i32, i32), u32> {
    layout_upto(map.layers@, map.layers@.len() as int)
}

/// Restriction of `layer_has_tile` to the editor cells before column
/// `ex_done`, plus the cells of column `ex_done` before row `ey_done`; used
/// to describe the layout mid-way through scanning a layer.
pub open spec fn layer_has_tile_upto(
    layer: TiledLayer,
    li: int,
    ex_done: int,
    ey_done: int,
    c: (i32, i32),
) -> bool {
    let ex = c.0 + 1 - li;
    let ey = c.1 + 1 - li;
    &&& layer_has_tile(layer, li, c)
    &&& (ex < ex_done || (ex == ex_done && ey < ey_done))
}

/// Maps an editor cell back to board coordinates, one layer at a time.
pub fn correct_editor_transform(editor_x: u32, editor_y: u32, layer_id: u32) -> (r: (i32, i32))
    requires
        editor_x + layer_id < 0x8000_0000,
        editor_y + layer_id < 0x8000_0000,
    ensures
        r.0 == corrected_x(editor_x as int, layer_id as int),
        r.1 == corrected_x(editor_y as int, layer_id as int),
{
    let x: i64 = editor_x as i64 - 1 + layer_id as i64;
    let y: i64 = editor_y as i64 - 1 + layer_id as i64;
    (x as i32, y as i32)
}

/// Builds the board layout from a parsed map asset: every non-zero tile id
/// of every layer contributes its corrected coordinate, and a later layer
/// wins where two layers collide.
pub fn build_map_layout(map: &TiledMap) -> (r: MapLayout)
    requires
        map.wf(),
    ensures
        r.wf(),
        r.tiles@ == layout_of(*map),
{
    let mut layout = MapLayout::new();
    let n_layers = map.layers.len();
    let mut li: usize = 0;
    while li < n_layers
        invariant
            n_layers == map.layers@.len(),
            li <= n_layers,
            map.wf(),
            layout.wf(),
            layout.tiles@ == layout_upto(map.layers@, li as int),
        decreases n_layers - li,
    {
        let layer = &map.layers[li];
        let w = layer.width;
        let h = layer.height;
        let mut ex: u32 = 0;
        while ex < w
            invariant
                n_layers == map.layers@.len(),
                li < n_layers,
                map.wf(),
                layer == &map.layers@[li as int],
                w == layer.width,
                h == layer.height,
                ex <= w,
                layout.wf(),
                layout.tiles@ == layout_upto(map.layers@, li as int).union_prefer_right(
                    Map::new(
                        |c: (i32, i32)| layer_has_tile_upto(*layer, li as int, ex as int, 0, c),
                        |c: (i32, i32)| li as u32,
                    ),
                ),
            decreases w - ex,
        {
            let mut ey: u32 = 0;
            while ey < h
                invariant
                    n_layers == map.layers@.len(),
                    li < n_layers,
                    map.wf(),
                    layer == &map.layers@[li as int],
                    w == layer.width,
                    h == layer.height,
                    ex < w,
                    ey <= h,
                    layout.wf(),
                    layout.tiles@ == layout_upto(map.layers@, li as int).union_prefer_right(
                        Map::new(
                            |c: (i32, i32)|
                                layer_has_tile_upto(*layer, li as int, ex as int, ey as int, c),
                            |c: (i32, i32)| li as u32,
                        ),
                    ),
                decreases h - ey,
            {
                let dlen = layer.data.len();
                proof {
                    assert(map.layers@[li as int].wf());
                    assert(w < 0x4000_0000 && h < 0x4000_0000);
                    assert(ex + ey * w < w * h) by (nonlinear_arith)
                        requires
                            ex < w,
                            ey < h,
                    ;
                    assert(w * h < 0x4000_0000 * 0x4000_0000) by (nonlinear_arith)
                        requires
                            w < 0x4000_0000,
                            h < 0x4000_0000,
                    ;
                }
                let idx64: u64 = ex as u64 + ey as u64 * w as u64;
                let idx: usize = idx64 as usize;
                let id = layer.data[idx];
                if id != 0 {
                    let c = correct_editor_transform(ex, ey, li as u32);
                    layout.tiles.insert(c, li as u32);
                    proof {
                        let m0 = layout_upto(map.layers@, li as int);
                        assert(layout.tiles@ =~= m0.union_prefer_right(
                            Map::new(
                                |c: (i32, i32)|
                                    layer_has_tile_upto(
                                        *layer,
                                        li as int,
                                        ex as int,
                                        ey as int + 1,
                                        c,
                                    ),
                                |c: (i32, i32)| li as u32,
                            ),
                        ));
                    }
                } else {
                    proof {
                        let m0 = layout_upto(map.layers@, li as int);
                        assert(layout.tiles@ =~= m0.union_prefer_right(
                            Map::new(
                                |c: (i32, i32)|
                                    layer_has_tile_upto(
                                        *layer,
                                        li as int,
                                        ex as int,
                                        ey as int + 1,
                                        c,
                                    ),
                                |c: (i32, i32)| li as u32,
                            ),
                        ));
                    }
                }
                ey = ey + 1;
            }
            proof {
                let m0 = layout_upto(map.layers@, li as int);
                assert(layout.tiles@ =~= m0.union_prefer_right(
                    Map::new(
                        |c: (i32, i32)|
                            layer_has_tile_upto(*layer, li as int, ex as int + 1, 0, c),
                        |c: (i32, i32)| li as u32,
                    ),
                ));
            }
            ex = ex + 1;
        }
        proof {
            let m0 = layout_upto(map.layers@, li as int);
            assert(layout.tiles@ =~= layout_upto(map.layers@, li as int + 1));
        }
        li = li + 1;
    }
    layout
}

} // verus!
