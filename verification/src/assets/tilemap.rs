//! Tilemaps: row-major layers of indices into a tileset of sprite ids, their
//! validation, and the registry of loaded maps.

use vstd::prelude::*;

use crate::assets::name_map::NameMap;
use crate::text::str_eq;

verus! {

/// Index into `TilemapData::tileset`; negative means empty.
pub type TileIndex = i32;

/// The empty tile.
pub const EMPTY_TILE: i32 = -1;

/// What a layer is for.
#[derive(Debug, Clone, Copy, PartialEq, Eq, Structural)]
pub enum LayerKind {
    Render,
    Collision,
}

impl Default for LayerKind {
    fn default() -> (r: Self)
        ensures
            r == LayerKind::Render,
    {
        LayerKind::Render
    }
}

/// A row-major layer of tile indices.
#[derive(Debug, Clone)]
pub struct TilemapLayer {
    pub name: String,
    pub kind: LayerKind,
    pub tiles: Vec<i32>,
}

/// A tilemap: tile and map sizes, the tileset's sprite ids and the layers.
#[derive(Debug, Clone)]
pub struct TilemapData {
    pub tile_width: u32,
    pub tile_height: u32,
    pub width: u32,
    pub height: u32,
    pub tileset: Vec<String>,
    pub layers: Vec<TilemapLayer>,
}

/// Why a tilemap is malformed.
#[derive(Debug, Clone, Copy, PartialEq, Eq, Structural)]
pub enum TilemapError {
    /// A tile dimension is zero.
    ZeroTileSize { width: u32, height: u32 },
    /// A map dimension is zero.
    ZeroMapSize { width: u32, height: u32 },
    /// Layer `layer` has `tiles` tiles where the map has `cells` cells.
    LayerSize { layer: usize, tiles: usize, cells: u64 },
    /// Tile `index` of layer `layer` is `tile`, past the tileset's `tileset_len` entries.
    TileOutOfRange { layer: usize, index: usize, tile: i32, tileset_len: i32 },
}

/// The first tile at or after `k` that is not below `bound`.
pub open spec fn first_tile_past(tiles: Seq<i32>, bound: i32, k: int) -> Option<int>
    decreases tiles.len() - k,
{
    if k < 0 || k >= tiles.len() {
        None
    } else if tiles[k] >= bound {
        Some(k)
    } else {
        first_tile_past(tiles, bound, k + 1)
    }
}

/// The first fault among the layers from `i` on.
pub open spec fn layers_fault(layers: Seq<TilemapLayer>, i: int, cells: u64, tileset_len: i32) -> Option<TilemapError>
    decreases layers.len() - i,
{
    if i < 0 || i >= layers.len() {
        None
    } else if layers[i].tiles@.len() != cells {
        Some(TilemapError::LayerSize { layer: i as usize, tiles: layers[i].tiles@.len() as usize, cells })
    } else {
        match first_tile_past(layers[i].tiles@, tileset_len, 0) {
            Some(k) => Some(TilemapError::TileOutOfRange {
                layer: i as usize,
                index: k as usize,
                tile: layers[i].tiles@[k],
                tileset_len,
            }),
            None => layers_fault(layers, i + 1, cells, tileset_len),
        }
    }
}

/// No tile from `k` on reaches `bound` exactly when the search finds none.
proof fn lemma_no_tile_past(tiles: Seq<i32>, bound: i32, k: int)
    requires
        0 <= k,
    ensures
        first_tile_past(tiles, bound, k) is None <==> forall|j: int| k <= j < tiles.len() ==> #[trigger] tiles[j] < bound,
    decreases tiles.len() - k,
{
    if k < tiles.len() {
        lemma_no_tile_past(tiles, bound, k + 1);
        if tiles[k] < bound {
            assert forall|j: int| k <= j < tiles.len() && (forall|m: int| k + 1 <= m < tiles.len() ==> #[trigger] tiles[m] < bound)
                implies #[trigger] tiles[j] < bound by {
                if j > k {
                    assert(tiles[j] < bound);
                }
            }
        }
    }
}

/// The layers from `i` on have no fault exactly when each has one tile per
/// cell and every tile is below `tileset_len`.
proof fn lemma_no_layer_fault(layers: Seq<TilemapLayer>, i: int, cells: u64, tileset_len: i32)
    requires
        0 <= i,
    ensures
        layers_fault(layers, i, cells, tileset_len) is None <==> forall|j: int| i <= j < layers.len() ==> {
            &&& (#[trigger] layers[j]).tiles@.len() == cells
            &&& forall|k: int| 0 <= k < layers[j].tiles@.len() ==> #[trigger] layers[j].tiles@[k] < tileset_len
        },
    decreases layers.len() - i,
{
    if i < layers.len() {
        lemma_no_layer_fault(layers, i + 1, cells, tileset_len);
        lemma_no_tile_past(layers[i].tiles@, tileset_len, 0);
    }
}

impl TilemapData {
    /// A map is valid exactly when its tile and map sizes are not zero,
    /// every layer has one tile per cell, and every tile is below the
    /// tileset's size (negative tiles are empty).
    pub proof fn lemma_valid(&self)
        ensures
            self.fault() is None <==> {
                &&& self.tile_width > 0 && self.tile_height > 0
                &&& self.width > 0 && self.height > 0
                &&& forall|j: int| 0 <= j < self.layers@.len() ==> {
                    &&& (#[trigger] self.layers@[j]).tiles@.len() == self.width * self.height
                    &&& forall|k: int| 0 <= k < self.layers@[j].tiles@.len() ==> #[trigger] self.layers@[j].tiles@[k] < self.tileset_index_len()
                }
            },
    {
        lemma_no_layer_fault(self.layers@, 0, self.cells(), self.tileset_index_len());
        if self.width > 0 && self.height > 0 {
            assert((self.width as int) * (self.height as int) <= 0xffff_ffff_ffff_ffff) by (nonlinear_arith)
                requires
                    self.height <= 0xffff_ffff,
                    self.width <= 0xffff_ffff,
            ;
            assert(self.cells() == self.width * self.height);
        }
    }

    /// The number of cells, `width * height`.
    pub open spec fn cells(&self) -> u64 {
        (self.width * self.height) as u64
    }

    /// The tileset's size as a tile index.
    pub open spec fn tileset_index_len(&self) -> i32 {
        self.tileset@.len() as i32
    }

    /// The first thing wrong with this map: a zero tile size, a zero map
    /// size, then the first layer whose size is not the map's or that holds
    /// a tile past the tileset.
    pub open spec fn fault(&self) -> Option<TilemapError> {
        if self.tile_width == 0 || self.tile_height == 0 {
            Some(TilemapError::ZeroTileSize { width: self.tile_width, height: self.tile_height })
        } else if self.width == 0 || self.height == 0 {
            Some(TilemapError::ZeroMapSize { width: self.width, height: self.height })
        } else {
            layers_fault(self.layers@, 0, self.cells(), self.tileset_index_len())
        }
    }

    /// Check the sizes and that every tile indexes the tileset.
    pub fn validate(&self) -> (r: Result<(), TilemapError>)
        ensures
            match self.fault() {
                Some(e) => r == Err::<(), TilemapError>(e),
                None => r is Ok,
            },
    {
        if self.tile_width == 0 || self.tile_height == 0 {
            return Err(TilemapError::ZeroTileSize { width: self.tile_width, height: self.tile_height });
        }
        if self.width == 0 || self.height == 0 {
            return Err(TilemapError::ZeroMapSize { width: self.width, height: self.height });
        }
        proof {
            assert((self.width as int) * (self.height as int) <= 0xffff_ffff_ffff_ffff) by (nonlinear_arith)
                requires
                    self.height <= 0xffff_ffff,
                    self.width <= 0xffff_ffff,
            ;
        }
        let cells: u64 = (self.width as u64) * (self.height as u64);
        let tileset_len: i32 = #[verifier::truncate] (self.tileset.len() as i32);
        assert(cells == self.cells());
        let mut i: usize = 0;
        while i < self.layers.len()
            invariant
                i <= self.layers@.len(),
                cells == self.cells(),
                tileset_len == self.tileset_index_len(),
                self.fault() == layers_fault(self.layers@, i as int, cells, tileset_len),
            decreases self.layers@.len() - i,
        {
            let layer = &self.layers[i];
            if layer.tiles.len() as u64 != cells {
                return Err(TilemapError::LayerSize { layer: i, tiles: layer.tiles.len(), cells });
            }
            let mut k: usize = 0;
            while k < layer.tiles.len()
                invariant
                    i < self.layers@.len(),
                    *layer == self.layers@[i as int],
                    layer.tiles@.len() == cells,
                    self.fault() == layers_fault(self.layers@, i as int, cells, tileset_len),
                    k <= layer.tiles@.len(),
                    first_tile_past(layer.tiles@, tileset_len, 0) == first_tile_past(layer.tiles@, tileset_len, k as int),
                decreases layer.tiles@.len() - k,
            {
                let t = layer.tiles[k];
                if t >= tileset_len {
                    return Err(TilemapError::TileOutOfRange { layer: i, index: k, tile: t, tileset_len });
                }
                k += 1;
            }
            i += 1;
        }
        Ok(())
    }

    /// The tile at `(col, row)` of layer `layer`.
    pub open spec fn spec_tile_at(&self, layer: int, col: u32, row: u32) -> Option<i32> {
        if 0 <= layer < self.layers@.len() && col < self.width && row < self.height {
            let idx = row * self.width + col;
            if idx < self.layers@[layer].tiles@.len() {
                Some(self.layers@[layer].tiles@[idx])
            } else {
                None
            }
        } else {
            None
        }
    }

    /// The tile at `(col, row)` of layer `layer`.
    pub fn tile_at(&self, layer: usize, col: u32, row: u32) -> (r: Option<i32>)
        ensures
            r == self.spec_tile_at(layer as int, col, row),
    {
        if layer >= self.layers.len() {
            return None;
        }
        let layer = &self.layers[layer];
        if col >= self.width || row >= self.height {
            return None;
        }
        proof {
            assert(row * self.width + col < self.height * self.width) by (nonlinear_arith)
                requires
                    row < self.height,
                    col < self.width,
            ;
            assert((self.height as int) * (self.width as int) <= 0xffff_ffff_ffff_ffff) by (nonlinear_arith)
                requires
                    self.height <= 0xffff_ffff,
                    self.width <= 0xffff_ffff,
            ;
        }
        let idx: u64 = (row as u64) * (self.width as u64) + (col as u64);
        if idx >= layer.tiles.len() as u64 {
            return None;
        }
        Some(layer.tiles[idx as usize])
    }
}

/// Loaded tilemaps by id, and the id each source path was loaded as.
#[derive(Debug, Clone)]
pub struct TilemapRegistry {
    maps: NameMap<TilemapData>,
    path_to_id: NameMap<String>,
}

impl TilemapRegistry {
    /// Internal maps keep each key once.
    pub closed spec fn wf(&self) -> bool {
        self.maps.wf() && self.path_to_id.wf()
    }

    /// The tilemaps by id.
    pub closed spec fn spec_maps(&self) -> Map<Seq<char>, TilemapData> {
        self.maps@
    }

    /// The id each source path was loaded as.
    pub closed spec fn spec_paths(&self) -> Map<Seq<char>, String> {
        self.path_to_id@
    }

    /// The ids in the order they were first inserted.
    pub closed spec fn spec_ids(&self) -> Seq<Seq<char>> {
        self.maps.key_seq()
    }

    /// The ids listed are those of the stored maps, each once.
    pub proof fn lemma_ids(&self)
        requires
            self.wf(),
        ensures
            self.spec_ids().no_duplicates(),
            forall|k: Seq<char>| #[trigger] self.spec_maps().dom().contains(k) <==> self.spec_ids().contains(k),
    {
        self.maps.lemma_keys();
    }

    /// An empty registry.
    pub fn new() -> (r: Self)
        ensures
            r.wf(),
            r.spec_maps() == Map::<Seq<char>, TilemapData>::empty(),
            r.spec_paths() == Map::<Seq<char>, String>::empty(),
            r.spec_ids() == Seq::<Seq<char>>::empty(),
    {
        TilemapRegistry { maps: NameMap::new(), path_to_id: NameMap::new() }
    }

    /// Store `data` as `id`, replacing any map of that id.
    pub fn insert(&mut self, id: String, data: TilemapData)
        requires
            old(self).wf(),
        ensures
            final(self).wf(),
            final(self).spec_maps() == old(self).spec_maps().insert(id@, data),
            final(self).spec_paths() == old(self).spec_paths(),
            final(self).spec_ids() == if old(self).spec_maps().dom().contains(id@) {
                old(self).spec_ids()
            } else {
                old(self).spec_ids().push(id@)
            },
    {
        self.maps.insert(id, data);
    }

    /// Store `data` as `id` and remember that `path` was loaded as `id`.
    pub fn insert_with_path(&mut self, id: String, data: TilemapData, path: String)
        requires
            old(self).wf(),
        ensures
            final(self).wf(),
            final(self).spec_maps() == old(self).spec_maps().insert(id@, data),
            final(self).spec_paths().dom() == old(self).spec_paths().dom().insert(path@),
            final(self).spec_paths()[path@]@ == id@,
            forall|p: Seq<char>| p != path@ && #[trigger] old(self).spec_paths().dom().contains(p)
                ==> final(self).spec_paths()[p] == old(self).spec_paths()[p],
            final(self).spec_ids() == if old(self).spec_maps().dom().contains(id@) {
                old(self).spec_ids()
            } else {
                old(self).spec_ids().push(id@)
            },
    {
        let key = id.clone();
        self.path_to_id.insert(path, key);
        self.maps.insert(id, data);
    }

    /// The map stored as `id`.
    pub fn get(&self, id: &str) -> (r: Option<&TilemapData>)
        requires
            self.wf(),
        ensures
            match r {
                Some(d) => self.spec_maps().dom().contains(id@) && self.spec_maps()[id@] == *d,
                None => !self.spec_maps().dom().contains(id@),
            },
    {
        self.maps.get(id)
    }

    /// Every `(id, map)`, in the order the ids were first inserted.
    pub fn iter(&self) -> (r: Vec<(&str, &TilemapData)>)
        requires
            self.wf(),
        ensures
            r@.len() == self.spec_ids().len(),
            forall|i: int| 0 <= i < r@.len() ==> (#[trigger] r@[i]).0@ == self.spec_ids()[i]
                && self.spec_maps()[self.spec_ids()[i]] == *r@[i].1,
    {
        self.maps.iter()
    }

    /// The ids, in the order they were first inserted.
    pub fn ids(&self) -> (r: Vec<&str>)
        ensures
            r@.len() == self.spec_ids().len(),
            forall|i: int| 0 <= i < r@.len() ==> (#[trigger] r@[i])@ == self.spec_ids()[i],
    {
        self.maps.keys()
    }

    /// The id `path` was loaded as.
    pub fn id_for_path(&self, path: &str) -> (r: Option<&str>)
        requires
            self.wf(),
        ensures
            match r {
                Some(id) => self.spec_paths().dom().contains(path@) && self.spec_paths()[path@]@ == id@,
                None => !self.spec_paths().dom().contains(path@),
            },
    {
        match self.path_to_id.get(path) {
            Some(id) => Some(id.as_str()),
            None => None,
        }
    }
}


/// A Tiled property: its name and, when the value is a JSON string, that
/// string.
#[derive(Debug, Clone)]
pub struct TiledProperty {
    pub name: String,
    pub value: Option<String>,
}

/// A tile of a Tiled tileset.
#[derive(Debug, Clone)]
pub struct TiledTile {
    pub id: u32,
    pub properties: Vec<TiledProperty>,
}

/// A Tiled tileset.
#[derive(Debug, Clone)]
pub struct TiledTileset {
    pub firstgid: u32,
    pub tiles: Vec<TiledTile>,
}

/// A Tiled layer; only `tilelayer` layers are read.
#[derive(Debug, Clone)]
pub struct TiledLayer {
    pub layer_type: String,
    pub name: String,
    pub data: Option<Vec<u32>>,
    pub properties: Vec<TiledProperty>,
}

/// A Tiled `.tmj` map.
#[derive(Debug, Clone)]
pub struct TiledMap {
    pub tilewidth: u32,
    pub tileheight: u32,
    pub width: u32,
    pub height: u32,
    pub tilesets: Vec<TiledTileset>,
    pub layers: Vec<TiledLayer>,
}

/// Why a Tiled map could not be turned into a tilemap.
#[derive(Debug, Clone)]
pub enum TilemapLoadError {
    NoTilesets,
    MissingSpriteId { tile: u32 },
    MissingLayerData { layer: String },
    Invalid(TilemapError),
}

/// The first property named `name` from position `k` on.
pub open spec fn first_property(props: Seq<TiledProperty>, name: Seq<char>, k: int) -> Option<int>
    decreases props.len() - k,
{
    if k < 0 || k >= props.len() {
        None
    } else if props[k].name@ == name {
        Some(k)
    } else {
        first_property(props, name, k + 1)
    }
}

/// The string value of the first property named `name`, if it is a string.
pub open spec fn property_text(props: Seq<TiledProperty>, name: Seq<char>) -> Option<Seq<char>> {
    match first_property(props, name, 0) {
        Some(k) => match props[k].value {
            Some(v) => Some(v@),
            None => None,
        },
        None => None,
    }
}

/// The string value of the first property named `name`, if it is a string.
fn find_property_text<'a>(props: &'a Vec<TiledProperty>, name: &str) -> (r: Option<&'a str>)
    ensures
        match r {
            Some(t) => property_text(props@, name@) == Some(t@),
            None => property_text(props@, name@) is None,
        },
{
    let mut k: usize = 0;
    assert(first_property(props@, name@, 0) == first_property(props@, name@, 0));
    while k < props.len()
        invariant
            k <= props@.len(),
            first_property(props@, name@, 0) == first_property(props@, name@, k as int),
        decreases props@.len() - k,
    {
        if str_eq(props[k].name.as_str(), name) {
            return match &props[k].value {
                Some(v) => Some(v.as_str()),
                None => None,
            };
        }
        k += 1;
    }
    None
}

/// Whether tile `i` comes before tile `j` by id, equal ids in list order.
pub open spec fn tile_before(tiles: Seq<TiledTile>, i: int, j: int) -> bool {
    tiles[i].id < tiles[j].id || (tiles[i].id == tiles[j].id && i < j)
}

/// `order` lists the tiles by id, equal ids in list order.
pub open spec fn is_tile_order(tiles: Seq<TiledTile>, order: Seq<int>) -> bool {
    &&& order.len() == tiles.len()
    &&& order.no_duplicates()
    &&& forall|p: int| 0 <= p < order.len() ==> 0 <= #[trigger] order[p] < tiles.len()
    &&& forall|p: int, q: int| 0 <= p < q < order.len() ==> tile_before(tiles, #[trigger] order[p], #[trigger] order[q])
}

/// The tiles' positions ordered by id, equal ids in list order.
fn tile_order(tiles: &Vec<TiledTile>) -> (r: Vec<usize>)
    ensures
        is_tile_order(tiles@, r@.map_values(|x: usize| x as int)),
{
    let n = tiles.len();
    let mut rest: Vec<usize> = Vec::new();
    let mut i: usize = 0;
    while i < n
        invariant
            i <= n,
            n == tiles@.len(),
            rest@.len() == i,
            forall|p: int| 0 <= p < i ==> #[trigger] rest@[p] == p,
        decreases n - i,
    {
        rest.push(i);
        i += 1;
    }
    let mut order: Vec<usize> = Vec::new();
    while rest.len() > 0
        invariant
            n == tiles@.len(),
            order@.len() + rest@.len() == n,
            (order@ + rest@).no_duplicates(),
            forall|p: int| 0 <= p < (order@ + rest@).len() ==> #[trigger] (order@ + rest@)[p] < n,
            forall|p: int, q: int| 0 <= p < q < order@.len() ==> tile_before(tiles@, #[trigger] order@[p] as int, #[trigger] order@[q] as int),
            forall|p: int, q: int| 0 <= p < order@.len() && 0 <= q < rest@.len() ==> tile_before(tiles@, #[trigger] order@[p] as int, #[trigger] rest@[q] as int),
        decreases rest@.len(),
    {
        proof {
            assert forall|p: int| 0 <= p < rest@.len() implies #[trigger] rest@[p] < tiles@.len() by {
                assert((order@ + rest@)[order@.len() + p] == rest@[p]);
            }
        }
        let mut b: usize = 0;
        let mut j: usize = 1;
        while j < rest.len()
            invariant
                0 < j <= rest@.len(),
                b < j,
                forall|p: int| 0 <= p < rest@.len() ==> #[trigger] rest@[p] < tiles@.len(),
                forall|p: int| 0 <= p < j && p != b ==> tile_before(tiles@, rest@[b as int] as int, #[trigger] rest@[p] as int)
                    || rest@[p] == rest@[b as int],
            decreases rest@.len() - j,
        {
            let x = rest[j];
            let y = rest[b];
            if tiles[x].id < tiles[y].id || (tiles[x].id == tiles[y].id && x < y) {
                proof {
                    assert forall|p: int| 0 <= p < j + 1 && p != j implies tile_before(tiles@, x as int, #[trigger] rest@[p] as int)
                        || rest@[p] == rest@[j as int] by {
                        if p != b as int && rest@[p] != rest@[b as int] {
                            assert(tile_before(tiles@, y as int, rest@[p] as int));
                        }
                    }
                }
                b = j;
            }
            j += 1;
        }
        let ghost old_order = order@;
        let ghost old_rest = rest@;
        let c = rest.remove(b);
        order.push(c);
        proof {
            let all0 = old_order + old_rest;
            let all1 = order@ + rest@;
            assert forall|x: int, y: int| 0 <= x < y < all1.len() implies all1[x] != all1[y] by {
                let fx = if x < old_order.len() { x } else if x == old_order.len() { old_order.len() + b } else {
                    let q = x - old_order.len() - 1;
                    if q < b { old_order.len() + q } else { old_order.len() + q + 1 }
                };
                let fy = if y < old_order.len() { y } else if y == old_order.len() { old_order.len() + b } else {
                    let q = y - old_order.len() - 1;
                    if q < b { old_order.len() + q } else { old_order.len() + q + 1 }
                };
                assert(all1[x] == all0[fx]);
                assert(all1[y] == all0[fy]);
            }
            assert forall|p: int| 0 <= p < all1.len() implies #[trigger] all1[p] < n by {
                let f = if p < old_order.len() { p } else if p == old_order.len() { old_order.len() + b } else {
                    let q = p - old_order.len() - 1;
                    if q < b { old_order.len() + q } else { old_order.len() + q + 1 }
                };
                assert(all1[p] == all0[f]);
            }
            assert forall|p: int, q: int| 0 <= p < q < order@.len() implies tile_before(tiles@, #[trigger] order@[p] as int, #[trigger] order@[q] as int) by {
                if q == old_order.len() {
                    assert(order@[q] == old_rest[b as int]);
                } else {
                    assert(order@[p] == old_order[p]);
                    assert(order@[q] == old_order[q]);
                }
            }
            assert forall|p: int, q: int| 0 <= p < order@.len() && 0 <= q < rest@.len() implies tile_before(tiles@, #[trigger] order@[p] as int, #[trigger] rest@[q] as int) by {
                let k = if q < b { q } else { q + 1 };
                assert(rest@[q] == old_rest[k]);
                if p == old_order.len() {
                    assert(order@[p] == old_rest[b as int]);
                    assert(all0[old_order.len() + k] == old_rest[k]);
                    assert(all0[old_order.len() + b] == old_rest[b as int]);
                    assert(old_rest[k] != old_rest[b as int]);
                } else {
                    assert(order@[p] == old_order[p]);
                }
            }
        }
    }
    proof {
        let o = order@.map_values(|x: usize| x as int);
        assert(order@ + rest@ =~= order@);
        assert forall|x: int, y: int| 0 <= x < y < o.len() implies o[x] != o[y] by {
            assert(order@[x] != order@[y]);
        }
        assert forall|p: int| 0 <= p < o.len() implies 0 <= #[trigger] o[p] < tiles@.len() by {
            assert(order@[p] < n);
        }
        assert forall|p: int, q: int| 0 <= p < q < o.len() implies tile_before(tiles@, #[trigger] o[p], #[trigger] o[q]) by {
            assert(tile_before(tiles@, order@[p] as int, order@[q] as int));
        }
    }
    order
}


/// The sprite ids of the tiles at positions `order[p..]`, or the id of the
/// first of those tiles whose `sprite_id` property is missing or not a
/// string.
pub open spec fn tileset_ids(tiles: Seq<TiledTile>, order: Seq<int>, p: int) -> Result<Seq<Seq<char>>, u32>
    decreases order.len() - p,
{
    if p < 0 || p >= order.len() {
        Ok(Seq::empty())
    } else {
        let t = tiles[order[p]];
        match property_text(t.properties@, "sprite_id"@) {
            None => Err(t.id),
            Some(s) => match tileset_ids(tiles, order, p + 1) {
                Ok(rest) => Ok(seq![s] + rest),
                Err(e) => Err(e),
            },
        }
    }
}

/// The kind a layer's `kind` property gives: `collision`, else render.
pub open spec fn layer_kind_of(props: Seq<TiledProperty>) -> LayerKind {
    match property_text(props, "kind"@) {
        Some(s) => if s == "collision"@ { LayerKind::Collision } else { LayerKind::Render },
        None => LayerKind::Render,
    }
}

/// The first property named `kind` holds the string `collision`.
pub open spec fn marked_collision(props: Seq<TiledProperty>) -> bool {
    exists|p: int| 0 <= p < props.len() && (#[trigger] props[p]).name@ == "kind"@
        && (forall|q: int| 0 <= q < p ==> props[q].name@ != "kind"@)
        && (props[p].value matches Some(v) && v@ == "collision"@)
}

/// `tiles` are the global ids `data` taken as tile indices: one per id, zero
/// the empty tile, and an id at or past `firstgid` its offset from it.
pub open spec fn tiles_from(tiles: Seq<i32>, data: Seq<u32>, firstgid: u32) -> bool {
    &&& tiles.len() == data.len()
    &&& forall|t: int| 0 <= t < data.len() ==> (#[trigger] data[t] == 0 ==> tiles[t] == -1)
        && (data[t] != 0 && data[t] >= firstgid && data[t] - firstgid <= i32::MAX ==> tiles[t] == data[t] - firstgid)
}

/// Converting global ids tile by tile gives the tile indices.
proof fn lemma_tiles_from(data: Seq<u32>, firstgid: u32)
    ensures
        tiles_from(data.map_values(|g: u32| tile_index(g, firstgid)), data, firstgid),
{
    let tiles = data.map_values(|g: u32| tile_index(g, firstgid));
    assert forall|t: int| 0 <= t < data.len() implies (#[trigger] data[t] == 0 ==> tiles[t] == -1)
        && (data[t] != 0 && data[t] >= firstgid && data[t] - firstgid <= i32::MAX ==> tiles[t] == data[t] - firstgid) by {
        assert(tiles[t] == tile_index(data[t], firstgid));
        if data[t] != 0 && data[t] >= firstgid && data[t] - firstgid <= i32::MAX {
            let d: u32 = (data[t] - firstgid) as u32;
            assert(d as i32 == d) by (bit_vector)
                requires
                    d <= 0x7fff_ffff,
            ;
        }
    }
}

/// What the search for the first property named `name` from `k` finds.
proof fn lemma_first_property(props: Seq<TiledProperty>, name: Seq<char>, k: int)
    requires
        0 <= k,
    ensures
        match first_property(props, name, k) {
            Some(p) => k <= p < props.len() && props[p].name@ == name
                && forall|q: int| k <= q < p ==> props[q].name@ != name,
            None => forall|q: int| k <= q < props.len() ==> props[q].name@ != name,
        },
    decreases props.len() - k,
{
    if k < props.len() && props[k].name@ != name {
        lemma_first_property(props, name, k + 1);
        match first_property(props, name, k + 1) {
            Some(p) => {
                assert forall|q: int| k <= q < p implies props[q].name@ != name by {
                    if q > k {
                        assert(props[q].name@ != name);
                    }
                }
            },
            None => {},
        }
    }
}

/// A layer's kind is collision exactly when its first `kind` property is
/// the string `collision`.
proof fn lemma_layer_kind(props: Seq<TiledProperty>)
    ensures
        (layer_kind_of(props) == LayerKind::Collision) <==> marked_collision(props),
{
    lemma_first_property(props, "kind"@, 0);
    match first_property(props, "kind"@, 0) {
        Some(p) => {
            if marked_collision(props) {
                let p2 = choose|p2: int| 0 <= p2 < props.len() && (#[trigger] props[p2]).name@ == "kind"@
                    && (forall|q: int| 0 <= q < p2 ==> props[q].name@ != "kind"@)
                    && (props[p2].value matches Some(v) && v@ == "collision"@);
                if p2 < p {
                    assert(props[p2].name@ != "kind"@);
                }
                if p < p2 {
                    assert(props[p].name@ != "kind"@);
                }
                assert(p == p2);
            }
            if layer_kind_of(props) == LayerKind::Collision {
                assert(props[p].name@ == "kind"@);
            }
        },
        None => {
            if marked_collision(props) {
                let p2 = choose|p2: int| 0 <= p2 < props.len() && (#[trigger] props[p2]).name@ == "kind"@
                    && (forall|q: int| 0 <= q < p2 ==> props[q].name@ != "kind"@)
                    && (props[p2].value matches Some(v) && v@ == "collision"@);
                assert(props[p2].name@ != "kind"@);
            }
        },
    }
}

/// Every converted layer comes from a tile layer of the same name at or
/// after `i`, and is a collision layer exactly when that layer is marked so.
proof fn lemma_converted_kinds(layers: Seq<TiledLayer>, firstgid: u32, i: int)
    requires
        0 <= i,
    ensures
        converted_layers(layers, firstgid, i) matches Ok(ls) ==> forall|k: int| 0 <= k < ls.len() ==> exists|j: int|
            i <= j < layers.len() && (#[trigger] layers[j]).layer_type@ == "tilelayer"@ && (#[trigger] ls[k]).0 == layers[j].name@
                && ((ls[k].1 == LayerKind::Collision) <==> marked_collision(layers[j].properties@))
                && (layers[j].data matches Some(dd) && tiles_from(ls[k].2, dd@, firstgid)),
    decreases layers.len() - i,
{
    if i < layers.len() {
        lemma_converted_kinds(layers, firstgid, i + 1);
        lemma_layer_kind(layers[i].properties@);
        if let Some(d) = layers[i].data {
            lemma_tiles_from(d@, firstgid);
        }
        if let Ok(ls) = converted_layers(layers, firstgid, i) {
            let l = layers[i];
            if l.layer_type@ == "tilelayer"@ {
                if let Some(d) = l.data {
                    if let Ok(rest) = converted_layers(layers, firstgid, i + 1) {
                        assert forall|k: int| 0 <= k < ls.len() implies exists|j: int|
                            i <= j < layers.len() && (#[trigger] layers[j]).layer_type@ == "tilelayer"@ && (#[trigger] ls[k]).0 == layers[j].name@
                                && ((ls[k].1 == LayerKind::Collision) <==> marked_collision(layers[j].properties@))
                && (layers[j].data matches Some(dd) && tiles_from(ls[k].2, dd@, firstgid)) by {
                            if k == 0 {
                                assert(layers[i].layer_type@ == "tilelayer"@);
                            } else {
                                assert(ls[k] == rest[k - 1]);
                                let j = choose|j: int| i + 1 <= j < layers.len() && (#[trigger] layers[j]).layer_type@ == "tilelayer"@
                                    && rest[k - 1].0 == layers[j].name@
                                    && ((rest[k - 1].1 == LayerKind::Collision) <==> marked_collision(layers[j].properties@))
                                    && (layers[j].data matches Some(dd) && tiles_from(rest[k - 1].2, dd@, firstgid));
                                assert(layers[j].layer_type@ == "tilelayer"@);
                            }
                        }
                    }
                }
            } else {
                assert forall|k: int| 0 <= k < ls.len() implies exists|j: int|
                    i <= j < layers.len() && (#[trigger] layers[j]).layer_type@ == "tilelayer"@ && (#[trigger] ls[k]).0 == layers[j].name@
                        && ((ls[k].1 == LayerKind::Collision) <==> marked_collision(layers[j].properties@))
                && (layers[j].data matches Some(dd) && tiles_from(ls[k].2, dd@, firstgid)) by {
                    let j = choose|j: int| i + 1 <= j < layers.len() && (#[trigger] layers[j]).layer_type@ == "tilelayer"@
                        && ls[k].0 == layers[j].name@
                        && ((ls[k].1 == LayerKind::Collision) <==> marked_collision(layers[j].properties@))
                && (layers[j].data matches Some(dd) && tiles_from(ls[k].2, dd@, firstgid));
                    assert(layers[j].layer_type@ == "tilelayer"@);
                }
            }
        }
    }
}

/// A converted Tiled map has, for each of its layers, a tile layer of the
/// map with the same name, and the layer is a collision layer exactly when
/// that tile layer's first `kind` property is the string `collision`.
pub proof fn lemma_tiled_layer_kinds(map: TiledMap, order: Seq<int>, r: Result<TilemapData, TilemapLoadError>)
    requires
        map.tilesets@.len() > 0,
        converted(map, order, r),
    ensures
        r matches Ok(data) ==> forall|k: int| 0 <= k < data.layers@.len() ==> exists|j: int|
            0 <= j < map.layers@.len() && (#[trigger] map.layers@[j]).layer_type@ == "tilelayer"@
                && (#[trigger] data.layers@[k]).name@ == map.layers@[j].name@
                && ((data.layers@[k].kind == LayerKind::Collision) <==> marked_collision(map.layers@[j].properties@))
                && (map.layers@[j].data matches Some(dd) && tiles_from(data.layers@[k].tiles@, dd@, map.tilesets@[0].firstgid)),
{
    lemma_converted_kinds(map.layers@, map.tilesets@[0].firstgid, 0);
    if let Ok(data) = r {
        let ts = map.tilesets@[0];
        if let Ok(ids) = tileset_ids(ts.tiles@, order, 0) {
            if let Ok(ls) = converted_layers(map.layers@, ts.firstgid, 0) {
                assert forall|k: int| 0 <= k < data.layers@.len() implies exists|j: int|
                    0 <= j < map.layers@.len() && (#[trigger] map.layers@[j]).layer_type@ == "tilelayer"@
                        && (#[trigger] data.layers@[k]).name@ == map.layers@[j].name@
                        && ((data.layers@[k].kind == LayerKind::Collision) <==> marked_collision(map.layers@[j].properties@))
                && (map.layers@[j].data matches Some(dd) && tiles_from(data.layers@[k].tiles@, dd@, map.tilesets@[0].firstgid)) by {
                    assert(data.layers@[k].name@ == ls[k].0 && data.layers@[k].kind == ls[k].1);
                    let j = choose|j: int| 0 <= j < map.layers@.len() && (#[trigger] map.layers@[j]).layer_type@ == "tilelayer"@
                        && ls[k].0 == map.layers@[j].name@
                        && ((ls[k].1 == LayerKind::Collision) <==> marked_collision(map.layers@[j].properties@))
                            && (map.layers@[j].data matches Some(dd) && tiles_from(ls[k].2, dd@, map.tilesets@[0].firstgid));
                    assert(map.layers@[j].layer_type@ == "tilelayer"@);
                }
            }
        }
    }
}

/// The tile index of global id `gid`: empty for zero, else the id within
/// the tileset (the subtraction wraps).
pub open spec fn tile_index(gid: u32, firstgid: u32) -> i32 {
    if gid == 0 {
        -1i32
    } else {
        (if gid >= firstgid { gid - firstgid } else { gid - firstgid + 0x1_0000_0000 }) as u32 as i32
    }
}

/// A converted layer: name, kind and tile indices.
pub type LayerParts = (Seq<char>, LayerKind, Seq<i32>);

/// The tile layers from position `i` on, converted, or the name of the
/// first tile layer without data.
pub open spec fn converted_layers(layers: Seq<TiledLayer>, firstgid: u32, i: int) -> Result<Seq<LayerParts>, Seq<char>>
    decreases layers.len() - i,
{
    if i < 0 || i >= layers.len() {
        Ok(Seq::empty())
    } else {
        let l = layers[i];
        if l.layer_type@ != "tilelayer"@ {
            converted_layers(layers, firstgid, i + 1)
        } else {
            match l.data {
                None => Err(l.name@),
                Some(d) => match converted_layers(layers, firstgid, i + 1) {
                    Ok(rest) => Ok(seq![(l.name@, layer_kind_of(l.properties@), d@.map_values(|g: u32| tile_index(g, firstgid)))] + rest),
                    Err(e) => Err(e),
                },
            }
        }
    }
}

/// `pre` before a successful result; errors pass through.
pub open spec fn prepend<T, E>(pre: Seq<T>, r: Result<Seq<T>, E>) -> Result<Seq<T>, E> {
    match r {
        Ok(rest) => Ok(pre + rest),
        Err(e) => Err(e),
    }
}

/// `data` holds the map's sizes, the given tileset and the given layers.
pub open spec fn data_is(data: TilemapData, map: TiledMap, ids: Seq<Seq<char>>, ls: Seq<LayerParts>) -> bool {
    &&& data.tile_width == map.tilewidth
    &&& data.tile_height == map.tileheight
    &&& data.width == map.width
    &&& data.height == map.height
    &&& data.tileset@.len() == ids.len()
    &&& forall|k: int| 0 <= k < ids.len() ==> (#[trigger] data.tileset@[k])@ == ids[k]
    &&& data.layers@.len() == ls.len()
    &&& forall|k: int| 0 <= k < ls.len() ==> {
        let l = #[trigger] data.layers@[k];
        &&& l.name@ == ls[k].0
        &&& l.kind == ls[k].1
        &&& l.tiles@ == ls[k].2
    }
}

/// What converting `map` gives when its first tileset's tiles are taken in
/// `order`: the first tileset's tile sprite ids, then the tile layers, then
/// validation, each failure its own error.
pub open spec fn converted(map: TiledMap, order: Seq<int>, r: Result<TilemapData, TilemapLoadError>) -> bool {
    let ts = map.tilesets@[0];
    match tileset_ids(ts.tiles@, order, 0) {
        Err(tile) => r matches Err(TilemapLoadError::MissingSpriteId { tile: t }) && t == tile,
        Ok(ids) => match converted_layers(map.layers@, ts.firstgid, 0) {
            Err(name) => r matches Err(TilemapLoadError::MissingLayerData { layer }) && layer@ == name,
            Ok(ls) => match r {
                Ok(data) => data_is(data, map, ids, ls) && data.fault() is None,
                Err(TilemapLoadError::Invalid(e)) => exists|data: TilemapData| data_is(data, map, ids, ls) && data.fault() == Some(e),
                Err(_) => false,
            },
        },
    }
}

fn convert_layer_tiles(data: &Vec<u32>, firstgid: u32) -> (r: Vec<i32>)
    ensures
        r@ == data@.map_values(|g: u32| tile_index(g, firstgid)),
{
    let mut r: Vec<i32> = Vec::new();
    let mut k: usize = 0;
    while k < data.len()
        invariant
            k <= data@.len(),
            r@ == data@.take(k as int).map_values(|g: u32| tile_index(g, firstgid)),
        decreases data@.len() - k,
    {
        let gid = data[k];
        let t: i32 = if gid == 0 { -1 } else { #[verifier::truncate] (gid.wrapping_sub(firstgid) as i32) };
        r.push(t);
        k += 1;
        assert(r@ =~= data@.take(k as int).map_values(|g: u32| tile_index(g, firstgid)));
    }
    assert(data@.take(k as int) =~= data@);
    r
}

impl TilemapData {
    /// Build a tilemap from a Tiled map: the first tileset's tiles by id
    /// give the tileset (each needs a string `sprite_id` property), every
    /// `tilelayer` (each needs data) gives a layer, global ids become tile
    /// indices, and the result is validated.
    pub fn from_tiled(map: &TiledMap) -> (r: Result<TilemapData, TilemapLoadError>)
        ensures
            map.tilesets@.len() == 0 ==> r matches Err(TilemapLoadError::NoTilesets),
            map.tilesets@.len() > 0 ==> exists|order: Seq<int>| is_tile_order(map.tilesets@[0].tiles@, order) && converted(*map, order, r),
            r matches Ok(data) ==> forall|k: int| 0 <= k < data.layers@.len() ==> exists|j: int|
                0 <= j < map.layers@.len() && (#[trigger] map.layers@[j]).layer_type@ == "tilelayer"@
                    && (#[trigger] data.layers@[k]).name@ == map.layers@[j].name@
                    && ((data.layers@[k].kind == LayerKind::Collision) <==> marked_collision(map.layers@[j].properties@))
                    && (map.layers@[j].data matches Some(dd) && tiles_from(data.layers@[k].tiles@, dd@, map.tilesets@[0].firstgid)),
    {
        if map.tilesets.len() == 0 {
            return Err(TilemapLoadError::NoTilesets);
        }
        let ts = &map.tilesets[0];
        let firstgid = ts.firstgid;
        let order = tile_order(&ts.tiles);
        let ghost o = order@.map_values(|x: usize| x as int);
        let ghost tiles = ts.tiles@;
        let mut tileset: Vec<String> = Vec::new();
        let mut p: usize = 0;
        assert(o.len() == order@.len());
        while p < order.len()
            invariant
                map.tilesets@.len() > 0,
                *ts == map.tilesets@[0],
                o == order@.map_values(|x: usize| x as int),
                is_tile_order(tiles, o),
                tiles == ts.tiles@,
                p <= order@.len(),
                tileset_ids(tiles, o, 0) == prepend(tileset@.map_values(|s: String| s@), tileset_ids(tiles, o, p as int)),
            decreases order@.len() - p,
        {
            let idx = order[p];
            assert(o[p as int] == idx as int);
            let t = &ts.tiles[idx];
            match find_property_text(&t.properties, "sprite_id") {
                Some(sprite) => {
                    let ghost before = tileset@.map_values(|s: String| s@);
                    tileset.push(sprite.to_owned());
                    proof {
                        let after = tileset@.map_values(|s: String| s@);
                        assert(after =~= before + seq![sprite@]);
                        match tileset_ids(tiles, o, p + 1) {
                            Ok(rest) => {
                                assert(before + (seq![sprite@] + rest) =~= after + rest);
                            },
                            Err(_) => {},
                        }
                    }
                },
                None => {
                    let r = Err(TilemapLoadError::MissingSpriteId { tile: t.id });
                    assert(tileset_ids(tiles, o, p as int) == Err::<Seq<Seq<char>>, u32>(t.id));
                    assert(converted(*map, o, r));
                    return r;
                },
            }
            p += 1;
        }
        let ghost ids = tileset@.map_values(|s: String| s@);
        proof {
            assert(ids + Seq::<Seq<char>>::empty() =~= ids);
        }
        let mut layers: Vec<TilemapLayer> = Vec::new();
        let mut i: usize = 0;
        let ghost lay = map.layers@;
        while i < map.layers.len()
            invariant
                map.tilesets@.len() > 0,
                *ts == map.tilesets@[0],
                firstgid == ts.firstgid,
                tiles == ts.tiles@,
                is_tile_order(tiles, o),
                lay == map.layers@,
                i <= lay.len(),
                tileset_ids(tiles, o, 0) == Ok::<Seq<Seq<char>>, u32>(ids),
                converted_layers(lay, firstgid, 0) == prepend(
                    layers@.map_values(|l: TilemapLayer| (l.name@, l.kind, l.tiles@)),
                    converted_layers(lay, firstgid, i as int),
                ),
            decreases lay.len() - i,
        {
            let tl = &map.layers[i];
            let ghost before = layers@.map_values(|l: TilemapLayer| (l.name@, l.kind, l.tiles@));
            if str_eq(tl.layer_type.as_str(), "tilelayer") {
                match &tl.data {
                    None => {
                        let r = Err(TilemapLoadError::MissingLayerData { layer: tl.name.clone() });
                        assert(converted_layers(lay, firstgid, i as int) == Err::<Seq<LayerParts>, Seq<char>>(tl.name@));
                        assert(converted(*map, o, r));
                        return r;
                    },
                    Some(data) => {
                        let kind = match find_property_text(&tl.properties, "kind") {
                            Some(k) => if str_eq(k, "collision") { LayerKind::Collision } else { LayerKind::Render },
                            None => LayerKind::Render,
                        };
                        let tiles_out = convert_layer_tiles(data, firstgid);
                        let name = tl.name.clone();
                        let ghost part = (name@, kind, tiles_out@);
                        layers.push(TilemapLayer { name, kind, tiles: tiles_out });
                        proof {
                            let after = layers@.map_values(|l: TilemapLayer| (l.name@, l.kind, l.tiles@));
                            assert(after =~= before + seq![part]);
                            match converted_layers(lay, firstgid, i + 1) {
                                Ok(rest) => {
                                    assert(before + (seq![part] + rest) =~= after + rest);
                                },
                                Err(_) => {},
                            }
                        }
                    },
                }
            }
            i += 1;
        }
        let ghost ls = layers@.map_values(|l: TilemapLayer| (l.name@, l.kind, l.tiles@));
        proof {
            assert(ls + Seq::<LayerParts>::empty() =~= ls);
        }
        let data = TilemapData {
            tile_width: map.tilewidth,
            tile_height: map.tileheight,
            width: map.width,
            height: map.height,
            tileset,
            layers,
        };
        proof {
            assert(data_is(data, *map, ids, ls));
        }
        let ghost snapshot = data;
        let r = match data.validate() {
            Ok(()) => Ok(data),
            Err(e) => Err(TilemapLoadError::Invalid(e)),
        };
        proof {
            if let Err(TilemapLoadError::Invalid(e)) = r {
                assert(data_is(snapshot, *map, ids, ls) && snapshot.fault() == Some(e));
            }
            assert(converted(*map, o, r));
            lemma_tiled_layer_kinds(*map, o, r);
        }
        r
    }
}

} // verus!
