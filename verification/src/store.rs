use vstd::prelude::*;

use crate::layer::Layer;
use crate::tile::TileProperties;

verus! {

/// Opaque handle to a spawned entity (a placed tile, or a layer's map itself):
/// an index into the store's arena. Arena indices are never recycled, so two
/// handles are aliases exactly when they are equal.
#[derive(Clone, Copy, Debug, PartialEq, Eq, Structural, Hash)]
pub struct Entity {
    pub index: usize,
}

/// A discrete tile coordinate inside a layer's grid.
#[derive(Clone, Copy, Debug, PartialEq, Eq, Structural, Hash)]
pub struct TilePos {
    pub x: u32,
    pub y: u32,
}

/// Grid dimensions of a layer, in tiles.
#[derive(Clone, Copy, Debug, PartialEq, Eq, Structural)]
pub struct TilemapSize {
    pub x: u32,
    pub y: u32,
}

/// Size of one cell in world units, per axis. Both components are positive.
#[derive(Clone, Copy, Debug, PartialEq, Eq, Structural)]
pub struct TilemapGridSize {
    pub x: u32,
    pub y: u32,
}

/// The placement transform of a layer: a translation taking the layer's local
/// grid frame into world space, plus the layer's draw height.
#[derive(Clone, Copy, Debug, PartialEq, Eq, Structural)]
pub struct MapTransform {
    pub x: i64,
    pub y: i64,
    pub z: u32,
}

/// One mutation of the grid, as observers see it. `Added` carries the handle
/// that was overwritten, if any, so a first placement (`old` empty) can be
/// told from an overwrite.
#[derive(Clone, Copy, Debug, PartialEq, Eq, Structural)]
pub enum TileModification {
    Added { old: Option<Entity>, new: Entity },
    Removed { old: Entity },
}

/// A change notification appended to the store's event feed by every
/// successful mutation.
#[derive(Clone, Copy, Debug, PartialEq, Eq, Structural)]
pub struct TileUpdateEvent {
    pub modification: TileModification,
}

/// A dense, fixed-size grid of optional tile handles, addressed row-major:
/// the cell for `(x, y)` sits at index `y * size.x + x`.
pub struct TileStorage {
    pub size: TilemapSize,
    pub tiles: Vec<Option<Entity>>,
}

impl TileStorage {
    pub open spec fn wf(self) -> bool {
        self.tiles@.len() == self.size.x as int * self.size.y as int
    }

    pub open spec fn in_bounds(self, pos: TilePos) -> bool {
        pos.x < self.size.x && pos.y < self.size.y
    }

    pub open spec fn idx_of(self, pos: TilePos) -> int {
        pos.y as int * self.size.x as int + pos.x as int
    }

    /// The handle stored at `pos`: empty when the cell is empty or `pos` is
    /// out of bounds.
    pub open spec fn spec_get(self, pos: TilePos) -> Option<Entity> {
        if self.in_bounds(pos) {
            self.tiles@[self.idx_of(pos)]
        } else {
            None
        }
    }

    /// A cell index stays inside the backing vector, and distinct in-bounds
    /// coordinates get distinct indices.
    pub proof fn lemma_idx(self, pos: TilePos)
        requires
            self.wf(),
            self.in_bounds(pos),
        ensures
            0 <= self.idx_of(pos) < self.tiles@.len(),
            forall|q: TilePos|
                self.in_bounds(q) && q != pos ==> #[trigger] self.idx_of(q) != self.idx_of(pos),
    {
        let x = pos.x as int;
        let y = pos.y as int;
        let sx = self.size.x as int;
        let sy = self.size.y as int;
        assert(y * sx + x < sx * sy) by (nonlinear_arith)
            requires
                0 <= x < sx,
                0 <= y < sy,
        ;
        assert forall|q: TilePos| self.in_bounds(q) && q != pos implies #[trigger] self.idx_of(q)
            != self.idx_of(pos) by {
            let qx = q.x as int;
            let qy = q.y as int;
            assert(qy * sx + qx != y * sx + x) by (nonlinear_arith)
                requires
                    0 <= qx < sx,
                    0 <= x < sx,
                    qx != x || qy != y,
            ;
        }
    }

    /// An empty grid of the given dimensions.
    pub fn empty(size: TilemapSize) -> (r: Self)
        requires
            size.x as int * size.y as int <= usize::MAX,
        ensures
            r.wf(),
            r.size == size,
            forall|p: TilePos| #[trigger] r.spec_get(p) is None,
            forall|k: int| 0 <= k < r.tiles@.len() ==> (#[trigger] r.tiles@[k]) is None,
    {
        let total: usize = (size.x as usize) * (size.y as usize);
        let mut tiles: Vec<Option<Entity>> = Vec::new();
        let mut i: usize = 0;
        while i < total
            invariant
                i <= total,
                tiles@.len() == i,
                forall|k: int| 0 <= k < i ==> tiles@[k] is None,
            decreases total - i,
        {
            tiles.push(None);
            i = i + 1;
        }
        let r = TileStorage { size, tiles };
        proof {
            assert forall|p: TilePos| #[trigger] r.spec_get(p) is None by {
                if r.in_bounds(p) {
                    r.lemma_idx(p);
                }
            }
        }
        r
    }

    /// The handle at `pos`, or none when the cell is empty or out of bounds.
    pub fn get(&self, pos: &TilePos) -> (r: Option<Entity>)
        requires
            self.wf(),
        ensures
            r == self.spec_get(*pos),
    {
        if pos.x < self.size.x && pos.y < self.size.y {
            proof {
                self.lemma_idx(*pos);
            }
            let n: usize = self.tiles.len();
            let idx: usize = (pos.y as usize) * (self.size.x as usize) + (pos.x as usize);
            self.tiles[idx]
        } else {
            None
        }
    }

    /// Stores `entity` at the in-bounds coordinate `pos`, overwriting the cell.
    pub fn set(&mut self, pos: &TilePos, entity: Entity)
        requires
            old(self).wf(),
            old(self).in_bounds(*pos),
        ensures
            final(self).wf(),
            final(self).size == old(self).size,
            final(self).tiles@ == old(self).tiles@.update(old(self).idx_of(*pos), Some(entity)),
            final(self).spec_get(*pos) == Some(entity),
            forall|q: TilePos|
                q != *pos ==> #[trigger] final(self).spec_get(q) == old(self).spec_get(q),
    {
        proof {
            self.lemma_idx(*pos);
        }
        let n: usize = self.tiles.len();
        let idx: usize = (pos.y as usize) * (self.size.x as usize) + (pos.x as usize);
        self.tiles[idx] = Some(entity);
        proof {
            assert forall|q: TilePos| q != *pos implies #[trigger] self.spec_get(q) == old(
                self,
            ).spec_get(q) by {
                if old(self).in_bounds(q) {
                    old(self).lemma_idx(*pos);
                    old(self).lemma_idx(q);
                    assert(old(self).idx_of(q) != old(self).idx_of(*pos));
                    assert(self.idx_of(q) == old(self).idx_of(q));
                }
            }
        }
    }

    /// Empties the in-bounds coordinate `pos`.
    pub fn remove(&mut self, pos: &TilePos)
        requires
            old(self).wf(),
            old(self).in_bounds(*pos),
        ensures
            final(self).wf(),
            final(self).size == old(self).size,
            final(self).tiles@ == old(self).tiles@.update(old(self).idx_of(*pos), None::<Entity>),
            final(self).spec_get(*pos) is None,
            forall|q: TilePos|
                q != *pos ==> #[trigger] final(self).spec_get(q) == old(self).spec_get(q),
    {
        proof {
            self.lemma_idx(*pos);
        }
        let n: usize = self.tiles.len();
        let idx: usize = (pos.y as usize) * (self.size.x as usize) + (pos.x as usize);
        self.tiles[idx] = None;
        proof {
            assert forall|q: TilePos| q != *pos implies #[trigger] self.spec_get(q) == old(
                self,
            ).spec_get(q) by {
                if old(self).in_bounds(q) {
                    old(self).lemma_idx(*pos);
                    old(self).lemma_idx(q);
                    assert(old(self).idx_of(q) != old(self).idx_of(*pos));
                    assert(self.idx_of(q) == old(self).idx_of(q));
                }
            }
        }
    }
}

/// Some position of `maps` holds `layer`'s map.
pub open spec fn seq_has_map(maps: Seq<LayerMap>, layer: Layer) -> bool {
    exists|i: int| 0 <= i < maps.len() && (#[trigger] maps[i]).layer == layer
}

/// A position of `maps` holding `layer`'s map; with unique layers it is the
/// only one.
pub open spec fn seq_map_idx(maps: Seq<LayerMap>, layer: Layer) -> int {
    choose|i: int| 0 <= i < maps.len() && (#[trigger] maps[i]).layer == layer
}

/// One layer's map: its identity, its own entity handle, its placement
/// transform, the size of one cell, and the grid of placed tiles.
pub struct LayerMap {
    pub layer: Layer,
    pub map_entity: Entity,
    pub transform: MapTransform,
    pub grid_size: TilemapGridSize,
    pub storage: TileStorage,
}

impl LayerMap {
    /// Well-formedness against the store's arena: the grid is dense, the
    /// map's own slot is empty (it carries no tile record), and every stored
    /// handle points at a live slot that holds a record.
    pub open spec fn wf(self, slots: Seq<Option<TileProperties>>) -> bool {
        &&& self.storage.wf()
        &&& self.grid_size.x > 0
        &&& self.grid_size.y > 0
        &&& self.map_entity.index < slots.len()
        &&& slots[self.map_entity.index as int] is None
        &&& forall|k: int|
            0 <= k < self.storage.tiles@.len() ==> ((#[trigger] self.storage.tiles@[k]) matches Some(e)
                ==> e.index < slots.len() && slots[e.index as int] is Some)
    }
}

/// The layered grid store. It owns an arena of tile records (`slots`, indexed
/// by `Entity` handles and never recycled), at most one map per layer, and
/// the append-only feed of mutation events.
pub struct TilemapAccess {
    pub slots: Vec<Option<TileProperties>>,
    pub maps: Vec<LayerMap>,
    pub events: Vec<TileUpdateEvent>,
}

impl TilemapAccess {
    /// No two cells, on any layers, hold the same handle.
    pub open spec fn cells_injective(self) -> bool {
        forall|i1: int, k1: int, i2: int, k2: int|
            0 <= i1 < self.maps@.len() && 0 <= k1 < self.maps@[i1].storage.tiles@.len() && 0 <= i2
                < self.maps@.len() && 0 <= k2 < self.maps@[i2].storage.tiles@.len() && (i1 != i2
                || k1 != k2) && (#[trigger] self.maps@[i1].storage.tiles@[k1]) is Some && (
            #[trigger] self.maps@[i2].storage.tiles@[k2]) is Some
                ==> self.maps@[i1].storage.tiles@[k1] != self.maps@[i2].storage.tiles@[k2]
    }

    /// The store's invariant: every map is well formed against the arena,
    /// layers are unique, and no handle sits in two cells.
    pub open spec fn wf(self) -> bool {
        &&& forall|i: int| 0 <= i < self.maps@.len() ==> (#[trigger] self.maps@[i]).wf(self.slots@)
        &&& forall|i: int, j: int|
            0 <= i < j < self.maps@.len() ==> self.maps@[i].layer != self.maps@[j].layer
        &&& self.cells_injective()
    }

    pub open spec fn has_map(self, layer: Layer) -> bool {
        seq_has_map(self.maps@, layer)
    }

    pub open spec fn map_idx(self, layer: Layer) -> int {
        seq_map_idx(self.maps@, layer)
    }

    pub open spec fn map_of(self, layer: Layer) -> LayerMap {
        self.maps@[self.map_idx(layer)]
    }

    /// The handle occupying `pos` on `layer`: empty when the layer has no
    /// map, `pos` is out of bounds, or the cell is empty.
    pub open spec fn cell_entity(self, layer: Layer, pos: TilePos) -> Option<Entity> {
        if self.has_map(layer) {
            self.map_of(layer).storage.spec_get(pos)
        } else {
            None
        }
    }

    /// The tile record attached to handle `e`, if `e` is live.
    pub open spec fn props_of(self, e: Entity) -> Option<TileProperties> {
        if e.index < self.slots@.len() {
            self.slots@[e.index as int]
        } else {
            None
        }
    }

    /// The tile record at `pos` on `layer`: the record of the occupying
    /// handle, or empty under the same conditions as `cell_entity`.
    pub open spec fn record_at(self, layer: Layer, pos: TilePos) -> Option<TileProperties> {
        match self.cell_entity(layer, pos) {
            Some(e) => self.props_of(e),
            None => None,
        }
    }

    /// `pos` addresses a cell of an existing map on `layer`.
    pub open spec fn in_bounds(self, layer: Layer, pos: TilePos) -> bool {
        self.has_map(layer) && self.map_of(layer).storage.in_bounds(pos)
    }

    /// Everything but cell contents, arena and events agrees between the two
    /// stores: same maps, layers, handles, transforms and sizes.
    pub open spec fn same_maps_shape(self, other: TilemapAccess) -> bool {
        &&& other.maps@.len() == self.maps@.len()
        &&& forall|i: int|
            0 <= i < self.maps@.len() ==> {
                &&& (#[trigger] other.maps@[i]).layer == self.maps@[i].layer
                &&& other.maps@[i].map_entity == self.maps@[i].map_entity
                &&& other.maps@[i].transform == self.maps@[i].transform
                &&& other.maps@[i].grid_size == self.maps@[i].grid_size
                &&& other.maps@[i].storage.size == self.maps@[i].storage.size
            }
    }

    /// With unique layers, the chosen map index is the one and only index of
    /// the layer's map.
    pub proof fn lemma_map_idx(self, layer: Layer)
        requires
            self.wf(),
            self.has_map(layer),
        ensures
            0 <= self.map_idx(layer) < self.maps@.len(),
            self.maps@[self.map_idx(layer)].layer == layer,
            forall|i: int|
                0 <= i < self.maps@.len() && (#[trigger] self.maps@[i]).layer == layer ==> i
                    == self.map_idx(layer),
    {
        let w = choose|i: int|
            0 <= i < self.maps@.len() && (#[trigger] self.maps@[i]).layer == layer;
        assert(0 <= w < self.maps@.len() && self.maps@[w].layer == layer);
        assert forall|i: int|
            0 <= i < self.maps@.len() && (#[trigger] self.maps@[i]).layer == layer implies i
            == self.map_idx(layer) by {
            if i < self.map_idx(layer) || self.map_idx(layer) < i {
                assert(self.maps@[i].layer != self.maps@[self.map_idx(layer)].layer);
            }
        }
    }

    /// Two well-formed stores of the same shape agree on which maps exist and
    /// where they sit.
    pub proof fn lemma_same_shape_idx(self, other: TilemapAccess, layer: Layer)
        requires
            self.wf(),
            other.wf(),
            self.same_maps_shape(other),
        ensures
            self.has_map(layer) == other.has_map(layer),
            self.has_map(layer) ==> self.map_idx(layer) == other.map_idx(layer),
    {
        if self.has_map(layer) {
            self.lemma_map_idx(layer);
            assert(other.maps@[self.map_idx(layer)].layer == layer);
            assert(other.has_map(layer));
            other.lemma_map_idx(layer);
        } else if other.has_map(layer) {
            other.lemma_map_idx(layer);
            assert(self.maps@[other.map_idx(layer)].layer == layer);
            assert(self.has_map(layer));
        }
    }

    /// An occupied cell's handle is live and carries a record.
    pub proof fn lemma_cell_live(self, layer: Layer, pos: TilePos)
        requires
            self.wf(),
            self.cell_entity(layer, pos) matches Some(e),
        ensures
            self.cell_entity(layer, pos) matches Some(e) ==> e.index < self.slots@.len()
                && self.slots@[e.index as int] is Some,
            self.record_at(layer, pos) is Some,
    {
        self.lemma_map_idx(layer);
        let m = self.map_of(layer);
        m.storage.lemma_idx(pos);
        assert(m.storage.tiles@[m.storage.idx_of(pos)] == self.cell_entity(layer, pos));
    }

    /// A fresh, empty store: no maps, no live handles, no pending events.
    pub fn new() -> (r: Self)
        ensures
            r.wf(),
            r.slots@.len() == 0,
            r.maps@.len() == 0,
            r.events@.len() == 0,
    {
        TilemapAccess { slots: Vec::new(), maps: Vec::new(), events: Vec::new() }
    }

    pub(crate) fn find_map_index(&self, layer: Layer) -> (r: Option<usize>)
        requires
            self.wf(),
        ensures
            match r {
                Some(i) => self.has_map(layer) && i == self.map_idx(layer) && i < self.maps@.len()
                    && self.maps@[i as int].layer == layer,
                None => !self.has_map(layer),
            },
    {
        let n = self.maps.len();
        let mut j: usize = 0;
        while j < n
            invariant
                n == self.maps@.len(),
                j <= n,
                self.wf(),
                forall|k: int| 0 <= k < j ==> (#[trigger] self.maps@[k]).layer != layer,
            decreases n - j,
        {
            if self.maps[j].layer == layer {
                proof {
                    assert(self.maps@[j as int].layer == layer);
                    self.lemma_map_idx(layer);
                }
                return Some(j);
            }
            j = j + 1;
        }
        None
    }

    /// The handle at `pos` on `layer`, or none if the cell is empty, `pos` is
    /// out of bounds, or the layer has no map.
    pub fn get(&self, pos: &TilePos, layer: Layer) -> (r: Option<Entity>)
        requires
            self.wf(),
        ensures
            r == self.cell_entity(layer, *pos),
    {
        match self.find_map_index(layer) {
            Some(i) => self.maps[i].storage.get(pos),
            None => None,
        }
    }

    /// The tile record at `pos` on `layer`. Because the store keeps every
    /// stored handle attached to a record, this answers exactly when `get`
    /// does.
    pub fn get_properties(&self, pos: &TilePos, layer: Layer) -> (r: Option<TileProperties>)
        requires
            self.wf(),
        ensures
            r == self.record_at(layer, *pos),
            r is Some <==> self.cell_entity(layer, *pos) is Some,
    {
        match self.get(pos, layer) {
            Some(e) => {
                proof {
                    self.lemma_cell_live(layer, *pos);
                }
                self.slots[e.index]
            },
            None => None,
        }
    }

    /// The layer's placement transform and grid dimensions, if it has a map.
    pub fn transform_size(&self, layer: Layer) -> (r: Option<(MapTransform, TilemapSize)>)
        requires
            self.wf(),
        ensures
            match r {
                Some(ts) => self.has_map(layer) && ts.0 == self.map_of(layer).transform && ts.1
                    == self.map_of(layer).storage.size,
                None => !self.has_map(layer),
            },
    {
        match self.find_map_index(layer) {
            Some(i) => {
                let m = &self.maps[i];
                Some((m.transform, m.storage.size))
            },
            None => None,
        }
    }

    /// A read-only view of the layer's grid, if it has a map.
    pub fn storage(&self, layer: Layer) -> (r: Option<&TileStorage>)
        requires
            self.wf(),
        ensures
            match r {
                Some(s) => self.has_map(layer) && *s == self.map_of(layer).storage,
                None => !self.has_map(layer),
            },
    {
        match self.find_map_index(layer) {
            Some(i) => Some(&self.maps[i].storage),
            None => None,
        }
    }

    /// The handle owning the layer's map itself, if it has one.
    pub fn tilemap_entity(&self, layer: Layer) -> (r: Option<Entity>)
        requires
            self.wf(),
        ensures
            match r {
                Some(e) => self.has_map(layer) && e == self.map_of(layer).map_entity,
                None => !self.has_map(layer),
            },
    {
        match self.find_map_index(layer) {
            Some(i) => Some(self.maps[i].map_entity),
            None => None,
        }
    }

    /// Hands out every pending mutation event, in emission order, and leaves
    /// the feed empty.
    pub fn take_events(&mut self) -> (r: Vec<TileUpdateEvent>)
        requires
            old(self).wf(),
        ensures
            final(self).wf(),
            r@ == old(self).events@,
            final(self).events@.len() == 0,
            final(self).slots == old(self).slots,
            final(self).maps == old(self).maps,
    {
        let mut taken: Vec<TileUpdateEvent> = Vec::new();
        core::mem::swap(&mut self.events, &mut taken);
        taken
    }
}

impl TilemapAccess {
    /// Spawns a fresh tile at the in-bounds coordinate `pos` of `layer`'s
    /// map, overwriting the cell without despawning or notifying: callers
    /// despawn the old handle and emit the event themselves. Fails, changing
    /// nothing, when the layer has no map or `pos` is out of bounds.
    fn set_unchecked(&mut self, pos: &TilePos, tile_properties: TileProperties, layer: Layer) -> (r:
        Option<Entity>)
        requires
            old(self).wf(),
        ensures
            final(self).wf(),
            old(self).same_maps_shape(*final(self)),
            final(self).events@ == old(self).events@,
            r is Some <==> old(self).in_bounds(layer, *pos),
            r matches Some(e) ==> {
                &&& e.index == old(self).slots@.len()
                &&& final(self).slots@ == old(self).slots@.push(Some(tile_properties))
                &&& final(self).cell_entity(layer, *pos) == Some(e)
                &&& final(self).record_at(layer, *pos) == Some(tile_properties)
                &&& forall|l: Layer, q: TilePos|
                    !(l == layer && q == *pos) ==> #[trigger] final(self).cell_entity(l, q) == old(
                        self,
                    ).cell_entity(l, q)
                &&& forall|l: Layer, q: TilePos|
                    !(l == layer && q == *pos) ==> #[trigger] final(self).record_at(l, q) == old(
                        self,
                    ).record_at(l, q)
            },
            r is None ==> *final(self) == *old(self),
    {
        let i = match self.find_map_index(layer) {
            Some(i) => i,
            None => {
                return None;
            },
        };
        let (sx, sy) = {
            let m = &self.maps[i];
            (m.storage.size.x, m.storage.size.y)
        };
        if !(pos.x < sx && pos.y < sy) {
            return None;
        }
        let ghost pre = *self;
        let e = Entity { index: self.slots.len() };
        self.slots.push(Some(tile_properties));
        let m = &mut self.maps[i];
        proof {
            m.storage.lemma_idx(*pos);
        }
        m.storage.set(pos, e);
        proof {
            self.lemma_set_unchecked(pre, i as int, *pos, e, tile_properties, layer);
        }
        Some(e)
    }

    /// The state change of `set_unchecked`, from the pre-state `pre` to
    /// `self`: the arena grew by the new record, one cell of map `i` now
    /// holds the fresh handle, and every other observation is unchanged.
    proof fn lemma_set_unchecked(
        self,
        pre: TilemapAccess,
        i: int,
        pos: TilePos,
        e: Entity,
        tile_properties: TileProperties,
        layer: Layer,
    )
        requires
            pre.wf(),
            pre.has_map(layer),
            pre.map_idx(layer) == i,
            pre.map_of(layer).storage.in_bounds(pos),
            e.index == pre.slots@.len(),
            self.slots@ == pre.slots@.push(Some(tile_properties)),
            self.maps@ == pre.maps@.update(
                i,
                LayerMap {
                    storage: TileStorage {
                        size: pre.maps@[i].storage.size,
                        tiles: self.maps@[i].storage.tiles,
                    },
                    ..pre.maps@[i]
                },
            ),
            self.maps@[i].storage.tiles@ == pre.maps@[i].storage.tiles@.update(
                pre.maps@[i].storage.idx_of(pos),
                Some(e),
            ),
            self.events@ == pre.events@,
        ensures
            self.wf(),
            pre.same_maps_shape(self),
            self.cell_entity(layer, pos) == Some(e),
            self.record_at(layer, pos) == Some(tile_properties),
            forall|l: Layer, q: TilePos|
                !(l == layer && q == pos) ==> #[trigger] self.cell_entity(l, q) == pre.cell_entity(
                    l,
                    q,
                ),
            forall|l: Layer, q: TilePos|
                !(l == layer && q == pos) ==> #[trigger] self.record_at(l, q) == pre.record_at(
                    l,
                    q,
                ),
    {
        pre.lemma_map_idx(layer);
        let ms = pre.maps@[i].storage;
        ms.lemma_idx(pos);
        let ci = ms.idx_of(pos);
        // Well-formedness: old handles keep their slots, the new handle is live.
        assert forall|j: int| 0 <= j < self.maps@.len() implies (#[trigger] self.maps@[j]).wf(
            self.slots@,
        ) by {
            assert(pre.maps@[j].wf(pre.slots@));
            assert forall|k: int|
                0 <= k < self.maps@[j].storage.tiles@.len() implies ((
            #[trigger] self.maps@[j].storage.tiles@[k]) matches Some(h) ==> h.index
                < self.slots@.len() && self.slots@[h.index as int] is Some) by {
                if self.maps@[j].storage.tiles@[k] is Some {
                    if j == i && k == ci {
                    } else {
                        assert(self.maps@[j].storage.tiles@[k] == pre.maps@[j].storage.tiles@[k]);
                    }
                }
            }
        }
        assert(self.cells_injective()) by {
            assert forall|i1: int, k1: int, i2: int, k2: int|
                0 <= i1 < self.maps@.len() && 0 <= k1 < self.maps@[i1].storage.tiles@.len() && 0
                    <= i2 < self.maps@.len() && 0 <= k2 < self.maps@[i2].storage.tiles@.len() && (i1
                    != i2 || k1 != k2) && (#[trigger] self.maps@[i1].storage.tiles@[k1]) is Some
                    && (#[trigger] self.maps@[i2].storage.tiles@[k2]) is Some implies self.maps@[i1].storage.tiles@[k1]
                != self.maps@[i2].storage.tiles@[k2] by {
                let c1 = self.maps@[i1].storage.tiles@[k1];
                let c2 = self.maps@[i2].storage.tiles@[k2];
                if i1 == i && k1 == ci {
                    assert(c2 == pre.maps@[i2].storage.tiles@[k2]);
                    assert(pre.maps@[i2].wf(pre.slots@));
                    assert(c2 matches Some(h) ==> h.index < pre.slots@.len());
                } else if i2 == i && k2 == ci {
                    assert(c1 == pre.maps@[i1].storage.tiles@[k1]);
                    assert(pre.maps@[i1].wf(pre.slots@));
                    assert(c1 matches Some(h) ==> h.index < pre.slots@.len());
                } else {
                    assert(c1 == pre.maps@[i1].storage.tiles@[k1]);
                    assert(c2 == pre.maps@[i2].storage.tiles@[k2]);
                }
            }
        }
        self.lemma_map_idx(layer);
        pre.lemma_same_shape_idx(self, layer);
        assert(self.cell_entity(layer, pos) == Some(e));
        assert(self.record_at(layer, pos) == Some(tile_properties));
        // Frame: any other coordinate, on any layer, reads as before.
        assert forall|l: Layer, q: TilePos| !(l == layer && q == pos) implies #[trigger] self.cell_entity(
            l,
            q,
        ) == pre.cell_entity(l, q) by {
            pre.lemma_same_shape_idx(self, l);
            if pre.has_map(l) {
                pre.lemma_map_idx(l);
                self.lemma_map_idx(l);
                let j = pre.map_idx(l);
                if j == i {
                    assert(l == layer);
                    if pre.maps@[i].storage.in_bounds(q) {
                        ms.lemma_idx(q);
                        assert(ms.idx_of(q) != ci);
                    }
                }
            }
        }
        assert forall|l: Layer, q: TilePos| !(l == layer && q == pos) implies #[trigger] self.record_at(
            l,
            q,
        ) == pre.record_at(l, q) by {
            assert(self.cell_entity(l, q) == pre.cell_entity(l, q));
            if pre.cell_entity(l, q) is Some {
                pre.lemma_cell_live(l, q);
            }
        }
    }
}

impl TilemapAccess {
    /// Detaches and destroys the handle at `pos` on `layer` without
    /// notifying; `remove` adds the event. Returns the handle that was there.
    fn despawn(&mut self, pos: &TilePos, layer: Layer) -> (r: Option<Entity>)
        requires
            old(self).wf(),
        ensures
            final(self).wf(),
            old(self).same_maps_shape(*final(self)),
            final(self).events@ == old(self).events@,
            r == old(self).cell_entity(layer, *pos),
            r is None ==> *final(self) == *old(self),
            r matches Some(h) ==> {
                &&& final(self).slots@ == old(self).slots@.update(h.index as int, None)
                &&& final(self).cell_entity(layer, *pos) is None
                &&& final(self).props_of(h) is None
                &&& forall|l: Layer, q: TilePos|
                    !(l == layer && q == *pos) ==> #[trigger] final(self).cell_entity(l, q) == old(
                        self,
                    ).cell_entity(l, q)
                &&& forall|l: Layer, q: TilePos|
                    !(l == layer && q == *pos) ==> #[trigger] final(self).record_at(l, q) == old(
                        self,
                    ).record_at(l, q)
            },
    {
        let i = match self.find_map_index(layer) {
            Some(i) => i,
            None => {
                return None;
            },
        };
        let ce = self.maps[i].storage.get(pos);
        let h = match ce {
            Some(h) => h,
            None => {
                return None;
            },
        };
        let ghost pre = *self;
        proof {
            pre.lemma_cell_live(layer, *pos);
        }
        self.slots[h.index] = None;
        let m = &mut self.maps[i];
        proof {
            m.storage.lemma_idx(*pos);
        }
        m.storage.remove(pos);
        proof {
            self.lemma_despawn(pre, i as int, *pos, h, layer);
        }
        Some(h)
    }

    /// The state change of `despawn`: the handle's slot and cell are emptied
    /// and every other observation is unchanged.
    proof fn lemma_despawn(self, pre: TilemapAccess, i: int, pos: TilePos, h: Entity, layer: Layer)
        requires
            pre.wf(),
            pre.has_map(layer),
            pre.map_idx(layer) == i,
            pre.map_of(layer).storage.in_bounds(pos),
            pre.cell_entity(layer, pos) == Some(h),
            self.slots@ == pre.slots@.update(h.index as int, None),
            h.index < pre.slots@.len(),
            self.maps@ == pre.maps@.update(
                i,
                LayerMap {
                    storage: TileStorage {
                        size: pre.maps@[i].storage.size,
                        tiles: self.maps@[i].storage.tiles,
                    },
                    ..pre.maps@[i]
                },
            ),
            self.maps@[i].storage.tiles@ == pre.maps@[i].storage.tiles@.update(
                pre.maps@[i].storage.idx_of(pos),
                None::<Entity>,
            ),
            self.events@ == pre.events@,
        ensures
            self.wf(),
            pre.same_maps_shape(self),
            self.cell_entity(layer, pos) is None,
            self.props_of(h) is None,
            forall|l: Layer, q: TilePos|
                !(l == layer && q == pos) ==> #[trigger] self.cell_entity(l, q) == pre.cell_entity(
                    l,
                    q,
                ),
            forall|l: Layer, q: TilePos|
                !(l == layer && q == pos) ==> #[trigger] self.record_at(l, q) == pre.record_at(
                    l,
                    q,
                ),
    {
        pre.lemma_map_idx(layer);
        let ms = pre.maps@[i].storage;
        ms.lemma_idx(pos);
        let ci = ms.idx_of(pos);
        assert(pre.maps@[i].storage.tiles@[ci] == Some(h));
        // Well-formedness: every other stored handle is a different arena
        // index, so its slot is untouched.
        assert forall|j: int| 0 <= j < self.maps@.len() implies (#[trigger] self.maps@[j]).wf(
            self.slots@,
        ) by {
            assert(pre.maps@[j].wf(pre.slots@));
            assert forall|k: int|
                0 <= k < self.maps@[j].storage.tiles@.len() implies ((
            #[trigger] self.maps@[j].storage.tiles@[k]) matches Some(h2) ==> h2.index
                < self.slots@.len() && self.slots@[h2.index as int] is Some) by {
                if self.maps@[j].storage.tiles@[k] is Some {
                    let h2 = self.maps@[j].storage.tiles@[k].unwrap();
                    assert(!(j == i && k == ci));
                    assert(self.maps@[j].storage.tiles@[k] == pre.maps@[j].storage.tiles@[k]);
                    assert(pre.maps@[j].storage.tiles@[k] != pre.maps@[i].storage.tiles@[ci]);
                    assert(h2 != h);
                    assert(h2.index != h.index);
                }
            }
        }
        assert(self.cells_injective()) by {
            assert forall|i1: int, k1: int, i2: int, k2: int|
                0 <= i1 < self.maps@.len() && 0 <= k1 < self.maps@[i1].storage.tiles@.len() && 0
                    <= i2 < self.maps@.len() && 0 <= k2 < self.maps@[i2].storage.tiles@.len() && (i1
                    != i2 || k1 != k2) && (#[trigger] self.maps@[i1].storage.tiles@[k1]) is Some
                    && (#[trigger] self.maps@[i2].storage.tiles@[k2]) is Some implies self.maps@[i1].storage.tiles@[k1]
                != self.maps@[i2].storage.tiles@[k2] by {
                assert(!(i1 == i && k1 == ci) && !(i2 == i && k2 == ci));
                assert(self.maps@[i1].storage.tiles@[k1] == pre.maps@[i1].storage.tiles@[k1]);
                assert(self.maps@[i2].storage.tiles@[k2] == pre.maps@[i2].storage.tiles@[k2]);
            }
        }
        self.lemma_map_idx(layer);
        pre.lemma_same_shape_idx(self, layer);
        // Frames.
        assert forall|l: Layer, q: TilePos| !(l == layer && q == pos) implies #[trigger] self.cell_entity(
            l,
            q,
        ) == pre.cell_entity(l, q) by {
            pre.lemma_same_shape_idx(self, l);
            if pre.has_map(l) {
                pre.lemma_map_idx(l);
                self.lemma_map_idx(l);
                let j = pre.map_idx(l);
                if j == i {
                    assert(l == layer);
                    if pre.maps@[i].storage.in_bounds(q) {
                        ms.lemma_idx(q);
                        assert(ms.idx_of(q) != ci);
                    }
                }
            }
        }
        assert forall|l: Layer, q: TilePos| !(l == layer && q == pos) implies #[trigger] self.record_at(
            l,
            q,
        ) == pre.record_at(l, q) by {
            assert(self.cell_entity(l, q) == pre.cell_entity(l, q));
            if pre.cell_entity(l, q) is Some {
                let e = pre.cell_entity(l, q).unwrap();
                pre.lemma_cell_live(l, q);
                pre.lemma_map_idx(l);
                let j = pre.map_idx(l);
                let qs = pre.maps@[j].storage;
                qs.lemma_idx(q);
                assert(pre.maps@[j].storage.tiles@[qs.idx_of(q)] == Some(e));
                if !(j == i && qs.idx_of(q) == ci) {
                    assert(pre.maps@[j].storage.tiles@[qs.idx_of(q)] != pre.maps@[i].storage.tiles@[ci]);
                    assert(e != h);
                    assert(e.index != h.index);
                }
            }
        }
    }

    /// Removes the tile at `pos` on `layer`: destroys its handle, detaches it
    /// from the grid, and appends a `Removed` event. Returns the removed
    /// handle, or none — with no event and no other effect — when the cell
    /// is already empty, `pos` is out of bounds, or the layer has no map.
    pub fn remove(&mut self, pos: &TilePos, layer: Layer) -> (r: Option<Entity>)
        requires
            old(self).wf(),
        ensures
            final(self).wf(),
            old(self).same_maps_shape(*final(self)),
            r == old(self).cell_entity(layer, *pos),
            r is None ==> *final(self) == *old(self),
            r matches Some(h) ==> {
                &&& final(self).cell_entity(layer, *pos) is None
                &&& final(self).record_at(layer, *pos) is None
                &&& final(self).props_of(h) is None
                &&& final(self).slots@.len() == old(self).slots@.len()
                &&& final(self).events@ == old(self).events@.push(
                    TileUpdateEvent { modification: TileModification::Removed { old: h } },
                )
                &&& forall|l: Layer, q: TilePos|
                    !(l == layer && q == *pos) ==> #[trigger] final(self).cell_entity(l, q) == old(
                        self,
                    ).cell_entity(l, q)
                &&& forall|l: Layer, q: TilePos|
                    !(l == layer && q == *pos) ==> #[trigger] final(self).record_at(l, q) == old(
                        self,
                    ).record_at(l, q)
            },
    {
        let ghost pre = *self;
        let old_entity = match self.despawn(pos, layer) {
            Some(h) => h,
            None => {
                return None;
            },
        };
        let ghost mid = *self;
        self.events.push(
            TileUpdateEvent { modification: TileModification::Removed { old: old_entity } },
        );
        proof {
            assert(self.maps@ == mid.maps@ && self.slots@ == mid.slots@);
            assert forall|l: Layer, q: TilePos|
                !(l == layer && q == *pos) implies #[trigger] self.cell_entity(l, q)
                == pre.cell_entity(l, q) by {
                assert(mid.cell_entity(l, q) == pre.cell_entity(l, q));
            }
            assert forall|l: Layer, q: TilePos|
                !(l == layer && q == *pos) implies #[trigger] self.record_at(l, q)
                == pre.record_at(l, q) by {
                assert(mid.record_at(l, q) == pre.record_at(l, q));
            }
            assert(self.cell_entity(layer, *pos) == mid.cell_entity(layer, *pos));
            assert(self.record_at(layer, *pos) == mid.record_at(layer, *pos));
            assert(self.props_of(old_entity) == mid.props_of(old_entity));
            pre.lemma_cell_live(layer, *pos);
            assert(self.slots@.len() == pre.slots@.len());
        }
        Some(old_entity)
    }

    /// Places a new tile at `pos` on `layer` only if the cell is currently
    /// empty, appending an `Added` event with no prior handle. Fails — with
    /// no event and no other effect — when the cell is occupied, `pos` is out
    /// of bounds, or the layer has no map.
    pub fn try_place(&mut self, pos: &TilePos, tile_properties: TileProperties, layer: Layer) -> (r:
        Option<Entity>)
        requires
            old(self).wf(),
        ensures
            final(self).wf(),
            old(self).same_maps_shape(*final(self)),
            r is Some <==> (old(self).in_bounds(layer, *pos) && old(self).cell_entity(layer, *pos)
                is None),
            r is None ==> *final(self) == *old(self),
            r matches Some(e) ==> {
                &&& e.index == old(self).slots@.len()
                &&& final(self).cell_entity(layer, *pos) == Some(e)
                &&& final(self).record_at(layer, *pos) == Some(tile_properties)
                &&& final(self).events@ == old(self).events@.push(
                    TileUpdateEvent {
                        modification: TileModification::Added { old: None, new: e },
                    },
                )
                &&& forall|l: Layer, q: TilePos|
                    !(l == layer && q == *pos) ==> #[trigger] final(self).cell_entity(l, q) == old(
                        self,
                    ).cell_entity(l, q)
                &&& forall|l: Layer, q: TilePos|
                    !(l == layer && q == *pos) ==> #[trigger] final(self).record_at(l, q) == old(
                        self,
                    ).record_at(l, q)
            },
    {
        let ghost pre = *self;
        match self.get(pos, layer) {
            Some(_) => None,
            None => {
                match self.set_unchecked(pos, tile_properties, layer) {
                    Some(new) => {
                        let ghost mid = *self;
                        self.events.push(
                            TileUpdateEvent {
                                modification: TileModification::Added { old: None, new },
                            },
                        );
                        proof {
                            assert(self.maps@ == mid.maps@ && self.slots@ == mid.slots@);
                            assert forall|l: Layer, q: TilePos|
                                !(l == layer && q == *pos) implies #[trigger] self.cell_entity(
                                l,
                                q,
                            ) == pre.cell_entity(l, q) by {
                                assert(mid.cell_entity(l, q) == pre.cell_entity(l, q));
                            }
                            assert forall|l: Layer, q: TilePos|
                                !(l == layer && q == *pos) implies #[trigger] self.record_at(l, q)
                                == pre.record_at(l, q) by {
                                assert(mid.record_at(l, q) == pre.record_at(l, q));
                            }
                            assert(self.cell_entity(layer, *pos) == mid.cell_entity(layer, *pos));
                            assert(self.record_at(layer, *pos) == mid.record_at(layer, *pos));
                        }
                        Some(new)
                    },
                    None => None,
                }
            },
        }
    }

    /// Replaces whatever is at `pos` on `layer` with a new tile: removes an
    /// occupying tile first (appending its `Removed` event), places the new
    /// one, and appends one `Added` event carrying the prior handle, if any,
    /// and the fresh one. Fails — with no event and no other effect — only
    /// when `pos` is out of bounds or the layer has no map.
    pub fn replace(&mut self, pos: &TilePos, id: TileProperties, layer: Layer) -> (r: Option<
        Entity,
    >)
        requires
            old(self).wf(),
        ensures
            final(self).wf(),
            old(self).same_maps_shape(*final(self)),
            r is Some <==> old(self).in_bounds(layer, *pos),
            r is None ==> *final(self) == *old(self),
            r matches Some(e) ==> {
                &&& e.index == old(self).slots@.len()
                &&& final(self).cell_entity(layer, *pos) == Some(e)
                &&& final(self).record_at(layer, *pos) == Some(id)
                &&& forall|l: Layer, q: TilePos|
                    !(l == layer && q == *pos) ==> #[trigger] final(self).cell_entity(l, q) == old(
                        self,
                    ).cell_entity(l, q)
                &&& forall|l: Layer, q: TilePos|
                    !(l == layer && q == *pos) ==> #[trigger] final(self).record_at(l, q) == old(
                        self,
                    ).record_at(l, q)
                &&& match old(self).cell_entity(layer, *pos) {
                    Some(h) => {
                        &&& h != e
                        &&& final(self).props_of(h) is None
                        &&& final(self).events@ == old(self).events@.push(
                            TileUpdateEvent {
                                modification: TileModification::Removed { old: h },
                            },
                        ).push(
                            TileUpdateEvent {
                                modification: TileModification::Added { old: Some(h), new: e },
                            },
                        )
                    },
                    None => final(self).events@ == old(self).events@.push(
                        TileUpdateEvent {
                            modification: TileModification::Added { old: None, new: e },
                        },
                    ),
                }
            },
    {
        let ghost pre = *self;
        let old_entity = self.get(pos, layer);
        if old_entity.is_some() {
            proof {
                pre.lemma_cell_live(layer, *pos);
            }
            self.remove(pos, layer);
        }
        let ghost s1 = *self;
        proof {
            pre.lemma_same_shape_idx(s1, layer);
            if pre.has_map(layer) {
                pre.lemma_map_idx(layer);
                s1.lemma_map_idx(layer);
            }
            assert(s1.in_bounds(layer, *pos) == pre.in_bounds(layer, *pos));
            assert(s1.slots@.len() == pre.slots@.len());
        }
        let new = match self.set_unchecked(pos, id, layer) {
            Some(n) => n,
            None => {
                return None;
            },
        };
        let ghost s2 = *self;
        self.events.push(
            TileUpdateEvent { modification: TileModification::Added { old: old_entity, new } },
        );
        proof {
            assert(self.maps@ == s2.maps@ && self.slots@ == s2.slots@);
            assert forall|l: Layer, q: TilePos|
                !(l == layer && q == *pos) implies #[trigger] self.cell_entity(l, q)
                == pre.cell_entity(l, q) by {
                assert(s2.cell_entity(l, q) == s1.cell_entity(l, q));
                assert(s1.cell_entity(l, q) == pre.cell_entity(l, q));
                assert(self.cell_entity(l, q) == s2.cell_entity(l, q));
            }
            assert forall|l: Layer, q: TilePos|
                !(l == layer && q == *pos) implies #[trigger] self.record_at(l, q)
                == pre.record_at(l, q) by {
                assert(s2.record_at(l, q) == s1.record_at(l, q));
                assert(s1.record_at(l, q) == pre.record_at(l, q));
                assert(self.record_at(l, q) == s2.record_at(l, q));
            }
            assert(self.cell_entity(layer, *pos) == s2.cell_entity(layer, *pos));
            assert(self.record_at(layer, *pos) == s2.record_at(layer, *pos));
            if old_entity is Some {
                let h = old_entity.unwrap();
                assert(s1.props_of(h) is None);
                assert(h.index < pre.slots@.len());
                assert(s2.props_of(h) == s1.props_of(h));
                assert(self.props_of(h) == s2.props_of(h));
            }
        }
        Some(new)
    }
}

/// Slot `t` of the arena belongs to a handle that one of the first `k` cells
/// of map `i` held before a clear began.
spec fn cleared_witness(pre: TilemapAccess, i: int, k: int, t: int) -> bool {
    exists|c: int|
        0 <= c < k && ((#[trigger] pre.maps@[i].storage.tiles@[c]) matches Some(h) && h.index
            == t)
}

impl TilemapAccess {
    /// One step of a clear, from `prev` to `self`: cell `k` of map `i` and
    /// the slot of the handle `e` it held are both emptied; the store stays
    /// well formed and no other slot changes.
    proof fn lemma_clear_cell(self, prev: TilemapAccess, i: int, k: int, e: Entity)
        requires
            prev.wf(),
            0 <= i < prev.maps@.len(),
            0 <= k < prev.maps@[i].storage.tiles@.len(),
            prev.maps@[i].storage.tiles@[k] == Some(e),
            e.index < prev.slots@.len(),
            self.slots@ == prev.slots@.update(e.index as int, None),
            self.maps@ == prev.maps@.update(
                i,
                LayerMap {
                    storage: TileStorage {
                        size: prev.maps@[i].storage.size,
                        tiles: self.maps@[i].storage.tiles,
                    },
                    ..prev.maps@[i]
                },
            ),
            self.maps@[i].storage.tiles@ == prev.maps@[i].storage.tiles@.update(
                k,
                None::<Entity>,
            ),
        ensures
            self.wf(),
            forall|t: int|
                0 <= t < prev.slots@.len() && t != e.index ==> self.slots@[t] == prev.slots@[t],
    {
        assert forall|j: int| 0 <= j < self.maps@.len() implies (#[trigger] self.maps@[j]).wf(
            self.slots@,
        ) by {
            assert(prev.maps@[j].wf(prev.slots@));
            assert forall|c: int|
                0 <= c < self.maps@[j].storage.tiles@.len() implies ((
            #[trigger] self.maps@[j].storage.tiles@[c]) matches Some(h2) ==> h2.index
                < self.slots@.len() && self.slots@[h2.index as int] is Some) by {
                if self.maps@[j].storage.tiles@[c] is Some {
                    let h2 = self.maps@[j].storage.tiles@[c].unwrap();
                    assert(!(j == i && c == k));
                    assert(self.maps@[j].storage.tiles@[c] == prev.maps@[j].storage.tiles@[c]);
                    assert(prev.maps@[j].storage.tiles@[c] != prev.maps@[i].storage.tiles@[k]);
                    assert(h2.index != e.index);
                }
            }
        }
        assert(self.cells_injective()) by {
            assert forall|i1: int, k1: int, i2: int, k2: int|
                0 <= i1 < self.maps@.len() && 0 <= k1 < self.maps@[i1].storage.tiles@.len() && 0
                    <= i2 < self.maps@.len() && 0 <= k2 < self.maps@[i2].storage.tiles@.len() && (i1
                    != i2 || k1 != k2) && (#[trigger] self.maps@[i1].storage.tiles@[k1]) is Some
                    && (#[trigger] self.maps@[i2].storage.tiles@[k2]) is Some implies self.maps@[i1].storage.tiles@[k1]
                != self.maps@[i2].storage.tiles@[k2] by {
                assert(!(i1 == i && k1 == k) && !(i2 == i && k2 == k));
                assert(self.maps@[i1].storage.tiles@[k1] == prev.maps@[i1].storage.tiles@[k1]);
                assert(self.maps@[i2].storage.tiles@[k2] == prev.maps@[i2].storage.tiles@[k2]);
            }
        }
    }

    /// Empties every cell of `layer`'s map, destroying each occupying
    /// handle. A bulk operation: it walks every in-bounds coordinate once and
    /// deliberately appends no per-cell events. No-op when the layer has no
    /// map.
    pub fn clear(&mut self, layer: Layer)
        requires
            old(self).wf(),
        ensures
            final(self).wf(),
            old(self).same_maps_shape(*final(self)),
            final(self).events@ == old(self).events@,
            !old(self).has_map(layer) ==> *final(self) == *old(self),
            forall|p: TilePos| #[trigger] final(self).cell_entity(layer, p) is None,
            forall|l: Layer, q: TilePos|
                l != layer ==> #[trigger] final(self).cell_entity(l, q) == old(self).cell_entity(
                    l,
                    q,
                ),
            forall|l: Layer, q: TilePos|
                l != layer ==> #[trigger] final(self).record_at(l, q) == old(self).record_at(l, q),
    {
        let i = match self.find_map_index(layer) {
            Some(i) => i,
            None => {
                return;
            },
        };
        let ghost pre = *self;
        let n = self.maps[i].storage.tiles.len();
        let mut k: usize = 0;
        while k < n
            invariant
                pre.wf(),
                pre.has_map(layer),
                0 <= i < pre.maps@.len(),
                pre.map_idx(layer) == i as int,
                pre.maps@[i as int].layer == layer,
                n == pre.maps@[i as int].storage.tiles@.len(),
                k <= n,
                self.wf(),
                self.events@ == pre.events@,
                self.slots@.len() == pre.slots@.len(),
                self.maps@.len() == pre.maps@.len(),
                forall|j: int|
                    0 <= j < pre.maps@.len() && j != i ==> #[trigger] self.maps@[j]
                        == pre.maps@[j],
                self.maps@[i as int].layer == pre.maps@[i as int].layer,
                self.maps@[i as int].map_entity == pre.maps@[i as int].map_entity,
                self.maps@[i as int].transform == pre.maps@[i as int].transform,
                self.maps@[i as int].grid_size == pre.maps@[i as int].grid_size,
                self.maps@[i as int].storage.size == pre.maps@[i as int].storage.size,
                self.maps@[i as int].storage.tiles@.len() == n,
                forall|c: int|
                    0 <= c < k ==> (#[trigger] self.maps@[i as int].storage.tiles@[c]) is None,
                forall|c: int|
                    k <= c < n ==> #[trigger] self.maps@[i as int].storage.tiles@[c]
                        == pre.maps@[i as int].storage.tiles@[c],
                forall|t: int|
                    0 <= t < pre.slots@.len() ==> (#[trigger] self.slots@[t] == pre.slots@[t] || (
                    self.slots@[t] is None && cleared_witness(pre, i as int, k as int, t))),
            decreases n - k,
        {
            let ghost s0 = *self;
            let ce = self.maps[i].storage.tiles[k];
            if let Some(e) = ce {
                proof {
                    assert(s0.maps@[i as int].wf(s0.slots@));
                    assert(s0.maps@[i as int].storage.tiles@[k as int] matches Some(h) ==> h.index
                        < s0.slots@.len());
                }
                self.slots[e.index] = None;
                let m = &mut self.maps[i];
                m.storage.tiles[k] = None;
                proof {
                    self.lemma_clear_cell(s0, i as int, k as int, e);
                    assert forall|t: int|
                        0 <= t < pre.slots@.len() implies (#[trigger] self.slots@[t]
                        == pre.slots@[t] || (self.slots@[t] is None && cleared_witness(
                        pre,
                        i as int,
                        k + 1 as int,
                        t,
                    ))) by {
                        if self.slots@[t] != pre.slots@[t] {
                            if t == e.index {
                                assert(pre.maps@[i as int].storage.tiles@[k as int] == Some(e));
                                assert(cleared_witness(pre, i as int, k + 1 as int, t));
                            } else {
                                assert(self.slots@[t] == s0.slots@[t]);
                                assert(cleared_witness(pre, i as int, k as int, t));
                                let c0 = choose|c: int|
                                    0 <= c < k && ((
                                    #[trigger] pre.maps@[i as int].storage.tiles@[c]) matches Some(
                                    h,
                                    ) && h.index == t);
                                assert(0 <= c0 < k + 1 && ((
                                pre.maps@[i as int].storage.tiles@[c0]) matches Some(h) && h.index
                                    == t));
                            }
                        }
                    }
                }
            }
            k = k + 1;
        }
        proof {
            self.lemma_map_idx(layer);
            assert(self.map_idx(layer) == i as int);
            assert forall|p: TilePos| #[trigger] self.cell_entity(layer, p) is None by {
                let ms = self.maps@[i as int].storage;
                if ms.in_bounds(p) {
                    ms.lemma_idx(p);
                }
            }
            assert forall|l: Layer, q: TilePos| l != layer implies #[trigger] self.cell_entity(
                l,
                q,
            ) == pre.cell_entity(l, q) by {
                pre.lemma_same_shape_idx(*self, l);
                if pre.has_map(l) {
                    pre.lemma_map_idx(l);
                    self.lemma_map_idx(l);
                    assert(pre.map_idx(l) != i as int);
                    assert(self.maps@[pre.map_idx(l)] == pre.maps@[pre.map_idx(l)]);
                }
            }
            assert forall|l: Layer, q: TilePos| l != layer implies #[trigger] self.record_at(l, q)
                == pre.record_at(l, q) by {
                assert(self.cell_entity(l, q) == pre.cell_entity(l, q));
                if pre.cell_entity(l, q) is Some {
                    let e = pre.cell_entity(l, q).unwrap();
                    pre.lemma_cell_live(l, q);
                    if self.slots@[e.index as int] != pre.slots@[e.index as int] {
                        let c0 = choose|c: int|
                            0 <= c < n && ((
                            #[trigger] pre.maps@[i as int].storage.tiles@[c]) matches Some(h)
                                && h.index == e.index);
                        pre.lemma_map_idx(l);
                        let j = pre.map_idx(l);
                        let qs = pre.maps@[j].storage;
                        qs.lemma_idx(q);
                        assert(pre.maps@[j].storage.tiles@[qs.idx_of(q)] == Some(e));
                        assert(pre.maps@[i as int].storage.tiles@[c0] == Some(e));
                        assert(false);
                    }
                }
            }
        }
    }
}

/// Registers a new map for a layer: grid dimensions, square cell size, and
/// the identity placement translation at the layer's draw height.
pub struct SpawnMapCommand {
    pub size: TilemapSize,
    pub tile_size: u32,
    pub layer: Layer,
}

impl SpawnMapCommand {
    pub fn new(size: TilemapSize, tile_size: u32, layer: Layer) -> (r: Self)
        ensures
            r == (SpawnMapCommand { size, tile_size, layer }),
    {
        SpawnMapCommand { size, tile_size, layer }
    }

    /// Spawns the layer's map: an empty grid of the given size, cells
    /// `tile_size` square, placed at the origin at the layer's draw height.
    /// At most one map may exist per layer.
    pub fn apply(self, store: &mut TilemapAccess)
        requires
            old(store).wf(),
            !old(store).has_map(self.layer),
            self.tile_size > 0,
            self.size.x as int * self.size.y as int <= usize::MAX,
        ensures
            final(store).wf(),
            final(store).has_map(self.layer),
            final(store).map_of(self.layer).storage.size == self.size,
            final(store).map_of(self.layer).grid_size == (TilemapGridSize {
                x: self.tile_size,
                y: self.tile_size,
            }),
            final(store).map_of(self.layer).transform == (MapTransform {
                x: 0,
                y: 0,
                z: self.layer.spec_z_index(),
            }),
            forall|p: TilePos| #[trigger] final(store).cell_entity(self.layer, p) is None,
            forall|l: Layer|
                l != self.layer ==> #[trigger] final(store).has_map(l) == old(store).has_map(l),
            forall|l: Layer, q: TilePos|
                l != self.layer ==> #[trigger] final(store).cell_entity(l, q) == old(
                    store,
                ).cell_entity(l, q),
            forall|l: Layer, q: TilePos|
                l != self.layer ==> #[trigger] final(store).record_at(l, q) == old(store).record_at(
                    l,
                    q,
                ),
            final(store).events@ == old(store).events@,
    {
        let ghost pre = *store;
        let map_entity = Entity { index: store.slots.len() };
        store.slots.push(None);
        let storage = TileStorage::empty(self.size);
        let m = LayerMap {
            layer: self.layer,
            map_entity,
            transform: MapTransform { x: 0, y: 0, z: self.layer.z_index() },
            grid_size: TilemapGridSize { x: self.tile_size, y: self.tile_size },
            storage,
        };
        store.maps.push(m);
        proof {
            let n = pre.maps@.len() as int;
            assert forall|j: int| 0 <= j < store.maps@.len() implies (
            #[trigger] store.maps@[j]).wf(store.slots@) by {
                if j < n {
                    assert(pre.maps@[j].wf(pre.slots@));
                    assert forall|k: int|
                        0 <= k < store.maps@[j].storage.tiles@.len() implies ((
                    #[trigger] store.maps@[j].storage.tiles@[k]) matches Some(h) ==> h.index
                        < store.slots@.len() && store.slots@[h.index as int] is Some) by {
                        assert(store.maps@[j].storage.tiles@[k]
                            == pre.maps@[j].storage.tiles@[k]);
                    }
                } else {
                    assert(forall|k: int|
                        0 <= k < store.maps@[j].storage.tiles@.len() ==> (
                        #[trigger] store.maps@[j].storage.tiles@[k]) is None);
                }
            }
            assert forall|i: int, j: int| 0 <= i < j < store.maps@.len() implies store.maps@[i].layer
                != store.maps@[j].layer by {
                if j == n {
                    assert(store.maps@[i].layer == pre.maps@[i].layer);
                    if store.maps@[i].layer == self.layer {
                        assert(pre.has_map(self.layer));
                    }
                }
            }
            assert(store.cells_injective()) by {
                assert forall|i1: int, k1: int, i2: int, k2: int|
                    0 <= i1 < store.maps@.len() && 0 <= k1 < store.maps@[i1].storage.tiles@.len()
                        && 0 <= i2 < store.maps@.len() && 0 <= k2
                        < store.maps@[i2].storage.tiles@.len() && (i1 != i2 || k1 != k2) && (
                    #[trigger] store.maps@[i1].storage.tiles@[k1]) is Some && (
                    #[trigger] store.maps@[i2].storage.tiles@[k2]) is Some implies store.maps@[i1].storage.tiles@[k1]
                    != store.maps@[i2].storage.tiles@[k2] by {
                    if i1 < n && i2 < n {
                        assert(store.maps@[i1].storage.tiles@[k1]
                            == pre.maps@[i1].storage.tiles@[k1]);
                        assert(store.maps@[i2].storage.tiles@[k2]
                            == pre.maps@[i2].storage.tiles@[k2]);
                    }
                }
            }
            assert(store.maps@[n].layer == self.layer);
            store.lemma_map_idx(self.layer);
            assert(store.map_idx(self.layer) == n);
            assert forall|p: TilePos| #[trigger] store.cell_entity(self.layer, p) is None by {
                if store.maps@[n].storage.in_bounds(p) {
                    store.maps@[n].storage.lemma_idx(p);
                }
            }
            assert forall|l: Layer| l != self.layer implies #[trigger] store.has_map(l) == pre.has_map(
                l,
            ) by {
                if pre.has_map(l) {
                    pre.lemma_map_idx(l);
                    assert(store.maps@[pre.map_idx(l)].layer == l);
                } else if store.has_map(l) {
                    store.lemma_map_idx(l);
                    let j = store.map_idx(l);
                    assert(j < n ==> pre.maps@[j].layer == l);
                }
            }
            assert forall|l: Layer, q: TilePos| l != self.layer implies #[trigger] store.cell_entity(
                l,
                q,
            ) == pre.cell_entity(l, q) && #[trigger] store.record_at(l, q) == pre.record_at(
                l,
                q,
            ) by {
                if pre.has_map(l) {
                    pre.lemma_map_idx(l);
                    store.lemma_map_idx(l);
                    assert(store.maps@[pre.map_idx(l)].layer == l);
                    assert(store.map_idx(l) == pre.map_idx(l));
                    if pre.cell_entity(l, q) is Some {
                        pre.lemma_cell_live(l, q);
                    }
                }
            }
        }
    }
}

impl TilemapAccess {
    /// Occupancy is exclusive: a handle occupies at most one cell, over all
    /// layers, so two distinct coordinates never return the same handle.
    pub proof fn lemma_occupancy_unique(
        self,
        l1: Layer,
        p1: TilePos,
        l2: Layer,
        p2: TilePos,
    )
        requires
            self.wf(),
            l1 != l2 || p1 != p2,
            self.cell_entity(l1, p1) is Some,
        ensures
            self.cell_entity(l1, p1) != self.cell_entity(l2, p2),
    {
        self.lemma_map_idx(l1);
        let i1 = self.map_idx(l1);
        let s1 = self.maps@[i1].storage;
        s1.lemma_idx(p1);
        if self.cell_entity(l2, p2) is Some {
            self.lemma_map_idx(l2);
            let i2 = self.map_idx(l2);
            let s2 = self.maps@[i2].storage;
            s2.lemma_idx(p2);
            assert(self.cell_entity(l1, p1) == self.maps@[i1].storage.tiles@[s1.idx_of(p1)]);
            assert(self.cell_entity(l2, p2) == self.maps@[i2].storage.tiles@[s2.idx_of(p2)]);
            if l1 == l2 {
                assert(i1 == i2);
                assert(s1.idx_of(p1) != s1.idx_of(p2));
            } else {
                assert(i1 != i2);
            }
        }
    }
}

/// True when at least one layer has a spawned map.
pub fn map_exists(access: &TilemapAccess) -> (r: bool)
    ensures
        r == (access.maps@.len() > 0),
{
    access.maps.len() > 0
}

} // verus!
