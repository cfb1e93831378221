use vstd::prelude::*;

use crate::layer::Layer;
use crate::store::{TilePos, TilemapAccess};
use crate::tile::{TileFlip, TileProperties};

verus! {

/// One occupied cell in a snapshot: its coordinate, visual id and flip
/// flags.
#[derive(Clone, Copy, Debug, PartialEq, Eq, Structural)]
pub struct SerializableTile {
    pub pos: TilePos,
    pub id: u32,
    pub flip: TileFlip,
}

/// A snapshot of a layer: one entry per occupied cell, in row-major cell
/// order when produced by `save`. A coordinate with no entry is empty.
pub struct SerializableLevel {
    pub tiles: Vec<SerializableTile>,
}

/// The snapshot entry for cell `c` of `layer`'s map, given its occupying
/// handle `e`.
pub open spec fn spec_cell_entry(store: TilemapAccess, layer: Layer, c: int, e: crate::store::Entity) -> SerializableTile {
    let m = store.map_of(layer);
    let props = store.props_of(e).unwrap();
    SerializableTile {
        pos: TilePos {
            x: (c % m.storage.size.x as int) as u32,
            y: (c / m.storage.size.x as int) as u32,
        },
        id: props.id,
        flip: props.flip,
    }
}

/// The snapshot entries of the first `c` cells of `layer`'s map, in
/// row-major order.
pub open spec fn spec_snapshot_upto(store: TilemapAccess, layer: Layer, c: int) -> Seq<
    SerializableTile,
>
    decreases c,
{
    if c <= 0 {
        Seq::empty()
    } else {
        let prev = spec_snapshot_upto(store, layer, c - 1);
        match store.map_of(layer).storage.tiles@[c - 1] {
            Some(e) => prev.push(spec_cell_entry(store, layer, c - 1, e)),
            None => prev,
        }
    }
}

/// The full snapshot of `layer`: one entry per occupied cell, row-major;
/// empty when the layer has no map.
pub open spec fn spec_snapshot(store: TilemapAccess, layer: Layer) -> Seq<SerializableTile> {
    if store.has_map(layer) {
        spec_snapshot_upto(store, layer, store.map_of(layer).storage.tiles@.len() as int)
    } else {
        Seq::empty()
    }
}

/// The record a coordinate ends up with after replaying `tiles` through
/// `replace`, in order: the last entry at that coordinate wins; no entry
/// means empty.
pub open spec fn spec_replayed(tiles: Seq<SerializableTile>, p: TilePos) -> Option<TileProperties>
    decreases tiles.len(),
{
    if tiles.len() == 0 {
        None
    } else {
        let last = tiles[tiles.len() - 1];
        if last.pos == p {
            Some(TileProperties { id: last.id, flip: last.flip })
        } else {
            spec_replayed(tiles.drop_last(), p)
        }
    }
}

/// Snapshots layers of the grid store and restores them by replaying the
/// normal mutation path, so observers see loads as ordinary edits.
pub struct LevelSerializer {
    pub storage_access: TilemapAccess,
}

impl LevelSerializer {
    /// Snapshots the active (`World`) layer: one entry per occupied cell, in
    /// row-major cell order.
    pub fn save(&self) -> (r: Option<SerializableLevel>)
        requires
            self.storage_access.wf(),
        ensures
            r matches Some(level) && level.tiles@ == spec_snapshot(
                self.storage_access,
                Layer::World,
            ),
    {
        let mut tiles: Vec<SerializableTile> = Vec::new();
        let store = &self.storage_access;
        let i = match store.find_map_index(Layer::World) {
            Some(i) => i,
            None => {
                return Some(SerializableLevel { tiles });
            },
        };
        let m = &store.maps[i];
        let n = m.storage.tiles.len();
        let sx = m.storage.size.x;
        let sy = m.storage.size.y;
        proof {
            assert(store.maps@[i as int].wf(store.slots@));
            assert(store.maps@[i as int].storage.wf());
        }
        let mut c: usize = 0;
        while c < n
            invariant
                store.wf(),
                store.has_map(Layer::World),
                0 <= i < store.maps@.len(),
                store.map_idx(Layer::World) == i as int,
                *m == store.maps@[i as int],
                n == m.storage.tiles@.len(),
                sx == m.storage.size.x,
                sy == m.storage.size.y,
                m.storage.wf(),
                c <= n,
                tiles@ == spec_snapshot_upto(*store, Layer::World, c as int),
            decreases n - c,
        {
            proof {
                if sx == 0 {
                    assert(m.storage.tiles@.len() == 0);
                }
                lemma_cell_pos(sx as int, sy as int, c as int);
            }
            if let Some(e) = m.storage.tiles[c] {
                proof {
                    assert(store.maps@[i as int].wf(store.slots@));
                }
                let props = match store.slots[e.index] {
                    Some(p) => p,
                    None => {
                        // unreachable: the invariant keeps every stored
                        // handle attached to a record
                        proof {
                            assert(false);
                        }
                        TileProperties { id: 0, flip: TileFlip { x: false, y: false, d: false } }
                    },
                };
                let entry = SerializableTile {
                    pos: TilePos {
                        x: (c % (sx as usize)) as u32,
                        y: (c / (sx as usize)) as u32,
                    },
                    id: props.id,
                    flip: props.flip,
                };
                tiles.push(entry);
                proof {
                    assert(entry == spec_cell_entry(*store, Layer::World, c as int, e));
                }
            }
            c = c + 1;
        }
        Some(SerializableLevel { tiles })
    }

    /// Restores the `World` layer from a snapshot: clears the layer, then
    /// replays every entry through `replace`, so the usual events fire. An
    /// entry outside the grid has no effect; the last of several entries at
    /// one coordinate wins. No-op when the layer has no map.
    pub fn load_level(&mut self, level: &SerializableLevel)
        requires
            old(self).storage_access.wf(),
        ensures
            final(self).storage_access.wf(),
            old(self).storage_access.same_maps_shape(final(self).storage_access),
            !old(self).storage_access.has_map(Layer::World) ==> *final(self) == *old(self),
            forall|p: TilePos|
                old(self).storage_access.in_bounds(Layer::World, p) ==> #[trigger] final(self).storage_access.record_at(Layer::World, p)
                    == spec_replayed(level.tiles@, p),
            forall|p: TilePos|
                !old(self).storage_access.in_bounds(Layer::World, p) ==> #[trigger] final(self).storage_access.cell_entity(Layer::World, p)
                    is None,
            forall|l: Layer, q: TilePos|
                l != Layer::World ==> #[trigger] final(self).storage_access.record_at(l, q)
                    == old(self).storage_access.record_at(l, q),
            old(self).storage_access.events@.is_prefix_of(final(self).storage_access.events@),
    {
        let ghost pre = self.storage_access;
        if self.storage_access.find_map_index(Layer::World).is_none() {
            return ;
        }
        self.storage_access.clear(Layer::World);
        let ghost cleared = self.storage_access;
        proof {
            pre.lemma_same_shape_idx(cleared, Layer::World);
        }
        let n = level.tiles.len();
        let mut j: usize = 0;
        while j < n
            invariant
                pre.wf(),
                pre.has_map(Layer::World),
                n == level.tiles@.len(),
                j <= n,
                self.storage_access.wf(),
                pre.same_maps_shape(self.storage_access),
                forall|p: TilePos|
                    pre.in_bounds(Layer::World, p) ==> #[trigger] self.storage_access.record_at(
                        Layer::World,
                        p,
                    ) == spec_replayed(level.tiles@.take(j as int), p),
                forall|p: TilePos|
                    !pre.in_bounds(Layer::World, p) ==> #[trigger] self.storage_access.cell_entity(
                        Layer::World,
                        p,
                    ) is None,
                forall|l: Layer, q: TilePos|
                    l != Layer::World ==> #[trigger] self.storage_access.record_at(l, q)
                        == pre.record_at(l, q),
                pre.events@.is_prefix_of(self.storage_access.events@),
            decreases n - j,
        {
            let ghost before = self.storage_access;
            let t = level.tiles[j];
            let r = self.storage_access.replace(
                &t.pos,
                TileProperties { id: t.id, flip: t.flip },
                Layer::World,
            );
            proof {
                before.lemma_same_shape_idx(self.storage_access, Layer::World);
                pre.lemma_same_shape_idx(before, Layer::World);
                assert(level.tiles@.take(j + 1 as int).drop_last() =~= level.tiles@.take(
                    j as int,
                ));
                assert(level.tiles@.take(j + 1 as int).last() == t);
                assert forall|p: TilePos| pre.in_bounds(Layer::World, p) implies #[trigger] self.storage_access.record_at(
                    Layer::World,
                    p,
                ) == spec_replayed(level.tiles@.take(j + 1 as int), p) by {
                    if r is Some && p == t.pos {
                    } else if p != t.pos {
                        assert(self.storage_access.record_at(Layer::World, p)
                            == before.record_at(Layer::World, p));
                    } else {
                        // the entry is out of bounds, so nothing changed
                        assert(r is None);
                        assert(!before.in_bounds(Layer::World, t.pos));
                        assert(false);
                    }
                }
                assert forall|p: TilePos| !pre.in_bounds(Layer::World, p) implies #[trigger] self.storage_access.cell_entity(
                    Layer::World,
                    p,
                ) is None by {
                    if r is Some {
                        if p != t.pos {
                            assert(self.storage_access.cell_entity(Layer::World, p)
                                == before.cell_entity(Layer::World, p));
                        } else {
                            assert(before.in_bounds(Layer::World, t.pos));
                            assert(false);
                        }
                    }
                }
                assert forall|l: Layer, q: TilePos| l != Layer::World implies #[trigger] self.storage_access.record_at(
                    l,
                    q,
                ) == pre.record_at(l, q) by {
                    assert(self.storage_access.record_at(l, q) == before.record_at(l, q));
                }
            }
            j = j + 1;
        }
        proof {
            assert(level.tiles@.take(n as int) =~= level.tiles@);
        }
    }
}

/// Replaying the row-major snapshot of a well-formed store rebuilds exactly
/// the occupancy it was taken from: at every in-bounds coordinate the
/// replayed record equals the stored one.
pub proof fn lemma_snapshot_replay(store: TilemapAccess, p: TilePos)
    requires
        store.wf(),
        store.has_map(Layer::World),
        store.in_bounds(Layer::World, p),
    ensures
        spec_replayed(spec_snapshot(store, Layer::World), p) == store.record_at(Layer::World, p),
{
    store.lemma_map_idx(Layer::World);
    let m = store.map_of(Layer::World);
    m.storage.lemma_idx(p);
    lemma_snapshot_replay_upto(store, p, m.storage.tiles@.len() as int);
}

/// Replay of the first `c` cells' snapshot entries: a coordinate reads back
/// its stored record if its cell is among the first `c`, and nothing
/// otherwise.
proof fn lemma_snapshot_replay_upto(store: TilemapAccess, p: TilePos, c: int)
    requires
        store.wf(),
        store.has_map(Layer::World),
        store.in_bounds(Layer::World, p),
        0 <= c <= store.map_of(Layer::World).storage.tiles@.len(),
    ensures
        spec_replayed(spec_snapshot_upto(store, Layer::World, c), p) == if store.map_of(
            Layer::World,
        ).storage.idx_of(p) < c {
            store.record_at(Layer::World, p)
        } else {
            None
        },
    decreases c,
{
    let m = store.map_of(Layer::World);
    let ms = m.storage;
    ms.lemma_idx(p);
    if c > 0 {
        lemma_snapshot_replay_upto(store, p, c - 1);
        let prev = spec_snapshot_upto(store, Layer::World, c - 1);
        match ms.tiles@[c - 1] {
            Some(e) => {
                let entry = spec_cell_entry(store, Layer::World, c - 1, e);
                assert(spec_snapshot_upto(store, Layer::World, c) == prev.push(entry));
                assert(prev.push(entry).drop_last() =~= prev);
                lemma_cell_pos(ms.size.x as int, ms.size.y as int, c - 1);
                if entry.pos == p {
                    assert(ms.idx_of(p) == c - 1) by {
                        ms.lemma_idx(entry.pos);
                    }
                    assert(store.cell_entity(Layer::World, p) == Some(e));
                    assert(store.record_at(Layer::World, p) == store.props_of(e));
                    assert(store.maps@[store.map_idx(Layer::World)].wf(store.slots@));
                    assert(store.props_of(e) is Some);
                } else {
                    if ms.idx_of(p) == c - 1 {
                        assert(entry.pos.x as int == (c - 1) % ms.size.x as int);
                        assert(entry.pos.y as int == (c - 1) / ms.size.x as int);
                        vstd::arithmetic::div_mod::lemma_fundamental_div_mod_converse(
                            c - 1,
                            ms.size.x as int,
                            p.y as int,
                            p.x as int,
                        );
                        assert(false);
                    }
                }
            },
            None => {
                if ms.idx_of(p) == c - 1 {
                    assert(store.cell_entity(Layer::World, p) is None);
                    assert(store.record_at(Layer::World, p) is None);
                }
            },
        }
    }
}

/// The row-major coordinate of cell `c` lies in bounds and indexes back to
/// `c`.
proof fn lemma_cell_pos(sx: int, sy: int, c: int)
    requires
        sx > 0,
        0 <= c < sx * sy,
    ensures
        0 <= c % sx < sx,
        0 <= c / sx < sy,
        (c / sx) * sx + c % sx == c,
{
    vstd::arithmetic::div_mod::lemma_fundamental_div_mod(c, sx);
    vstd::arithmetic::div_mod::lemma_mod_bound(c, sx);
    assert((c / sx) * sx == sx * (c / sx)) by (nonlinear_arith);
    assert(c / sx >= 0) by (nonlinear_arith)
        requires
            c >= 0,
            sx > 0,
            c == sx * (c / sx) + c % sx,
            0 <= c % sx < sx,
    ;
    assert(c / sx < sy) by (nonlinear_arith)
        requires
            c < sx * sy,
            sx > 0,
            c == sx * (c / sx) + c % sx,
            0 <= c % sx < sx,
    ;
}

} // verus!
