use vstd::prelude::*;

use crate::store::{MapTransform, TilePos, TilemapGridSize, TilemapSize};

verus! {

/// A continuous position in world units.
#[derive(Clone, Copy, Debug, PartialEq, Eq, Structural)]
pub struct WorldPos {
    pub x: i64,
    pub y: i64,
}

/// The tile index a local coordinate falls in on one axis: the floor of
/// `local / cell + 1/2`, or nothing when that floor is negative. The floor is
/// computed exactly as `(2 * local + cell) / (2 * cell)` in Euclidean
/// division, which is negative exactly when the numerator is.
pub open spec fn spec_axis_tile(local: int, cell: int) -> Option<int>
    recommends
        cell > 0,
{
    let num = 2 * local + cell;
    if num < 0 {
        None
    } else {
        Some(num / (2 * cell))
    }
}

/// The tile under a position already in the layer's local frame: each axis
/// rounded per `spec_axis_tile`, then checked against the grid bounds.
pub open spec fn spec_from_world(lx: int, ly: int, size: TilemapSize, grid: TilemapGridSize) -> Option<TilePos> {
    match (spec_axis_tile(lx, grid.x as int), spec_axis_tile(ly, grid.y as int)) {
        (Some(tx), Some(ty)) => if tx < size.x as int && ty < size.y as int {
            Some(TilePos { x: tx as u32, y: ty as u32 })
        } else {
            None
        },
        _ => None,
    }
}

/// The tile under the world position `(wx, wy)`: the inverse of the layer's
/// placement translation, then `spec_from_world`.
pub open spec fn spec_world_to_tile(
    wx: int,
    wy: int,
    t: MapTransform,
    size: TilemapSize,
    grid: TilemapGridSize,
) -> Option<TilePos> {
    spec_from_world(wx - t.x as int, wy - t.y as int, size, grid)
}

/// One axis of the conversion: the tile index of `local - offset`, if it is
/// not negative.
fn axis_tile(local: i64, offset: i64, cell: u32) -> (r: Option<u128>)
    requires
        cell > 0,
    ensures
        match spec_axis_tile(local as int - offset as int, cell as int) {
            Some(t) => r matches Some(q) && q as int == t,
            None => r is None,
        },
{
    let num: i128 = 2 * ((local as i128) - (offset as i128)) + (cell as i128);
    if num < 0 {
        None
    } else {
        Some((num as u128) / (2 * (cell as u128)))
    }
}

/// The tile under a position already in the layer's local frame, or none
/// when it falls outside `[0, size)` on either axis.
pub fn from_world_pos(world_pos: &WorldPos, size: &TilemapSize, grid_size: &TilemapGridSize) -> (r:
    Option<TilePos>)
    requires
        grid_size.x > 0,
        grid_size.y > 0,
    ensures
        r == spec_from_world(world_pos.x as int, world_pos.y as int, *size, *grid_size),
{
    let qx = match axis_tile(world_pos.x, 0, grid_size.x) {
        Some(q) => q,
        None => {
            return None;
        },
    };
    let qy = match axis_tile(world_pos.y, 0, grid_size.y) {
        Some(q) => q,
        None => {
            return None;
        },
    };
    if qx < (size.x as u128) && qy < (size.y as u128) {
        Some(TilePos { x: qx as u32, y: qy as u32 })
    } else {
        None
    }
}

/// The tile under the world position `pos`, given the layer's placement
/// transform, grid dimensions and cell size, or none when it falls outside
/// the grid.
pub fn world_to_tile_pos(
    pos: &WorldPos,
    map_transform: &MapTransform,
    map_size: &TilemapSize,
    grid_size: &TilemapGridSize,
) -> (r: Option<TilePos>)
    requires
        grid_size.x > 0,
        grid_size.y > 0,
    ensures
        r == spec_world_to_tile(pos.x as int, pos.y as int, *map_transform, *map_size, *grid_size),
{
    let qx = match axis_tile(pos.x, map_transform.x, grid_size.x) {
        Some(q) => q,
        None => {
            return None;
        },
    };
    let qy = match axis_tile(pos.y, map_transform.y, grid_size.y) {
        Some(q) => q,
        None => {
            return None;
        },
    };
    if qx < (map_size.x as u128) && qy < (map_size.y as u128) {
        Some(TilePos { x: qx as u32, y: qy as u32 })
    } else {
        None
    }
}

/// The world-space anchor of a tile (its lower-left corner in the layer's
/// local frame): each coordinate times the cell size.
pub fn tile_to_world_pos(tpos: &TilePos, grid_size: &TilemapGridSize) -> (r: WorldPos)
    requires
        tpos.x as int * grid_size.x as int <= i64::MAX,
        tpos.y as int * grid_size.y as int <= i64::MAX,
    ensures
        r.x == tpos.x as int * grid_size.x as int,
        r.y == tpos.y as int * grid_size.y as int,
{
    WorldPos { x: (tpos.x as i64) * (grid_size.x as i64), y: (tpos.y as i64) * (grid_size.y as i64) }
}

/// Converting a tile's world anchor back through the inverse transform gives
/// the same tile: the forward conversion's built-in half-cell offset makes
/// the anchor land in its own cell, for every in-bounds coordinate, every
/// placement translation and every positive cell size.
pub proof fn lemma_transform_inverse(
    c: TilePos,
    t: MapTransform,
    size: TilemapSize,
    grid: TilemapGridSize,
)
    requires
        grid.x > 0,
        grid.y > 0,
        c.x < size.x,
        c.y < size.y,
    ensures
        spec_world_to_tile(
            c.x as int * grid.x as int + t.x as int,
            c.y as int * grid.y as int + t.y as int,
            t,
            size,
            grid,
        ) == Some(c),
{
    lemma_axis_round_trip(c.x as int, grid.x as int);
    lemma_axis_round_trip(c.y as int, grid.y as int);
}

/// One axis of the inverse property: the anchor `cx * cell` rounds back to
/// tile `cx`.
proof fn lemma_axis_round_trip(cx: int, cell: int)
    requires
        cx >= 0,
        cell > 0,
    ensures
        spec_axis_tile(cx * cell, cell) == Some(cx),
{
    assert(2 * (cx * cell) + cell == (2 * cell) * cx + cell) by (nonlinear_arith);
    assert(2 * (cx * cell) + cell >= 0) by (nonlinear_arith)
        requires
            cx >= 0,
            cell > 0,
    ;
    assert(0 <= cell < 2 * cell);
    vstd::arithmetic::div_mod::lemma_fundamental_div_mod_converse(
        2 * (cx * cell) + cell,
        2 * cell,
        cx,
        cell,
    );
}

/// The current tile coordinate under the pointer, or none when the pointer
/// is outside the grid.
pub struct TileCursor(pub Option<TilePos>);

/// Re-evaluates the tile cursor from the world-space pointer position:
/// stores the tile under the pointer on the layer described by the given
/// transform, dimensions and cell size, or none.
pub fn update_tile_cursor(
    world_cursor: &WorldPos,
    tile_cursor: &mut TileCursor,
    map_transform: &MapTransform,
    map_size: &TilemapSize,
    grid_size: &TilemapGridSize,
)
    requires
        grid_size.x > 0,
        grid_size.y > 0,
    ensures
        final(tile_cursor).0 == spec_world_to_tile(
            world_cursor.x as int,
            world_cursor.y as int,
            *map_transform,
            *map_size,
            *grid_size,
        ),
{
    tile_cursor.0 = world_to_tile_pos(world_cursor, map_transform, map_size, grid_size);
}

} // verus!
