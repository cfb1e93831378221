use tilegrid::store::{MapTransform, TilePos, TilemapGridSize, TilemapSize};
use tilegrid::transform::{
    from_world_pos, tile_to_world_pos, update_tile_cursor, world_to_tile_pos, TileCursor, WorldPos,
};

const SIZE: TilemapSize = TilemapSize { x: 4, y: 4 };
const GRID: TilemapGridSize = TilemapGridSize { x: 16, y: 16 };
const IDENTITY: MapTransform = MapTransform { x: 0, y: 0, z: 0 };

#[test]
fn pins_the_rounding_of_the_forward_conversion() {
    // 24 / 16 + 0.5 == 2.0, and its floor is 2
    let r = world_to_tile_pos(&WorldPos { x: 24, y: 24 }, &IDENTITY, &SIZE, &GRID);
    assert_eq!(r, Some(TilePos { x: 2, y: 2 }));
    // just below the cell boundary it still rounds down
    let r = world_to_tile_pos(&WorldPos { x: 23, y: 23 }, &IDENTITY, &SIZE, &GRID);
    assert_eq!(r, Some(TilePos { x: 1, y: 1 }));
    // the origin lands in the first cell
    let r = world_to_tile_pos(&WorldPos { x: 0, y: 0 }, &IDENTITY, &SIZE, &GRID);
    assert_eq!(r, Some(TilePos { x: 0, y: 0 }));
}

#[test]
fn rejects_positions_outside_the_grid() {
    // beyond the last cell on either axis
    assert_eq!(world_to_tile_pos(&WorldPos { x: 60, y: 0 }, &IDENTITY, &SIZE, &GRID), None);
    // far into the negative half-plane
    assert_eq!(world_to_tile_pos(&WorldPos { x: -20, y: 0 }, &IDENTITY, &SIZE, &GRID), None);
    assert_eq!(from_world_pos(&WorldPos { x: 0, y: -20 }, &SIZE, &GRID), None);
}

#[test]
fn anchor_positions_convert_back_to_their_tile() {
    let t = MapTransform { x: 100, y: -50, z: 0 };
    for x in 0..4u32 {
        for y in 0..4u32 {
            let c = TilePos { x, y };
            let local = tile_to_world_pos(&c, &GRID);
            let world = WorldPos { x: local.x + t.x, y: local.y + t.y };
            assert_eq!(world_to_tile_pos(&world, &t, &SIZE, &GRID), Some(c));
        }
    }
}

#[test]
fn tile_to_world_multiplies_by_the_cell_size() {
    let w = tile_to_world_pos(&TilePos { x: 3, y: 2 }, &GRID);
    assert_eq!((w.x, w.y), (48, 32));
}

#[test]
fn translated_maps_shift_the_lookup() {
    let t = MapTransform { x: 32, y: 0, z: 0 };
    let r = world_to_tile_pos(&WorldPos { x: 32, y: 0 }, &t, &SIZE, &GRID);
    assert_eq!(r, Some(TilePos { x: 0, y: 0 }));
    let r = world_to_tile_pos(&WorldPos { x: 0, y: 0 }, &t, &SIZE, &GRID);
    assert_eq!(r, None);
}

#[test]
fn cursor_follows_the_pointer() {
    let mut cursor = TileCursor(None);
    update_tile_cursor(&WorldPos { x: 24, y: 8 }, &mut cursor, &IDENTITY, &SIZE, &GRID);
    assert_eq!(cursor.0, Some(TilePos { x: 2, y: 1 }));
    update_tile_cursor(&WorldPos { x: -99, y: 8 }, &mut cursor, &IDENTITY, &SIZE, &GRID);
    assert_eq!(cursor.0, None);
}
