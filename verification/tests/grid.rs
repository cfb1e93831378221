use tilegrid::layer::Layer;
use tilegrid::serialization::LevelSerializer;
use tilegrid::store::{SpawnMapCommand, TileModification, TilePos, TilemapAccess, TilemapSize};
use tilegrid::tile::{TileFlip, TileProperties};

fn spawn_4x4() -> TilemapAccess {
    let mut store = TilemapAccess::new();
    let cmd = SpawnMapCommand::new(TilemapSize { x: 4, y: 4 }, 16, Layer::World);
    cmd.apply(&mut store);
    store
}

fn props(id: u32) -> TileProperties {
    TileProperties { id, flip: TileFlip { x: false, y: false, d: false } }
}

#[test]
fn spawn_registers_map() {
    let store = spawn_4x4();
    assert!(tilegrid::store::map_exists(&store));
    assert!(store.tilemap_entity(Layer::World).is_some());
    let (t, size) = store.transform_size(Layer::World).unwrap();
    assert_eq!((t.x, t.y, t.z), (0, 0, 0));
    assert_eq!((size.x, size.y), (4, 4));
    let s = store.storage(Layer::World).unwrap();
    assert_eq!((s.size.x, s.size.y), (4, 4));
}

#[test]
fn empty_store_has_nothing() {
    let store = TilemapAccess::new();
    assert!(!tilegrid::store::map_exists(&store));
    assert!(store.get(&TilePos { x: 0, y: 0 }, Layer::World).is_none());
    assert!(store.storage(Layer::World).is_none());
    assert!(store.transform_size(Layer::World).is_none());
    assert!(store.tilemap_entity(Layer::World).is_none());
}

#[test]
fn scenario_place_query_save_clear() {
    let mut store = spawn_4x4();
    let p = TilePos { x: 1, y: 1 };
    let h = store.replace(&p, props(5), Layer::World);
    assert!(h.is_some());
    assert_eq!(store.get(&p, Layer::World), h);
    let rec = store.get_properties(&p, Layer::World).unwrap();
    assert_eq!(rec.id, 5);
    assert_eq!(rec.flip, TileFlip { x: false, y: false, d: false });

    let ser = LevelSerializer { storage_access: store };
    let level = ser.save().unwrap();
    assert_eq!(level.tiles.len(), 1);
    assert_eq!(level.tiles[0].pos, p);
    assert_eq!(level.tiles[0].id, 5);
    assert_eq!(level.tiles[0].flip, TileFlip { x: false, y: false, d: false });

    let mut store = ser.storage_access;
    store.clear(Layer::World);
    for x in 0..4u32 {
        for y in 0..4u32 {
            assert!(store.get(&TilePos { x, y }, Layer::World).is_none());
        }
    }
}

#[test]
fn replace_emits_removed_then_added_with_old_handle() {
    let mut store = spawn_4x4();
    let p = TilePos { x: 2, y: 3 };
    let h1 = store.replace(&p, props(1), Layer::World).unwrap();
    let h2 = store.replace(&p, props(2), Layer::World).unwrap();
    assert_ne!(h1, h2);
    let events = store.take_events();
    assert_eq!(events.len(), 3);
    assert_eq!(events[0].modification, TileModification::Added { old: None, new: h1 });
    assert_eq!(events[1].modification, TileModification::Removed { old: h1 });
    assert_eq!(events[2].modification, TileModification::Added { old: Some(h1), new: h2 });
    assert_eq!(store.get_properties(&p, Layer::World).unwrap().id, 2);
}

#[test]
fn remove_on_empty_cell_is_a_silent_no_op() {
    let mut store = spawn_4x4();
    assert!(store.remove(&TilePos { x: 0, y: 0 }, Layer::World).is_none());
    assert!(store.take_events().is_empty());
}

#[test]
fn remove_returns_and_destroys_the_handle() {
    let mut store = spawn_4x4();
    let p = TilePos { x: 0, y: 2 };
    let h = store.replace(&p, props(9), Layer::World).unwrap();
    store.take_events();
    let removed = store.remove(&p, Layer::World);
    assert_eq!(removed, Some(h));
    assert!(store.get(&p, Layer::World).is_none());
    let events = store.take_events();
    assert_eq!(events.len(), 1);
    assert_eq!(events[0].modification, TileModification::Removed { old: h });
    // removing again: nothing there any more
    assert!(store.remove(&p, Layer::World).is_none());
    assert!(store.take_events().is_empty());
}

#[test]
fn try_place_fills_only_empty_cells() {
    let mut store = spawn_4x4();
    let p = TilePos { x: 3, y: 0 };
    let h = store.try_place(&p, props(7), Layer::World);
    assert!(h.is_some());
    assert!(store.try_place(&p, props(8), Layer::World).is_none());
    assert_eq!(store.get_properties(&p, Layer::World).unwrap().id, 7);
    let events = store.take_events();
    assert_eq!(events.len(), 1);
    assert_eq!(events[0].modification, TileModification::Added { old: None, new: h.unwrap() });
}

#[test]
fn out_of_bounds_operations_fail_without_effect() {
    let mut store = spawn_4x4();
    let p = TilePos { x: 4, y: 0 };
    assert!(store.get(&p, Layer::World).is_none());
    assert!(store.replace(&p, props(1), Layer::World).is_none());
    assert!(store.try_place(&p, props(1), Layer::World).is_none());
    assert!(store.remove(&p, Layer::World).is_none());
    assert!(store.take_events().is_empty());
}

#[test]
fn clear_empties_every_cell_and_emits_nothing() {
    let mut store = spawn_4x4();
    for x in 0..4u32 {
        store.replace(&TilePos { x, y: x }, props(x), Layer::World);
    }
    store.take_events();
    store.clear(Layer::World);
    assert!(store.take_events().is_empty());
    for x in 0..4u32 {
        for y in 0..4u32 {
            assert!(store.get(&TilePos { x, y }, Layer::World).is_none());
            assert!(store.get_properties(&TilePos { x, y }, Layer::World).is_none());
        }
    }
    // the grid is still usable afterwards
    assert!(store.replace(&TilePos { x: 0, y: 0 }, props(1), Layer::World).is_some());
}

#[test]
fn layer_identity() {
    assert_eq!(Layer::World.z_index(), 0);
    assert_eq!(Layer::World.name(), "World");
    assert!(tilegrid::tile::is_default_flip(&TileFlip::default()));
    assert!(!tilegrid::tile::is_default_flip(&TileFlip { x: true, y: false, d: false }));
    assert_eq!(TileProperties::default().id, 0);
}
