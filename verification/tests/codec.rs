use tilegrid::codec::{decode_level, encode_level};
use tilegrid::layer::Layer;
use tilegrid::serialization::{LevelSerializer, SerializableLevel, SerializableTile};
use tilegrid::store::{SpawnMapCommand, TilePos, TilemapAccess, TilemapSize};
use tilegrid::tile::{TileFlip, TileProperties};

fn tile(x: u32, y: u32, id: u32, flip: TileFlip) -> SerializableTile {
    SerializableTile { pos: TilePos { x, y }, id, flip }
}

const OFF: TileFlip = TileFlip { x: false, y: false, d: false };

#[test]
fn encodes_one_plain_entry_exactly() {
    let level = SerializableLevel { tiles: vec![tile(1, 1, 5, OFF)] };
    let bytes = encode_level(&level);
    assert_eq!(String::from_utf8(bytes).unwrap(), "(tiles:[(pos:(x:1,y:1),id:5),])");
}

#[test]
fn encodes_flip_flags_when_any_is_set() {
    let level = SerializableLevel {
        tiles: vec![tile(0, 3, 12, TileFlip { x: true, y: false, d: true })],
    };
    let bytes = encode_level(&level);
    assert_eq!(
        String::from_utf8(bytes).unwrap(),
        "(tiles:[(pos:(x:0,y:3),id:12,flip:(x:true,y:false,d:true)),])"
    );
}

#[test]
fn encodes_the_empty_level() {
    let level = SerializableLevel { tiles: vec![] };
    assert_eq!(String::from_utf8(encode_level(&level)).unwrap(), "(tiles:[])");
}

#[test]
fn decode_inverts_encode() {
    let level = SerializableLevel {
        tiles: vec![
            tile(0, 0, 0, OFF),
            tile(3, 1, 4294967295, TileFlip { x: false, y: true, d: false }),
            tile(2, 2, 10, TileFlip { x: true, y: true, d: true }),
        ],
    };
    let bytes = encode_level(&level);
    let back = decode_level(&bytes).unwrap();
    assert_eq!(back.tiles, level.tiles);
}

#[test]
fn decode_rejects_malformed_documents() {
    let cases: Vec<&str> = vec![
        "",
        "(tiles:[)",
        "(tiles:[(pos:(x:1,y:1),id:5)])",         // missing entry comma
        "(tiles:[(pos:(x:01,y:1),id:5),])",       // leading zero
        "(tiles:[(pos:(x:1,y:1),id:5),]) ",       // trailing byte
        "( tiles:[(pos:(x:1,y:1),id:5),])",       // whitespace
        "(tiles:[(pos:(x:1,y:1),id:4294967296),])", // id too large
        "(tiles:[(pos:(x:1,y:1),id:5,flip:(x:false,y:false,d:false)),])", // written-out default flip
    ];
    for c in cases {
        assert!(decode_level(&c.as_bytes().to_vec()).is_none(), "accepted: {}", c);
    }
}

#[test]
fn canonical_output_is_valid_ron() {
    let level = SerializableLevel {
        tiles: vec![tile(1, 1, 5, OFF), tile(0, 2, 7, TileFlip { x: true, y: false, d: false })],
    };
    let text = String::from_utf8(encode_level(&level)).unwrap();
    let value: Result<ron::Value, _> = ron::from_str(&text);
    assert!(value.is_ok(), "ron rejected: {}", text);
}

#[test]
fn save_encode_decode_load_reproduces_the_occupancy() {
    let mut store = TilemapAccess::new();
    SpawnMapCommand::new(TilemapSize { x: 4, y: 4 }, 16, Layer::World).apply(&mut store);
    store.replace(
        &TilePos { x: 1, y: 1 },
        TileProperties { id: 5, flip: OFF },
        Layer::World,
    );
    store.replace(
        &TilePos { x: 3, y: 0 },
        TileProperties { id: 9, flip: TileFlip { x: false, y: true, d: false } },
        Layer::World,
    );
    let ser = LevelSerializer { storage_access: store };
    let saved = ser.save().unwrap();
    let bytes = encode_level(&saved);
    let restored = decode_level(&bytes).unwrap();

    let mut fresh = TilemapAccess::new();
    SpawnMapCommand::new(TilemapSize { x: 4, y: 4 }, 16, Layer::World).apply(&mut fresh);
    let mut target = LevelSerializer { storage_access: fresh };
    target.load_level(&restored);

    for x in 0..4u32 {
        for y in 0..4u32 {
            let p = TilePos { x, y };
            let a = ser.storage_access.get_properties(&p, Layer::World);
            let b = target.storage_access.get_properties(&p, Layer::World);
            assert_eq!(a, b, "difference at ({}, {})", x, y);
        }
    }
}

#[test]
fn load_replays_through_the_event_path() {
    let level = SerializableLevel { tiles: vec![tile(1, 1, 5, OFF), tile(1, 1, 6, OFF)] };
    let mut store = TilemapAccess::new();
    SpawnMapCommand::new(TilemapSize { x: 4, y: 4 }, 16, Layer::World).apply(&mut store);
    let mut ser = LevelSerializer { storage_access: store };
    ser.load_level(&level);
    // the later entry wins
    assert_eq!(
        ser.storage_access.get_properties(&TilePos { x: 1, y: 1 }, Layer::World).unwrap().id,
        6
    );
    // one added, then an overwrite: three events in all
    let events = ser.storage_access.take_events();
    assert_eq!(events.len(), 3);
}

#[test]
fn load_ignores_entries_outside_the_grid() {
    let level = SerializableLevel { tiles: vec![tile(9, 9, 5, OFF), tile(0, 0, 3, OFF)] };
    let mut store = TilemapAccess::new();
    SpawnMapCommand::new(TilemapSize { x: 4, y: 4 }, 16, Layer::World).apply(&mut store);
    let mut ser = LevelSerializer { storage_access: store };
    ser.load_level(&level);
    assert_eq!(
        ser.storage_access.get_properties(&TilePos { x: 0, y: 0 }, Layer::World).unwrap().id,
        3
    );
    assert!(ser.storage_access.get(&TilePos { x: 3, y: 3 }, Layer::World).is_none());
}

#[test]
fn save_lists_occupied_cells_in_row_major_order() {
    let mut store = TilemapAccess::new();
    SpawnMapCommand::new(TilemapSize { x: 4, y: 4 }, 16, Layer::World).apply(&mut store);
    store.replace(&TilePos { x: 3, y: 2 }, TileProperties { id: 1, flip: OFF }, Layer::World);
    store.replace(&TilePos { x: 0, y: 1 }, TileProperties { id: 2, flip: OFF }, Layer::World);
    store.replace(&TilePos { x: 2, y: 1 }, TileProperties { id: 3, flip: OFF }, Layer::World);
    let ser = LevelSerializer { storage_access: store };
    let level = ser.save().unwrap();
    let order: Vec<(u32, u32, u32)> =
        level.tiles.iter().map(|t| (t.pos.x, t.pos.y, t.id)).collect();
    assert_eq!(order, vec![(0, 1, 2), (2, 1, 3), (3, 2, 1)]);
}
