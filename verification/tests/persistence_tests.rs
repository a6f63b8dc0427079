use hitbox_editor::geometry::HitBox;
use hitbox_editor::geometry::HurtBox;
use hitbox_editor::geometry::Vec2i;
use hitbox_editor::persistence::PersistenceError;
use hitbox_editor::persistence::load_state_system;
use hitbox_editor::persistence::save_state_system;
use hitbox_editor::sheets::FrameData;
use hitbox_editor::sheets::SpriteSheetInfo;
use hitbox_editor::sheets::SpriteSheetsData;

fn vec2(x: i64, y: i64) -> Vec2i {
    Vec2i { x, y }
}

fn assert_sheets_equal(a: &SpriteSheetInfo, b: &SpriteSheetInfo) {
    assert_eq!(a.id, b.id);
    assert_eq!(a.image_path, b.image_path);
    assert_eq!(a.sprite_sheet_width, b.sprite_sheet_width);
    assert_eq!(a.sprite_sheet_height, b.sprite_sheet_height);
    assert_eq!(a.tile_width, b.tile_width);
    assert_eq!(a.tile_height, b.tile_height);
    assert_eq!(a.columns, b.columns);
    assert_eq!(a.rows, b.rows);
    assert_eq!(a.frames.len(), b.frames.len());
    for (fa, fb) in a.frames.iter().zip(b.frames.iter()) {
        assert_eq!(fa.hit_boxes, fb.hit_boxes);
        assert_eq!(fa.hurt_boxes, fb.hurt_boxes);
    }
}

#[test]
fn round_trip_restores_the_catalog() {
    let mut catalog = SpriteSheetsData::new();
    catalog.upsert(SpriteSheetInfo {
        id: b"punch".to_vec(),
        image_path: b"sprites/punch.png".to_vec(),
        sprite_sheet_width: 224,
        sprite_sheet_height: 32,
        tile_width: 32,
        tile_height: 32,
        columns: 7,
        rows: 1,
        frames: vec![
            FrameData { hit_boxes: vec![], hurt_boxes: vec![] },
            FrameData {
                hit_boxes: vec![HitBox { size: vec2(10, 10), offset: vec2(0, 0) }],
                hurt_boxes: vec![
                    HurtBox { size: vec2(12, 30), offset: vec2(-4, 7) },
                    HurtBox { size: vec2(0, 0), offset: vec2(2147483648, -2147483648) },
                ],
            },
        ],
    });
    catalog.upsert(SpriteSheetInfo {
        id: b"kick".to_vec(),
        image_path: b"sprites/kick.png".to_vec(),
        sprite_sheet_width: 64,
        sprite_sheet_height: 64,
        tile_width: 32,
        tile_height: 32,
        columns: 2,
        rows: 2,
        frames: vec![],
    });

    let bytes = save_state_system(&catalog);
    let restored = load_state_system(&bytes).unwrap();
    assert_eq!(restored.sheets.len(), catalog.sheets.len());
    for (a, b) in catalog.sheets.iter().zip(restored.sheets.iter()) {
        assert_sheets_equal(a, b);
    }
}

#[test]
fn round_trip_keeps_escaped_bytes() {
    let mut catalog = SpriteSheetsData::new();
    catalog.upsert(SpriteSheetInfo {
        id: b"odd\"name\\here".to_vec(),
        image_path: b"dir with spaces/img.png".to_vec(),
        sprite_sheet_width: 1,
        sprite_sheet_height: 1,
        tile_width: 1,
        tile_height: 1,
        columns: 1,
        rows: 1,
        frames: vec![],
    });
    let bytes = save_state_system(&catalog);
    let restored = load_state_system(&bytes).unwrap();
    assert_eq!(restored.sheets[0].id, b"odd\"name\\here".to_vec());
    assert_eq!(restored.sheets[0].image_path, b"dir with spaces/img.png".to_vec());
}

#[test]
fn save_produces_the_canonical_document() {
    let mut catalog = SpriteSheetsData::new();
    catalog.upsert(SpriteSheetInfo {
        id: b"p".to_vec(),
        image_path: b"p.png".to_vec(),
        sprite_sheet_width: 10,
        sprite_sheet_height: 20,
        tile_width: 5,
        tile_height: 5,
        columns: 2,
        rows: 4,
        frames: vec![FrameData {
            hit_boxes: vec![HitBox { size: vec2(1, 2), offset: vec2(-3, 0) }],
            hurt_boxes: vec![],
        }],
    });
    let bytes = save_state_system(&catalog);
    let expected = "{\"sheets\":[{\"id\":\"p\",\"image_path\":\"p.png\",\"sprite_sheet_width\":10,\"sprite_sheet_height\":20,\"tile_width\":5,\"tile_height\":5,\"columns\":2,\"rows\":4,\"frames\":[{\"hit_boxes\":[{\"size\":[1,2],\"offset\":[-3,0]}],\"hurt_boxes\":[]}]}]}";
    assert_eq!(bytes, expected.as_bytes().to_vec());
}

#[test]
fn empty_catalog_round_trips() {
    let catalog = SpriteSheetsData::new();
    let bytes = save_state_system(&catalog);
    assert_eq!(bytes, b"{\"sheets\":[]}".to_vec());
    let restored = load_state_system(&bytes).unwrap();
    assert!(restored.sheets.is_empty());
}

#[test]
fn empty_input_is_malformed() {
    let r = load_state_system(&b"".to_vec());
    assert!(matches!(r, Err(PersistenceError::Malformed)));
}

#[test]
fn garbage_is_malformed() {
    let r = load_state_system(&b"not a catalog".to_vec());
    assert!(matches!(r, Err(PersistenceError::Malformed)));
}

#[test]
fn truncated_document_is_malformed() {
    let r = load_state_system(&b"{\"sheets\":[".to_vec());
    assert!(matches!(r, Err(PersistenceError::Malformed)));
}

#[test]
fn trailing_bytes_are_malformed() {
    let r = load_state_system(&b"{\"sheets\":[]} ".to_vec());
    assert!(matches!(r, Err(PersistenceError::Malformed)));
}

#[test]
fn noncanonical_whitespace_is_malformed() {
    let r = load_state_system(&b"{ \"sheets\": [] }".to_vec());
    assert!(matches!(r, Err(PersistenceError::Malformed)));
}

#[test]
fn oversized_coordinates_are_malformed() {
    let doc = "{\"sheets\":[{\"id\":\"p\",\"image_path\":\"p.png\",\"sprite_sheet_width\":10,\"sprite_sheet_height\":20,\"tile_width\":5,\"tile_height\":5,\"columns\":2,\"rows\":4,\"frames\":[{\"hit_boxes\":[{\"size\":[2147483649,2],\"offset\":[0,0]}],\"hurt_boxes\":[]}]}]}";
    let r = load_state_system(&doc.as_bytes().to_vec());
    assert!(matches!(r, Err(PersistenceError::Malformed)));
}

#[test]
fn leading_zeros_are_malformed() {
    let doc = "{\"sheets\":[{\"id\":\"p\",\"image_path\":\"p.png\",\"sprite_sheet_width\":01,\"sprite_sheet_height\":20,\"tile_width\":5,\"tile_height\":5,\"columns\":2,\"rows\":4,\"frames\":[]}]}";
    let r = load_state_system(&doc.as_bytes().to_vec());
    assert!(matches!(r, Err(PersistenceError::Malformed)));
}

#[test]
fn negative_zero_is_malformed() {
    let doc = "{\"sheets\":[{\"id\":\"p\",\"image_path\":\"p.png\",\"sprite_sheet_width\":10,\"sprite_sheet_height\":20,\"tile_width\":5,\"tile_height\":5,\"columns\":2,\"rows\":4,\"frames\":[{\"hit_boxes\":[{\"size\":[-0,2],\"offset\":[0,0]}],\"hurt_boxes\":[]}]}]}";
    let r = load_state_system(&doc.as_bytes().to_vec());
    assert!(matches!(r, Err(PersistenceError::Malformed)));
}

#[test]
fn numbers_past_the_machine_range_are_malformed() {
    let doc = "{\"sheets\":[{\"id\":\"p\",\"image_path\":\"p.png\",\"sprite_sheet_width\":18446744073709551616,\"sprite_sheet_height\":20,\"tile_width\":5,\"tile_height\":5,\"columns\":2,\"rows\":4,\"frames\":[]}]}";
    let r = load_state_system(&doc.as_bytes().to_vec());
    assert!(matches!(r, Err(PersistenceError::Malformed)));
}

#[test]
fn largest_in_range_values_round_trip() {
    let mut catalog = SpriteSheetsData::new();
    catalog.upsert(SpriteSheetInfo {
        id: b"big".to_vec(),
        image_path: b"big.png".to_vec(),
        sprite_sheet_width: u64::MAX,
        sprite_sheet_height: 0,
        tile_width: u64::MAX,
        tile_height: 1,
        columns: u64::MAX,
        rows: u64::MAX,
        frames: vec![FrameData {
            hit_boxes: vec![HitBox {
                size: vec2(2147483648, -2147483648),
                offset: vec2(-2147483648, 2147483648),
            }],
            hurt_boxes: vec![],
        }],
    });
    let bytes = save_state_system(&catalog);
    let restored = load_state_system(&bytes).unwrap();
    assert_sheets_equal(&catalog.sheets[0], &restored.sheets[0]);
}
