use hitbox_editor::geometry::HitBox;
use hitbox_editor::geometry::HurtBox;
use hitbox_editor::geometry::Vec2i;
use hitbox_editor::sheets::CatalogError;
use hitbox_editor::sheets::FrameData;
use hitbox_editor::sheets::SpriteSheetInfo;
use hitbox_editor::sheets::SpriteSheetsData;

fn vec2(x: i64, y: i64) -> Vec2i {
    Vec2i { x, y }
}

fn frame(hits: Vec<HitBox>, hurts: Vec<HurtBox>) -> FrameData {
    FrameData { hit_boxes: hits, hurt_boxes: hurts }
}

fn sheet(id: &str, columns: u64, rows: u64, frames: Vec<FrameData>) -> SpriteSheetInfo {
    SpriteSheetInfo {
        id: id.as_bytes().to_vec(),
        image_path: format!("sprites/{}.png", id).into_bytes(),
        sprite_sheet_width: 128,
        sprite_sheet_height: 64,
        tile_width: 32,
        tile_height: 32,
        columns,
        rows,
        frames,
    }
}

#[test]
fn upsert_inserts_then_replaces() {
    let mut catalog = SpriteSheetsData::new();
    catalog.upsert(sheet("punch", 4, 1, vec![frame(vec![], vec![])]));
    catalog.upsert(sheet("kick", 2, 1, vec![]));
    assert!(catalog.check_ids_unique());
    assert_eq!(catalog.sheets.len(), 2);
    assert!(catalog.get(&b"punch".to_vec()).is_some());
    assert!(catalog.get(&b"missing".to_vec()).is_none());

    let mut replacement = sheet("punch", 8, 2, vec![]);
    replacement.tile_width = 16;
    catalog.upsert(replacement);
    assert_eq!(catalog.sheets.len(), 2);
    let fetched = catalog.get(&b"punch".to_vec()).unwrap();
    assert_eq!(fetched.columns, 8);
    assert_eq!(fetched.tile_width, 16);
    assert!(catalog.check_ids_unique());
}

#[test]
fn mutate_frame_unknown_sheet_is_not_found() {
    let mut catalog = SpriteSheetsData::new();
    catalog.upsert(sheet("punch", 2, 1, vec![frame(vec![], vec![])]));
    let r = catalog.mutate_frame(&b"missing".to_vec(), 0, frame(vec![], vec![]));
    assert_eq!(r, Err(CatalogError::NotFound));
}

#[test]
fn mutate_frame_out_of_bounds_is_not_found() {
    let mut catalog = SpriteSheetsData::new();
    catalog.upsert(sheet("punch", 2, 1, vec![frame(vec![], vec![])]));
    let r = catalog.mutate_frame(&b"punch".to_vec(), 5, frame(vec![], vec![]));
    assert_eq!(r, Err(CatalogError::NotFound));
    assert_eq!(catalog.get(&b"punch".to_vec()).unwrap().frames.len(), 1);
}

#[test]
fn frame_edit_lands_in_snapshot() {
    let mut catalog = SpriteSheetsData::new();
    catalog.upsert(sheet("punch", 2, 1, vec![frame(vec![], vec![]), frame(vec![], vec![])]));
    let edited = frame(
        vec![HitBox { size: vec2(10, 10), offset: vec2(0, 0) }],
        vec![HurtBox { size: vec2(3, 4), offset: vec2(-1, 2) }],
    );
    catalog.mutate_frame(&b"punch".to_vec(), 1, edited).unwrap();

    let snapshot = catalog.snapshot();
    assert_eq!(snapshot.len(), 1);
    let frames = &snapshot[0].frames;
    assert_eq!(frames.len(), 2);
    assert!(frames[0].hit_boxes.is_empty());
    assert_eq!(frames[1].hit_boxes, vec![HitBox { size: vec2(10, 10), offset: vec2(0, 0) }]);
    assert_eq!(frames[1].hurt_boxes, vec![HurtBox { size: vec2(3, 4), offset: vec2(-1, 2) }]);
}

#[test]
fn duplicate_ids_are_detected() {
    let mut catalog = SpriteSheetsData { sheets: Vec::new() };
    catalog.sheets.push(sheet("punch", 2, 1, vec![]));
    catalog.sheets.push(sheet("punch", 4, 1, vec![]));
    assert!(!catalog.check_ids_unique());
}

#[test]
fn scaled_multiplies_componentwise() {
    let hit = HitBox { size: vec2(10, 12), offset: vec2(-3, 5) };
    let scaled = hit.scaled(vec2(6, 2));
    assert_eq!(scaled.size, vec2(60, 24));
    assert_eq!(scaled.offset, vec2(-18, 10));

    let hurt = HurtBox { size: vec2(7, 7), offset: vec2(1, -1) };
    let zero = hurt.scaled(vec2(0, 0));
    assert_eq!(zero.size, vec2(0, 0));
    assert_eq!(zero.offset, vec2(0, 0));
}
