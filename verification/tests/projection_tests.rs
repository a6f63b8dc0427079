use hitbox_editor::geometry::HitBox;
use hitbox_editor::geometry::HurtBox;
use hitbox_editor::geometry::Vec2i;
use hitbox_editor::mode::CoreGuiState;
use hitbox_editor::mode::GameMode;
use hitbox_editor::mode::GameState;
use hitbox_editor::mode::mode_switching_system;
use hitbox_editor::persistence::load_state_system;
use hitbox_editor::projection::project_editor_regions;
use hitbox_editor::projection::project_game_regions;
use hitbox_editor::runtime::RuntimeHandles;
use hitbox_editor::runtime::animate_sprite;
use hitbox_editor::runtime::game_state_adapter_system;
use hitbox_editor::selection::SelectedFrame;
use hitbox_editor::sheets::FrameData;
use hitbox_editor::sheets::SpriteSheetInfo;
use hitbox_editor::sheets::SpriteSheetsData;

fn vec2(x: i64, y: i64) -> Vec2i {
    Vec2i { x, y }
}

fn three_frame_sheet() -> SpriteSheetInfo {
    SpriteSheetInfo {
        id: b"walk".to_vec(),
        image_path: b"sprites/walk.png".to_vec(),
        sprite_sheet_width: 96,
        sprite_sheet_height: 32,
        tile_width: 32,
        tile_height: 32,
        columns: 3,
        rows: 1,
        frames: vec![
            FrameData { hit_boxes: vec![], hurt_boxes: vec![] },
            FrameData {
                hit_boxes: vec![HitBox { size: vec2(4, 4), offset: vec2(1, 1) }],
                hurt_boxes: vec![HurtBox { size: vec2(8, 8), offset: vec2(0, 0) }],
            },
            FrameData { hit_boxes: vec![], hurt_boxes: vec![] },
        ],
    }
}

fn both_toggles() -> CoreGuiState {
    CoreGuiState { show_hit_boxes: true, show_hurt_boxes: true }
}

#[test]
fn out_of_range_frame_yields_no_regions() {
    // The sheet has three frames; asking for frame five is not an error,
    // it simply projects nothing.
    let mut catalog = SpriteSheetsData::new();
    catalog.upsert(three_frame_sheet());
    let projected = project_game_regions(
        &catalog,
        &Some(b"walk".to_vec()),
        5,
        vec2(1, 1),
        &both_toggles(),
    );
    assert!(projected.hits.is_empty());
    assert!(projected.hurts.is_empty());
}

#[test]
fn unknown_sheet_yields_no_regions() {
    let catalog = SpriteSheetsData::new();
    let projected = project_game_regions(
        &catalog,
        &Some(b"missing".to_vec()),
        0,
        vec2(1, 1),
        &both_toggles(),
    );
    assert!(projected.hits.is_empty());
    assert!(projected.hurts.is_empty());
}

#[test]
fn toggles_filter_the_projection() {
    let mut catalog = SpriteSheetsData::new();
    catalog.upsert(three_frame_sheet());
    let only_hits = CoreGuiState { show_hit_boxes: true, show_hurt_boxes: false };
    let projected = project_game_regions(&catalog, &Some(b"walk".to_vec()), 1, vec2(2, 2), &only_hits);
    assert_eq!(projected.hits, vec![HitBox { size: vec2(8, 8), offset: vec2(2, 2) }]);
    assert!(projected.hurts.is_empty());
}

#[test]
fn editor_projection_follows_the_selection() {
    let mut catalog = SpriteSheetsData::new();
    catalog.upsert(three_frame_sheet());
    let mut selection = SelectedFrame::default();
    selection.select_sheet(b"walk".to_vec());
    selection.select_frame(1);
    let projected = project_editor_regions(&catalog, &selection, vec2(6, 6));
    assert_eq!(projected.hits, vec![HitBox { size: vec2(24, 24), offset: vec2(6, 6) }]);
    assert_eq!(projected.hurts, vec![HurtBox { size: vec2(48, 48), offset: vec2(0, 0) }]);

    let nothing = project_editor_regions(&catalog, &SelectedFrame::default(), vec2(6, 6));
    assert!(nothing.hits.is_empty());
    assert!(nothing.hurts.is_empty());
}

#[test]
fn stale_selection_is_invalidated() {
    // A selection pointing at a sheet that has left the catalog is cleared
    // whole, index included.
    let mut catalog = SpriteSheetsData::new();
    catalog.upsert(three_frame_sheet());
    let mut selection = SelectedFrame::default();
    selection.select_sheet(b"A".to_vec());
    selection.select_frame(2);
    assert_eq!(selection.sprite_sheet_id, Some(b"A".to_vec()));
    assert_eq!(selection.frame_index, Some(2));

    selection.invalidate_if_missing(&catalog);
    assert!(selection.sprite_sheet_id.is_none());
    assert!(selection.frame_index.is_none());

    // A selection whose sheet still exists is left alone.
    let mut kept = SelectedFrame::default();
    kept.select_sheet(b"walk".to_vec());
    kept.select_frame(1);
    kept.invalidate_if_missing(&catalog);
    assert_eq!(kept.sprite_sheet_id, Some(b"walk".to_vec()));
    assert_eq!(kept.frame_index, Some(1));
}

#[test]
fn punch_scenario_projects_the_scaled_hit_region() {
    // One sheet "punch" with two frames; frame 1 carries a single hit
    // region of size (10,10) at offset (0,0).
    let doc = "{\"sheets\":[{\"id\":\"punch\",\"image_path\":\"sprites/punch.png\",\"sprite_sheet_width\":64,\"sprite_sheet_height\":32,\"tile_width\":32,\"tile_height\":32,\"columns\":2,\"rows\":1,\"frames\":[{\"hit_boxes\":[],\"hurt_boxes\":[]},{\"hit_boxes\":[{\"size\":[10,10],\"offset\":[0,0]}],\"hurt_boxes\":[]}]}]}";
    let catalog = load_state_system(&doc.as_bytes().to_vec()).unwrap();
    assert!(catalog.check_ids_unique());

    let mut selection = SelectedFrame::default();
    selection.select_sheet(b"punch".to_vec());
    selection.select_frame(1);

    let mut state = GameState::default();
    mode_switching_system(&mut state, false, true);
    assert_eq!(state.mode, GameMode::Game);

    let mut handles = RuntimeHandles::new();
    game_state_adapter_system(&state, &selection, &catalog, &mut handles);
    animate_sprite(&state, &mut handles, 200);

    let player = handles.player.as_ref().unwrap();
    assert_eq!(player.atlas_index, 1);
    let projected = project_game_regions(
        &catalog,
        &Some(player.sheet_id.clone()),
        player.atlas_index as usize,
        vec2(6, 6),
        &both_toggles(),
    );
    assert_eq!(projected.hits, vec![HitBox { size: vec2(60, 60), offset: vec2(0, 0) }]);
    assert!(projected.hurts.is_empty());
}
