use hitbox_editor::mode::GameMode;
use hitbox_editor::mode::GameState;
use hitbox_editor::mode::mode_switching_system;
use hitbox_editor::mode::toggle_mode;
use hitbox_editor::runtime::AnimationIndices;
use hitbox_editor::runtime::EditorGuiSpace;
use hitbox_editor::runtime::Lifetime;
use hitbox_editor::runtime::RuntimeHandles;
use hitbox_editor::runtime::animate_sprite;
use hitbox_editor::runtime::display_selected_sprite_sheet;
use hitbox_editor::runtime::game_state_adapter_system;
use hitbox_editor::runtime::next_sprite_index;
use hitbox_editor::runtime::prev_sprite_index;
use hitbox_editor::runtime::spawn_editor_camera;
use hitbox_editor::runtime::spawn_overlays;
use hitbox_editor::runtime::update_camera_transform;
use hitbox_editor::runtime::update_lifetimes;
use hitbox_editor::selection::GameSelectedSpriteSheet;
use hitbox_editor::selection::SelectedFrame;
use hitbox_editor::sheets::FrameData;
use hitbox_editor::sheets::SpriteSheetInfo;
use hitbox_editor::sheets::SpriteSheetsData;

fn sheet(id: &str, columns: u64, frame_count: usize) -> SpriteSheetInfo {
    let mut frames = Vec::new();
    for _ in 0..frame_count {
        frames.push(FrameData { hit_boxes: vec![], hurt_boxes: vec![] });
    }
    SpriteSheetInfo {
        id: id.as_bytes().to_vec(),
        image_path: format!("sprites/{}.png", id).into_bytes(),
        sprite_sheet_width: columns * 32,
        sprite_sheet_height: 32,
        tile_width: 32,
        tile_height: 32,
        columns,
        rows: 1,
        frames,
    }
}

fn editor_state() -> GameState {
    GameState { mode: GameMode::Editor }
}

fn game_state() -> GameState {
    GameState { mode: GameMode::Game }
}

fn handle_tuple(h: &RuntimeHandles) -> (Option<u64>, Option<u64>, Option<u64>, Option<u64>, u64) {
    (
        h.editor_camera.entity,
        h.game_camera.entity,
        h.current_sprite.entity,
        h.player.as_ref().map(|p| p.entity),
        h.next_entity,
    )
}

#[test]
fn mode_keys_switch_modes() {
    let mut state = GameState::default();
    assert_eq!(state.mode, GameMode::Editor);
    mode_switching_system(&mut state, false, true);
    assert_eq!(state.mode, GameMode::Game);
    mode_switching_system(&mut state, false, false);
    assert_eq!(state.mode, GameMode::Game);
    mode_switching_system(&mut state, true, false);
    assert_eq!(state.mode, GameMode::Editor);
    // The editor key wins when both are seen in one tick.
    mode_switching_system(&mut state, true, true);
    assert_eq!(state.mode, GameMode::Editor);
    toggle_mode(&mut state);
    assert_eq!(state.mode, GameMode::Game);
    toggle_mode(&mut state);
    assert_eq!(state.mode, GameMode::Editor);
    assert_eq!(state.mode.label(), "Editor");
    assert_eq!(game_state().mode.label(), "Game");
}

#[test]
fn switching_to_game_twice_changes_nothing() {
    let mut catalog = SpriteSheetsData::new();
    catalog.upsert(sheet("punch", 4, 4));
    let mut selection = SelectedFrame::default();
    selection.select_sheet(b"punch".to_vec());

    let mut handles = RuntimeHandles::new();
    game_state_adapter_system(&game_state(), &selection, &catalog, &mut handles);
    let once = handle_tuple(&handles);
    assert!(handles.game_camera.entity.is_some());
    assert!(handles.player.is_some());
    game_state_adapter_system(&game_state(), &selection, &catalog, &mut handles);
    assert_eq!(handle_tuple(&handles), once);
}

#[test]
fn switching_to_editor_twice_changes_nothing() {
    let catalog = SpriteSheetsData::new();
    let selection = SelectedFrame::default();
    let mut handles = RuntimeHandles::new();
    game_state_adapter_system(&game_state(), &selection, &catalog, &mut handles);
    game_state_adapter_system(&editor_state(), &selection, &catalog, &mut handles);
    let once = handle_tuple(&handles);
    assert!(handles.editor_camera.entity.is_some());
    assert!(handles.game_camera.entity.is_none());
    assert!(handles.player.is_none());
    game_state_adapter_system(&editor_state(), &selection, &catalog, &mut handles);
    assert_eq!(handle_tuple(&handles), once);
}

#[test]
fn rapid_mode_toggling_never_duplicates_the_player() {
    let mut catalog = SpriteSheetsData::new();
    catalog.upsert(sheet("punch", 4, 4));
    let mut selection = SelectedFrame::default();
    selection.select_sheet(b"punch".to_vec());

    let mut handles = RuntimeHandles::new();
    let script = [
        GameMode::Game,
        GameMode::Game,
        GameMode::Editor,
        GameMode::Game,
        GameMode::Game,
        GameMode::Editor,
        GameMode::Editor,
        GameMode::Game,
    ];
    for mode in script {
        let state = GameState { mode };
        game_state_adapter_system(&state, &selection, &catalog, &mut handles);
        let live_players = if handles.player.is_some() { 1 } else { 0 };
        assert!(live_players <= 1);
        // A player only ever lives beside the game camera.
        if handles.player.is_some() {
            assert!(handles.game_camera.entity.is_some());
        }
    }
}

#[test]
fn entering_game_without_selection_spawns_a_bare_camera() {
    let catalog = SpriteSheetsData::new();
    let selection = SelectedFrame::default();
    let mut handles = RuntimeHandles::new();
    game_state_adapter_system(&game_state(), &selection, &catalog, &mut handles);
    assert!(handles.game_camera.entity.is_some());
    assert!(handles.player.is_none());
    assert!(handles.editor_camera.entity.is_none());
}

#[test]
fn player_starts_on_the_first_non_neutral_tile() {
    let mut catalog = SpriteSheetsData::new();
    catalog.upsert(sheet("walk", 7, 7));
    let mut selection = SelectedFrame::default();
    selection.select_sheet(b"walk".to_vec());
    let mut handles = RuntimeHandles::new();
    game_state_adapter_system(&game_state(), &selection, &catalog, &mut handles);
    let player = handles.player.as_ref().unwrap();
    assert_eq!(player.sheet_id, b"walk".to_vec());
    assert_eq!(player.indices.first, 1);
    assert_eq!(player.indices.last, 6);
    assert_eq!(player.atlas_index, 1);
    assert_eq!(player.timer.duration_ms, 200);
}

#[test]
fn frame_index_wraps_to_one_never_zero() {
    // A sheet with seven columns: the cycle runs over tiles 1..=6.
    let mut catalog = SpriteSheetsData::new();
    catalog.upsert(sheet("walk", 7, 7));
    let mut selection = SelectedFrame::default();
    selection.select_sheet(b"walk".to_vec());
    let mut handles = RuntimeHandles::new();
    game_state_adapter_system(&game_state(), &selection, &catalog, &mut handles);

    // Advance the clock five times: 1 -> 2 -> ... -> 6.
    for _ in 0..5 {
        animate_sprite(&game_state(), &mut handles, 200);
    }
    assert_eq!(handles.player.as_ref().unwrap().atlas_index, 6);
    // From the last tile the cycle returns to tile 1, not to tile 0.
    animate_sprite(&game_state(), &mut handles, 200);
    assert_eq!(handles.player.as_ref().unwrap().atlas_index, 1);

    // The same wrap drives the editor's sprite navigation.
    let indices = AnimationIndices { first: 1, last: 6 };
    assert_eq!(next_sprite_index(6, indices), 1);
    assert_eq!(next_sprite_index(3, indices), 4);
    assert_eq!(prev_sprite_index(1, indices), 6);
    assert_eq!(prev_sprite_index(4, indices), 3);
}

#[test]
fn short_ticks_accumulate_before_the_clock_fires() {
    let mut catalog = SpriteSheetsData::new();
    catalog.upsert(sheet("walk", 3, 3));
    let mut selection = SelectedFrame::default();
    selection.select_sheet(b"walk".to_vec());
    let mut handles = RuntimeHandles::new();
    game_state_adapter_system(&game_state(), &selection, &catalog, &mut handles);

    animate_sprite(&game_state(), &mut handles, 150);
    assert_eq!(handles.player.as_ref().unwrap().atlas_index, 1);
    animate_sprite(&game_state(), &mut handles, 60);
    assert_eq!(handles.player.as_ref().unwrap().atlas_index, 2);
    // Outside Game mode the clock is left alone.
    animate_sprite(&editor_state(), &mut handles, 10_000);
    assert_eq!(handles.player.as_ref().unwrap().atlas_index, 2);
}

#[test]
fn overlays_expire_after_their_lifetime() {
    let mut handles = RuntimeHandles::new();
    let mut overlays: Vec<Lifetime> = Vec::new();
    spawn_overlays(&mut handles, &mut overlays, 3);
    assert_eq!(overlays.len(), 3);
    assert_eq!(overlays[0].entity, 0);
    assert_eq!(overlays[2].entity, 2);
    assert_eq!(handles.next_entity, 3);

    update_lifetimes(&mut overlays, 4);
    assert_eq!(overlays.len(), 3);
    update_lifetimes(&mut overlays, 6);
    assert_eq!(overlays.len(), 0);
}

#[test]
fn mixed_overlay_ages_expire_independently() {
    let mut overlays = vec![
        Lifetime { entity: 7, elapsed_ms: 9, lifetime_ms: 10 },
        Lifetime { entity: 8, elapsed_ms: 0, lifetime_ms: 10 },
    ];
    update_lifetimes(&mut overlays, 5);
    assert_eq!(overlays.len(), 1);
    assert_eq!(overlays[0].entity, 8);
    assert_eq!(overlays[0].elapsed_ms, 5);
}

#[test]
fn editor_camera_spawns_once_per_call() {
    let mut handles = RuntimeHandles::new();
    spawn_editor_camera(&mut handles);
    assert_eq!(handles.editor_camera.entity, Some(0));
    assert_eq!(handles.next_entity, 1);
}

#[test]
fn editor_display_entity_is_replaced_each_tick() {
    let mut catalog = SpriteSheetsData::new();
    catalog.upsert(sheet("punch", 2, 2));
    let mut selection = SelectedFrame::default();
    selection.select_sheet(b"punch".to_vec());
    let mut handles = RuntimeHandles::new();

    display_selected_sprite_sheet(&editor_state(), &selection, &catalog, &mut handles);
    let first = handles.current_sprite.entity;
    assert!(first.is_some());
    display_selected_sprite_sheet(&editor_state(), &selection, &catalog, &mut handles);
    let second = handles.current_sprite.entity;
    assert!(second.is_some());
    assert_ne!(first, second);

    let empty_selection = SelectedFrame::default();
    display_selected_sprite_sheet(&editor_state(), &empty_selection, &catalog, &mut handles);
    assert!(handles.current_sprite.entity.is_none());
}

#[test]
fn camera_offset_follows_the_panels() {
    let editor = editor_state();
    let game = game_state();
    assert_eq!(update_camera_transform(&editor, &EditorGuiSpace { left: 100, right: 300 }), 100);
    assert_eq!(update_camera_transform(&editor, &EditorGuiSpace { left: 300, right: 100 }), -100);
    assert_eq!(update_camera_transform(&editor, &EditorGuiSpace::default()), 0);
    assert_eq!(update_camera_transform(&game, &EditorGuiSpace { left: 100, right: 300 }), 0);
}

#[test]
fn game_selection_adopts_the_authors_choice() {
    let defaulted = GameSelectedSpriteSheet::default();
    assert!(defaulted.id.is_none());
    assert_eq!(defaulted.frame_index, Some(0));

    let mut selection = SelectedFrame::default();
    selection.select_sheet(b"punch".to_vec());
    selection.select_frame(3);
    let adopted = GameSelectedSpriteSheet::from_selection(&selection);
    assert_eq!(adopted.id, Some(b"punch".to_vec()));
    assert_eq!(adopted.frame_index, Some(3));
}
