//! Handles for the runtime objects each mode needs, and the deterministic
//! transitions that create and destroy them.
//!
//! The machine owns at most one editor camera, one game camera, one displayed
//! sprite entity, and one animated playback entity.  Entity identifiers are
//! drawn from a private counter, so every handle ever issued is distinct; the
//! embedding layer mirrors handle changes onto real engine entities.
//!
//! Reconciliation runs once per tick and is idempotent: switching to the mode
//! already active changes nothing (see [`lemma_mode_switch_idempotent`]), and
//! no sequence of switches can ever leave two animated entities alive (see
//! [`lemma_no_duplicate_animated_entity`]).

use vstd::prelude::*;

use crate::mode::GameMode;
use crate::mode::GameState;
use crate::selection::SelectedFrame;
use crate::selection::SelectionView;
use crate::sheets::SheetView;
use crate::sheets::SpriteSheetsData;
use crate::sheets::clone_bytes;
use crate::sheets::spec_find_index;

verus! {

/// The fixed animation-clock interval, in milliseconds.
pub const ANIMATION_INTERVAL_MS: u64 = 200;

/// How long one transient overlay entity lives, in milliseconds.
pub const OVERLAY_LIFETIME_MS: u64 = 10;

/// The camera used while authoring in `Editor` mode.
#[derive(Clone, Copy, Debug, PartialEq, Eq, Structural)]
pub struct EditorCamera {
    pub entity: Option<u64>,
}

/// The camera spawned on entry to `Game` mode.
#[derive(Clone, Copy, Debug, PartialEq, Eq, Structural)]
pub struct GameCameraEntity {
    pub entity: Option<u64>,
}

/// The entity displaying the currently selected frame in `Editor` mode.
#[derive(Clone, Copy, Debug, PartialEq, Eq, Structural)]
pub struct EditorSpriteSheet {
    pub entity: Option<u64>,
}

impl Default for EditorCamera {
    fn default() -> (r: Self)
        ensures
            r.entity is None,
    {
        EditorCamera { entity: None }
    }
}

impl Default for GameCameraEntity {
    fn default() -> (r: Self)
        ensures
            r.entity is None,
    {
        GameCameraEntity { entity: None }
    }
}

impl Default for EditorSpriteSheet {
    fn default() -> (r: Self)
        ensures
            r.entity is None,
    {
        EditorSpriteSheet { entity: None }
    }
}

/// The cycling range of tile indices for an animated entity: tile `0` is the
/// neutral pose and stays out of the cycle, which runs from `first` to `last`.
#[derive(Clone, Copy, Debug, PartialEq, Eq, Structural)]
pub struct AnimationIndices {
    pub first: u64,
    pub last: u64,
}

/// A repeating animation clock: it fires whenever `elapsed_ms` reaches
/// `duration_ms`, then starts over with the remainder.
#[derive(Clone, Copy, Debug, PartialEq, Eq, Structural)]
pub struct AnimationTimer {
    pub elapsed_ms: u64,
    pub duration_ms: u64,
}

/// The animated playback entity: its handle, the sheet it plays, its cycling
/// range, its clock, and the tile it currently shows.
pub struct PlayerEntity {
    pub entity: u64,
    pub sheet_id: Vec<u8>,
    pub indices: AnimationIndices,
    pub timer: AnimationTimer,
    pub atlas_index: u64,
}

/// The mathematical value of a [`PlayerEntity`].
#[verifier::ext_equal]
pub ghost struct PlayerView {
    pub entity: u64,
    pub sheet_id: Seq<u8>,
    pub indices: AnimationIndices,
    pub timer: AnimationTimer,
    pub atlas_index: u64,
}

impl View for PlayerEntity {
    type V = PlayerView;

    open spec fn view(&self) -> PlayerView {
        PlayerView {
            entity: self.entity,
            sheet_id: self.sheet_id@,
            indices: self.indices,
            timer: self.timer,
            atlas_index: self.atlas_index,
        }
    }
}

/// A transient overlay entity together with its countdown.
#[derive(Clone, Copy, Debug, PartialEq, Eq, Structural)]
pub struct Lifetime {
    pub entity: u64,
    pub elapsed_ms: u64,
    pub lifetime_ms: u64,
}

/// Every runtime object the mode machine owns, plus the entity counter that
/// keeps all issued handles distinct.
pub struct RuntimeHandles {
    pub editor_camera: EditorCamera,
    pub game_camera: GameCameraEntity,
    pub current_sprite: EditorSpriteSheet,
    pub player: Option<PlayerEntity>,
    pub next_entity: u64,
}

/// The mathematical value of a [`RuntimeHandles`].
#[verifier::ext_equal]
pub ghost struct HandlesView {
    pub editor_camera: Option<u64>,
    pub game_camera: Option<u64>,
    pub current_sprite: Option<u64>,
    pub player: Option<PlayerView>,
    pub next_entity: u64,
}

impl View for RuntimeHandles {
    type V = HandlesView;

    open spec fn view(&self) -> HandlesView {
        HandlesView {
            editor_camera: self.editor_camera.entity,
            game_camera: self.game_camera.entity,
            current_sprite: self.current_sprite.entity,
            player: match self.player {
                Some(ref p) => Some(p@),
                None => None,
            },
            next_entity: self.next_entity,
        }
    }
}

impl RuntimeHandles {
    /// At startup nothing is spawned and the counter starts at zero.
    pub fn new() -> (r: RuntimeHandles)
        ensures
            r@ == spec_initial_handles(),
    {
        RuntimeHandles {
            editor_camera: EditorCamera { entity: None },
            game_camera: GameCameraEntity { entity: None },
            current_sprite: EditorSpriteSheet { entity: None },
            player: None,
            next_entity: 0,
        }
    }
}

/// The machine's starting state.
pub open spec fn spec_initial_handles() -> HandlesView {
    HandlesView {
        editor_camera: None,
        game_camera: None,
        current_sprite: None,
        player: None,
        next_entity: 0,
    }
}

/// A playback entity's private invariant: a cycle that starts past the
/// neutral tile, a tile inside the cycle, and a running clock.
pub open spec fn wf_player(p: PlayerView) -> bool {
    &&& 1 <= p.indices.first <= p.indices.last
    &&& p.indices.first <= p.atlas_index <= p.indices.last
    &&& p.timer.duration_ms > 0
    &&& p.timer.elapsed_ms < p.timer.duration_ms
}

/// The machine's invariant: every issued handle is below the counter, all
/// live handles are pairwise distinct, and a playback entity only exists
/// beside its game camera.
pub open spec fn wf_handles(h: HandlesView) -> bool {
    &&& (h.editor_camera is Some ==> h.editor_camera->Some_0 < h.next_entity)
    &&& (h.game_camera is Some ==> h.game_camera->Some_0 < h.next_entity)
    &&& (h.current_sprite is Some ==> h.current_sprite->Some_0 < h.next_entity)
    &&& (h.player is Some ==> h.player->Some_0.entity < h.next_entity && wf_player(h.player->Some_0))
    &&& (h.editor_camera is Some && h.game_camera is Some ==> h.editor_camera->Some_0
        != h.game_camera->Some_0)
    &&& (h.editor_camera is Some && h.current_sprite is Some ==> h.editor_camera->Some_0
        != h.current_sprite->Some_0)
    &&& (h.editor_camera is Some && h.player is Some ==> h.editor_camera->Some_0
        != h.player->Some_0.entity)
    &&& (h.game_camera is Some && h.current_sprite is Some ==> h.game_camera->Some_0
        != h.current_sprite->Some_0)
    &&& (h.game_camera is Some && h.player is Some ==> h.game_camera->Some_0
        != h.player->Some_0.entity)
    &&& (h.current_sprite is Some && h.player is Some ==> h.current_sprite->Some_0
        != h.player->Some_0.entity)
    &&& (h.player is Some ==> h.game_camera is Some)
}

/// How many animated entities are live: zero or one, never more.
pub open spec fn player_count(h: HandlesView) -> nat {
    if h.player is Some {
        1
    } else {
        0
    }
}

/// Spawning the editor camera: the freshly issued handle replaces whatever
/// was recorded.  With the counter exhausted nothing is spawned.
pub open spec fn spec_spawn_editor_camera(h: HandlesView) -> HandlesView {
    if h.next_entity < u64::MAX {
        HandlesView {
            editor_camera: Some(h.next_entity),
            next_entity: (h.next_entity + 1) as u64,
            ..h
        }
    } else {
        h
    }
}

/// Entry to `Editor` mode: the animated entity and the game camera are
/// despawned (in either order — they are unrelated resources), and an editor
/// camera is spawned if none exists.
pub open spec fn spec_enter_editor(h: HandlesView) -> HandlesView {
    let torn = HandlesView { game_camera: None, player: None, ..h };
    if torn.editor_camera is None {
        spec_spawn_editor_camera(torn)
    } else {
        torn
    }
}

/// Whether the selection names a sheet of the catalog whose grid has at least
/// one tile past the neutral pose, so that a playback entity can be spawned.
pub open spec fn playable_selection(sel: SelectionView, cat: Seq<SheetView>) -> bool {
    sel.sprite_sheet_id matches Some(id) && spec_find_index(cat, id) >= 0 && cat[spec_find_index(
        cat,
        id,
    )].columns >= 2
}

/// Entry to `Game` mode: the editor's display entity and camera are despawned;
/// if the game camera already exists the entry is a no-op past that (the
/// idempotent entry guard); otherwise one game camera is spawned and — when a
/// playable sheet is selected and no animated entity exists — one animated
/// entity bound to that sheet, starting at the first non-neutral tile with a
/// fresh repeating clock.  With nothing selected the camera still spawns
/// alone: a degraded state, not a failure.
pub open spec fn spec_enter_game(sel: SelectionView, cat: Seq<SheetView>, h: HandlesView) -> HandlesView {
    let torn = HandlesView { current_sprite: None, editor_camera: None, ..h };
    if torn.game_camera is Some {
        torn
    } else if h.next_entity <= u64::MAX - 2 {
        let with_camera = HandlesView {
            game_camera: Some(torn.next_entity),
            next_entity: (torn.next_entity + 1) as u64,
            ..torn
        };
        if playable_selection(sel, cat) && torn.player is None {
            let sheet = cat[spec_find_index(cat, sel.sprite_sheet_id->Some_0)];
            HandlesView {
                player: Some(
                    PlayerView {
                        entity: with_camera.next_entity,
                        sheet_id: sheet.id,
                        indices: AnimationIndices { first: 1, last: (sheet.columns - 1) as u64 },
                        timer: AnimationTimer { elapsed_ms: 0, duration_ms: ANIMATION_INTERVAL_MS },
                        atlas_index: 1,
                    },
                ),
                next_entity: (with_camera.next_entity + 1) as u64,
                ..with_camera
            }
        } else {
            with_camera
        }
    } else {
        torn
    }
}

/// One reconciliation step, run once per tick after the mode switch logic.
pub open spec fn spec_adapter_step(
    mode: GameMode,
    sel: SelectionView,
    cat: Seq<SheetView>,
    h: HandlesView,
) -> HandlesView {
    match mode {
        GameMode::Editor => spec_enter_editor(h),
        GameMode::Game => spec_enter_game(sel, cat, h),
    }
}

/// Spawns the editor camera and records its handle.
pub fn spawn_editor_camera(handles: &mut RuntimeHandles)
    ensures
        final(handles)@ == spec_spawn_editor_camera(old(handles)@),
{
    if handles.next_entity < u64::MAX {
        handles.editor_camera.entity = Some(handles.next_entity);
        handles.next_entity = handles.next_entity + 1;
    }
}

/// Reconciles the runtime objects with the current mode: exactly
/// [`spec_adapter_step`], preserving the machine invariant.
pub fn game_state_adapter_system(
    game_state: &GameState,
    selection: &SelectedFrame,
    catalog: &SpriteSheetsData,
    handles: &mut RuntimeHandles,
)
    ensures
        final(handles)@ == spec_adapter_step(game_state.mode, selection@, catalog@, old(handles)@),
        wf_handles(old(handles)@) ==> wf_handles(final(handles)@),
{
    proof {
        if wf_handles(handles@) {
            lemma_adapter_step_wf(game_state.mode, selection@, catalog@, handles@);
        }
    }
    match game_state.mode {
        GameMode::Editor => {
            handles.game_camera.entity = None;
            handles.player = None;
            if handles.editor_camera.entity.is_none() {
                spawn_editor_camera(handles);
            }
            proof {
                assert(handles@ =~= spec_adapter_step(
                    game_state.mode,
                    selection@,
                    catalog@,
                    old(handles)@,
                ));
            }
        },
        GameMode::Game => {
            handles.current_sprite.entity = None;
            handles.editor_camera.entity = None;
            if handles.game_camera.entity.is_none() && handles.next_entity <= u64::MAX - 2 {
                handles.game_camera.entity = Some(handles.next_entity);
                handles.next_entity = handles.next_entity + 1;
                let playable = match selection.sprite_sheet_id {
                    Some(ref id) => match catalog.get(id) {
                        Some(sheet) => sheet.columns >= 2,
                        None => false,
                    },
                    None => false,
                };
                if playable && handles.player.is_none() {
                    proof {
                        if selection@.sprite_sheet_id is Some {
                            crate::sheets::lemma_find_index(
                                catalog@,
                                selection@.sprite_sheet_id->Some_0,
                            );
                        }
                    }
                    let id = match selection.sprite_sheet_id {
                        Some(ref id) => clone_bytes(id),
                        None => Vec::new(),
                    };
                    let columns = match catalog.get(&id) {
                        Some(sheet) => sheet.columns,
                        None => 2,
                    };
                    handles.player = Some(
                        PlayerEntity {
                            entity: handles.next_entity,
                            sheet_id: id,
                            indices: AnimationIndices { first: 1, last: columns - 1 },
                            timer: AnimationTimer {
                                elapsed_ms: 0,
                                duration_ms: ANIMATION_INTERVAL_MS,
                            },
                            atlas_index: 1,
                        },
                    );
                    handles.next_entity = handles.next_entity + 1;
                }
            }
            proof {
                assert(handles@ =~= spec_adapter_step(
                    game_state.mode,
                    selection@,
                    catalog@,
                    old(handles)@,
                ));
            }
        },
    }
}

/// One reconciliation step preserves the machine invariant.
pub proof fn lemma_adapter_step_wf(
    mode: GameMode,
    sel: SelectionView,
    cat: Seq<SheetView>,
    h: HandlesView,
)
    requires
        wf_handles(h),
    ensures
        wf_handles(spec_adapter_step(mode, sel, cat, h)),
{
    match mode {
        GameMode::Editor => {
            let torn = HandlesView { game_camera: None, player: None, ..h };
            assert(wf_handles(torn));
            assert(wf_handles(spec_spawn_editor_camera(torn)));
        },
        GameMode::Game => {
            let torn = HandlesView { current_sprite: None, editor_camera: None, ..h };
            assert(wf_handles(torn));
            if torn.game_camera is None && h.next_entity <= u64::MAX - 2 {
                let with_camera = HandlesView {
                    game_camera: Some(torn.next_entity),
                    next_entity: (torn.next_entity + 1) as u64,
                    ..torn
                };
                assert(wf_handles(with_camera));
                if playable_selection(sel, cat) && torn.player is None {
                    let sheet = cat[spec_find_index(cat, sel.sprite_sheet_id->Some_0)];
                    assert(sheet.columns >= 2);
                    assert(wf_handles(spec_enter_game(sel, cat, h)));
                }
            }
        },
    }
}

/// Switching to a mode already reached is a no-op: applying the same
/// reconciliation twice in a row yields exactly the runtime-handle state that
/// applying it once yields.
pub proof fn lemma_mode_switch_idempotent(
    mode: GameMode,
    sel: SelectionView,
    cat: Seq<SheetView>,
    h: HandlesView,
)
    ensures
        spec_adapter_step(mode, sel, cat, spec_adapter_step(mode, sel, cat, h))
            == spec_adapter_step(mode, sel, cat, h),
{
    let once = spec_adapter_step(mode, sel, cat, h);
    let twice = spec_adapter_step(mode, sel, cat, once);
    assert(twice =~= once);
}

/// The inputs one tick reacts to: the mode reached, the author's selection,
/// and the catalog contents at that tick.
#[verifier::ext_equal]
pub ghost struct TickInput {
    pub mode: GameMode,
    pub sel: SelectionView,
    pub cat: Seq<SheetView>,
}

/// The handle state after reconciling each input of `inputs` in order,
/// starting from `h`.
pub open spec fn spec_run_adapter(h: HandlesView, inputs: Seq<TickInput>) -> HandlesView
    decreases inputs.len(),
{
    if inputs.len() == 0 {
        h
    } else {
        let prev = spec_run_adapter(h, inputs.drop_last());
        spec_adapter_step(inputs.last().mode, inputs.last().sel, inputs.last().cat, prev)
    }
}

/// After any sequence of mode switches from a well-formed start, the machine
/// invariant still holds and at most one animated entity is live.
pub proof fn lemma_no_duplicate_animated_entity(h: HandlesView, inputs: Seq<TickInput>)
    requires
        wf_handles(h),
    ensures
        wf_handles(spec_run_adapter(h, inputs)),
        player_count(spec_run_adapter(h, inputs)) <= 1,
    decreases inputs.len(),
{
    if inputs.len() > 0 {
        lemma_no_duplicate_animated_entity(h, inputs.drop_last());
        lemma_adapter_step_wf(
            inputs.last().mode,
            inputs.last().sel,
            inputs.last().cat,
            spec_run_adapter(h, inputs.drop_last()),
        );
    }
}

/// `a + b`, stopping at the largest `u64`.
pub open spec fn add_sat(a: u64, b: u64) -> u64 {
    if a + b > u64::MAX {
        u64::MAX
    } else {
        (a + b) as u64
    }
}

/// The tile shown after one firing of the animation clock: the next tile of
/// the cycle, wrapping from the last addressable tile back to the first
/// non-neutral one — never to the neutral tile `0`.
pub open spec fn next_tile(index: u64, indices: AnimationIndices) -> u64 {
    if index == indices.last {
        indices.first
    } else {
        (index + 1) as u64
    }
}

/// The clock and fired-flag after `delta_ms` elapses.
pub open spec fn spec_timer_tick(t: AnimationTimer, delta_ms: u64) -> (AnimationTimer, bool)
    recommends
        t.duration_ms > 0,
{
    let sum = add_sat(t.elapsed_ms, delta_ms);
    if t.duration_ms == 0 {
        (AnimationTimer { elapsed_ms: sum, ..t }, false)
    } else {
        (AnimationTimer { elapsed_ms: (sum % t.duration_ms) as u64, ..t }, sum >= t.duration_ms)
    }
}

/// The playback entity after `delta_ms` elapses in `Game` mode.
pub open spec fn spec_animate_player(p: PlayerView, delta_ms: u64) -> PlayerView {
    let (timer, fired) = spec_timer_tick(p.timer, delta_ms);
    PlayerView {
        timer,
        atlas_index: if fired {
            next_tile(p.atlas_index, p.indices)
        } else {
            p.atlas_index
        },
        ..p
    }
}

/// Advances the animation clock of the playback entity.  When the clock
/// fires, the displayed tile index advances by one, wrapping from the sheet's
/// last addressable tile back to the first non-neutral tile.  Outside `Game`
/// mode — or with no playback entity — nothing changes.
///
/// The machine only ever produces well-formed playback entities, and for
/// those the outcome is pinned exactly; on a malformed entity the function
/// still cannot panic and still preserves the machine invariant.
pub fn animate_sprite(game_state: &GameState, handles: &mut RuntimeHandles, delta_ms: u64)
    ensures
        game_state.mode != GameMode::Game ==> final(handles)@ == old(handles)@,
        game_state.mode == GameMode::Game && old(handles)@.player is None ==> final(handles)@
            == old(handles)@,
        game_state.mode == GameMode::Game && old(handles)@.player is Some && wf_player(
            old(handles)@.player->Some_0,
        ) ==> final(handles)@ == (HandlesView {
            player: Some(spec_animate_player(old(handles)@.player->Some_0, delta_ms)),
            ..old(handles)@
        }),
        wf_handles(old(handles)@) ==> wf_handles(final(handles)@),
{
    if game_state.mode != GameMode::Game {
        return;
    }
    match &mut handles.player {
        Some(p) => {
            let sum = if delta_ms > u64::MAX - p.timer.elapsed_ms {
                u64::MAX
            } else {
                p.timer.elapsed_ms + delta_ms
            };
            if p.timer.duration_ms == 0 {
                // Unreachable under the machine invariant; a stopped clock
                // stays stopped rather than dividing by zero.
                p.timer.elapsed_ms = sum;
            } else {
                let fired = sum >= p.timer.duration_ms;
                p.timer.elapsed_ms = sum % p.timer.duration_ms;
                if fired {
                    p.atlas_index = if p.atlas_index == p.indices.last {
                        p.indices.first
                    } else if p.atlas_index == u64::MAX {
                        // Unreachable under the machine invariant.
                        p.indices.first
                    } else {
                        p.atlas_index + 1
                    };
                }
            }
        },
        None => {},
    }
    proof {
        if old(handles)@.player is Some && wf_player(old(handles)@.player->Some_0) {
            assert(final(handles)@ =~= (HandlesView {
                player: Some(spec_animate_player(old(handles)@.player->Some_0, delta_ms)),
                ..old(handles)@
            }));
        }
        if old(handles)@.player is None {
            assert(final(handles)@ =~= old(handles)@);
        }
    }
}

/// One overlay after `delta_ms` elapses.
pub open spec fn spec_bump_lifetime(l: Lifetime, delta_ms: u64) -> Lifetime {
    Lifetime { elapsed_ms: add_sat(l.elapsed_ms, delta_ms), ..l }
}

/// The overlays surviving one tick: every countdown advances by the tick's
/// elapsed time, and any overlay whose time is up is destroyed this tick, in
/// order.
pub open spec fn spec_update_lifetimes(s: Seq<Lifetime>, delta_ms: u64) -> Seq<Lifetime>
    decreases s.len(),
{
    if s.len() == 0 {
        Seq::empty()
    } else {
        let rest = spec_update_lifetimes(s.drop_last(), delta_ms);
        let bumped = spec_bump_lifetime(s.last(), delta_ms);
        if bumped.elapsed_ms < bumped.lifetime_ms {
            rest.push(bumped)
        } else {
            rest
        }
    }
}

/// Advances every live overlay's countdown by `delta_ms` and destroys the
/// overlays whose lifetime has elapsed.  Expiry is unconditional and local:
/// it happens even across a mode switch.
pub fn update_lifetimes(overlays: &mut Vec<Lifetime>, delta_ms: u64)
    ensures
        final(overlays)@ == spec_update_lifetimes(old(overlays)@, delta_ms),
{
    let mut kept: Vec<Lifetime> = Vec::new();
    let mut i: usize = 0;
    while i < overlays.len()
        invariant
            0 <= i <= overlays.len(),
            kept@ == spec_update_lifetimes(overlays@.take(i as int), delta_ms),
        decreases overlays.len() - i,
    {
        let o = overlays[i];
        let elapsed = if delta_ms > u64::MAX - o.elapsed_ms {
            u64::MAX
        } else {
            o.elapsed_ms + delta_ms
        };
        if elapsed < o.lifetime_ms {
            kept.push(Lifetime { elapsed_ms: elapsed, ..o });
        }
        proof {
            assert(overlays@.take(i + 1).drop_last() =~= overlays@.take(i as int));
            assert(overlays@.take(i + 1).last() == overlays@[i as int]);
        }
        i = i + 1;
    }
    proof {
        assert(overlays@.take(overlays@.len() as int) =~= overlays@);
    }
    *overlays = kept;
}

/// What the editor's display entity should show after one tick in `Editor`
/// mode: the old display entity is despawned and — when a sheet and frame are
/// selected and the sheet exists — a fresh entity showing that frame takes
/// its place.  Outside `Editor` mode nothing changes.
pub open spec fn spec_display_step(
    mode: GameMode,
    sel: SelectionView,
    cat: Seq<SheetView>,
    h: HandlesView,
) -> HandlesView {
    if mode != GameMode::Editor {
        h
    } else if sel.sprite_sheet_id matches Some(id) && sel.frame_index is Some && spec_find_index(
        cat,
        id,
    ) >= 0 && h.next_entity < u64::MAX {
        HandlesView {
            current_sprite: Some(h.next_entity),
            next_entity: (h.next_entity + 1) as u64,
            ..h
        }
    } else {
        HandlesView { current_sprite: None, ..h }
    }
}

/// Replaces the editor's display entity so that it shows the currently
/// selected frame, re-derived from the catalog this very tick — edits to the
/// frame's regions are reflected without any refresh step.
pub fn display_selected_sprite_sheet(
    game_state: &GameState,
    selection: &SelectedFrame,
    catalog: &SpriteSheetsData,
    handles: &mut RuntimeHandles,
)
    ensures
        final(handles)@ == spec_display_step(game_state.mode, selection@, catalog@, old(handles)@),
        wf_handles(old(handles)@) ==> wf_handles(final(handles)@),
{
    if game_state.mode != GameMode::Editor {
        proof {
            assert(final(handles)@ =~= spec_display_step(
                game_state.mode,
                selection@,
                catalog@,
                old(handles)@,
            ));
        }
        return;
    }
    let show = match selection.sprite_sheet_id {
        Some(ref id) => selection.frame_index.is_some() && catalog.get(id).is_some(),
        None => false,
    };
    if show && handles.next_entity < u64::MAX {
        handles.current_sprite.entity = Some(handles.next_entity);
        handles.next_entity = handles.next_entity + 1;
    } else {
        handles.current_sprite.entity = None;
    }
    proof {
        assert(final(handles)@ =~= spec_display_step(
            game_state.mode,
            selection@,
            catalog@,
            old(handles)@,
        ));
    }
}

/// The tile before `index` in the cycle, wrapping from the first non-neutral
/// tile back to the last.
pub open spec fn prev_tile(index: u64, indices: AnimationIndices) -> u64
    recommends
        indices.first <= index,
{
    if index == indices.first {
        indices.last
    } else {
        (index - 1) as u64
    }
}

/// Steps the editor's sprite preview to the next tile of the cycle, with the
/// same wrap as playback.
pub fn next_sprite_index(index: u64, indices: AnimationIndices) -> (r: u64)
    requires
        1 <= indices.first <= indices.last,
        indices.first <= index <= indices.last,
    ensures
        r == next_tile(index, indices),
        indices.first <= r <= indices.last,
{
    if index == indices.last {
        indices.first
    } else {
        index + 1
    }
}

/// Steps the editor's sprite preview to the previous tile of the cycle,
/// wrapping from the first non-neutral tile back to the last.
pub fn prev_sprite_index(index: u64, indices: AnimationIndices) -> (r: u64)
    requires
        1 <= indices.first <= indices.last,
        indices.first <= index <= indices.last,
    ensures
        r == prev_tile(index, indices),
        indices.first <= r <= indices.last,
{
    if index == indices.first {
        indices.last
    } else {
        index - 1
    }
}

/// How many pixels the side panels take from the window, in whole pixels.
#[derive(Clone, Copy, Debug, PartialEq, Eq, Structural)]
pub struct EditorGuiSpace {
    pub left: i64,
    pub right: i64,
}

impl Default for EditorGuiSpace {
    fn default() -> (r: Self)
        ensures
            r.left == 0 && r.right == 0,
    {
        EditorGuiSpace { left: 0, right: 0 }
    }
}

/// The horizontal camera shift that keeps the sprite centered between the
/// side panels: half the difference of the panel widths in `Editor` mode,
/// zero in `Game` mode, rounded toward zero.
pub open spec fn spec_camera_offset(mode: GameMode, space: EditorGuiSpace) -> int {
    if mode != GameMode::Editor {
        0
    } else if space.right >= space.left {
        (space.right - space.left) / 2
    } else {
        -((space.left - space.right) / 2)
    }
}

/// Computes the camera translation for the current panel layout.
pub fn update_camera_transform(game_state: &GameState, space: &EditorGuiSpace) -> (r: i64)
    requires
        0 <= space.left <= crate::geometry::COORD_LIMIT,
        0 <= space.right <= crate::geometry::COORD_LIMIT,
    ensures
        r == spec_camera_offset(game_state.mode, *space),
{
    if game_state.mode != GameMode::Editor {
        0
    } else if space.right >= space.left {
        (space.right - space.left) / 2
    } else {
        -((space.left - space.right) / 2)
    }
}

/// Spawns one transient overlay entity per region displayed this tick, each
/// carrying the fixed overlay lifetime.  Handles come from the machine's
/// counter, so overlays never collide with other runtime objects.
pub fn spawn_overlays(handles: &mut RuntimeHandles, overlays: &mut Vec<Lifetime>, count: usize)
    requires
        old(handles).next_entity + count <= u64::MAX,
    ensures
        final(handles)@ == (HandlesView {
            next_entity: (old(handles)@.next_entity + count) as u64,
            ..old(handles)@
        }),
        final(overlays)@.len() == old(overlays)@.len() + count,
        forall|k: int|
            0 <= k < old(overlays)@.len() ==> final(overlays)@[k] == old(overlays)@[k],
        forall|k: int|
            old(overlays)@.len() <= k < final(overlays)@.len() ==> (#[trigger] final(overlays)@[k])
                == (Lifetime {
                entity: (old(handles)@.next_entity + (k - old(overlays)@.len())) as u64,
                elapsed_ms: 0,
                lifetime_ms: OVERLAY_LIFETIME_MS,
            }),
        wf_handles(old(handles)@) ==> wf_handles(final(handles)@),
{
    let mut n: usize = 0;
    while n < count
        invariant
            0 <= n <= count,
            old(handles).next_entity + count <= u64::MAX,
            handles.next_entity == old(handles).next_entity + n,
            handles.editor_camera == old(handles).editor_camera,
            handles.game_camera == old(handles).game_camera,
            handles.current_sprite == old(handles).current_sprite,
            handles@.player == old(handles)@.player,
            overlays@.len() == old(overlays)@.len() + n,
            forall|k: int|
                0 <= k < old(overlays)@.len() ==> overlays@[k] == old(overlays)@[k],
            forall|k: int|
                old(overlays)@.len() <= k < overlays@.len() ==> (#[trigger] overlays@[k])
                    == (Lifetime {
                    entity: (old(handles)@.next_entity + (k - old(overlays)@.len())) as u64,
                    elapsed_ms: 0,
                    lifetime_ms: OVERLAY_LIFETIME_MS,
                }),
        decreases count - n,
    {
        overlays.push(
            Lifetime { entity: handles.next_entity, elapsed_ms: 0, lifetime_ms: OVERLAY_LIFETIME_MS },
        );
        handles.next_entity = handles.next_entity + 1;
        n = n + 1;
    }
    proof {
        assert(final(handles)@ =~= (HandlesView {
            next_entity: (old(handles)@.next_entity + count) as u64,
            ..old(handles)@
        }));
    }
}

/// The wrapped tile index never reaches the neutral tile and never leaves the
/// cycle: from the last tile it returns to the first non-neutral tile, from
/// any other tile it advances by one.
pub proof fn lemma_frame_index_wrap(index: u64, indices: AnimationIndices)
    requires
        1 <= indices.first <= indices.last,
        indices.first <= index <= indices.last,
    ensures
        next_tile(index, indices) >= 1,
        next_tile(index, indices) != 0,
        indices.first <= next_tile(index, indices) <= indices.last,
        index == indices.last ==> next_tile(index, indices) == indices.first,
        index < indices.last ==> next_tile(index, indices) == index + 1,
{
}

} // verus!
