//! A frame-indexed collision-geometry engine for 2D sprite-sheet animations.
//!
//! Sprite sheets carry, for each animation frame, a list of "hit" rectangles
//! (attack collision) and "hurt" rectangles (vulnerable collision).  The crate
//! keeps this per-frame geometry consistent between an authoring surface, a
//! persisted file, and a simulated playback mode:
//!
//! - [`geometry`]: the rectangle primitive and component-wise scaling;
//! - [`sheets`]: frames, sheet metadata, and the catalog that owns all sheets;
//! - [`selection`]: which sheet and frame the author (or playback) targets;
//! - [`mode`]: the two-state `Editor` / `Game` switch;
//! - [`runtime`]: the handles for the runtime objects each mode needs, and the
//!   deterministic transitions that create and destroy them;
//! - [`projection`]: the set of scaled regions to display on a given tick;
//! - [`persistence`]: a canonical textual encoding of the catalog with a
//!   verified round trip;
//! - [`paths`]: normalization of asset paths picked in a file browser.

pub mod geometry;
pub mod mode;
pub mod paths;
pub mod persistence;
pub mod projection;
pub mod runtime;
pub mod selection;
pub mod sheets;
