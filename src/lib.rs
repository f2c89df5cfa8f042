//! The monitor-layout editor of a desktop settings panel. It reads the
//! compositor's monitor listing into display records and arranges the displays
//! on a bounded canvas, with clamped moves, grid-snapped drags and quarter-turn
//! rotations. It then writes the layout back as the compositor's monitor
//! configuration.
//!
//! - `registry`: reading the monitor listing.
//! - `canvas`: the canvas model and the drag and key interactions on it.
//! - `layout`: configuration lines, written and read back.
//! - `text`: character-level helpers (search, split, trim, decimal numbers).

pub mod canvas;
pub mod layout;
pub mod registry;
pub mod text;
