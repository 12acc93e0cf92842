//! The logic of a small desktop app for trying presets on photos: reading presets and photos, stepping
//! through folders, recommending presets, what the window does, exports and their metadata, and the
//! command line. Files, threads, the GPU and all floating-point arithmetic are left to the application.

use vstd::prelude::*;

pub mod browse;
pub mod builtins;
pub mod cli;
pub mod crop;
pub mod dialog;
pub mod double;
pub mod drawing;
pub mod encode;
pub mod export;
pub mod filmstrip;
pub mod gpu;
pub mod import;
pub mod loader;
pub mod macos;
pub mod metadata;
pub mod names;
pub mod numeral;
pub mod order;
pub mod packs;
pub mod palette;
pub mod panel;
pub mod pixels;
pub mod preset;
pub mod recommend;
pub mod screen;
pub mod session;
pub mod sheet;
pub mod single;
pub mod status;
pub mod text;
pub mod theme;
pub mod unicode;
pub mod written;

verus! {

} // verus!
