//! Options of the live preview window and the fingerprint it reloads on.

use vstd::prelude::*;
use std::path::PathBuf;

verus! {

#[verifier::external_type_specification]
#[verifier::external_body]
pub struct ExPathBuf(std::path::PathBuf);

/// `PathBuf::clone`, used by the derived `Clone` impls below; nothing is
/// claimed of the copy.
pub assume_specification[ <std::path::PathBuf as std::clone::Clone>::clone ](
    p: &std::path::PathBuf,
) -> std::path::PathBuf;

/// What the preview window shows and how often it polls.
#[derive(Clone, Debug)]
pub struct PreviewOptions {
    pub session_id: String,
    pub cwd: PathBuf,
    pub from: Option<(i32, i32, i32)>,
    pub to: Option<(i32, i32, i32)>,
    pub watch_ms: u64,
    pub width: u32,
    pub height: u32,
    pub minecraft: Option<PathBuf>,
    pub assets_jar: Option<PathBuf>,
    pub no_textures: bool,
    pub max_cells: Option<usize>,
}

/// Disk fingerprint for live preview reload (region mtime + session cursor).
#[derive(Clone, Debug, PartialEq, Eq, Structural)]
pub struct PreviewWatchToken {
    pub region_stamp: u64,
    pub meta_mtime_ms: u64,
    pub head_mtime_ms: u64,
    pub head: usize,
    pub history_size: usize,
    pub dirty: bool,
}

/// An RGBA image, row-major.
#[derive(Clone, Debug)]
pub struct RgbaFrame {
    pub width: u32,
    pub height: u32,
    pub pixels: Vec<u8>,
}

/// What a screenshot produced.
#[derive(Clone, Debug)]
pub struct ViewScreenshotResult {
    pub out: PathBuf,
    pub width: u32,
    pub height: u32,
    pub blocks: usize,
    pub faces: usize,
    pub triangles: usize,
    /// `jar path=...` or `palette reason=...`.
    pub textures: String,
}

} // verus!
