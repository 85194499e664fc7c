//! What a run is configured with.

use vstd::prelude::*;

verus! {

#[derive(Debug, Clone)]
pub struct RenderConfig {
    /// Path of the input document.
    pub input: String,
    /// Path of the video to write.
    pub output: String,
    /// Frames per second.
    pub fps: u32,
    pub width: u32,
    pub height: u32,
    /// Length of the video in seconds; derived from the number of commits
    /// where it is absent.
    pub duration_secs: Option<u32>,
    /// Rendering style: `network` or `timeline`.
    pub style: String,
    /// Where to write the statistics report, if one is wanted.
    pub report_output: Option<String>,
    /// Where to write the change-flow charts, if they are wanted.
    pub waste_output_dir: Option<String>,
}

} // verus!
