//! The settings of a visualizer, as a command line gives them.
use vstd::prelude::*;
use crate::visualizer::{VisualizerStyle, VisualizerT, When};

verus! {

/// What to visualize, and how.
#[derive(Debug, Clone)]
pub struct VisualizerArgs {
    /// When to draw frames.
    pub visualize: When,
    pub style: VisualizerStyle,
    /// Start paused.
    pub pause: bool,
    /// Which frames to save.
    pub save: When,
    /// Show or save only each `n`th frame.
    pub each: Option<usize>,
    /// Where to save.
    pub save_path: Option<String>,
    /// The size in pixels of each cell.
    pub cell_size: Option<u32>,
    /// Number of states per cell.
    pub downscaler: Option<u32>,
    /// Draw newer expanded states on top.
    pub new_on_top: bool,
    /// Enable drawing the tree.
    pub draw_tree: bool,
    /// Disable drawing the tree.
    pub no_draw_tree: bool,
}

/// Something to run with whichever visualizer the settings ask for.
pub trait VisualizerRunner {
    type R;

    fn call<V: VisualizerT>(&self, v: V) -> Self::R;
}

} // verus!
