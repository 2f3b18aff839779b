//! The configuration of the viewer, as its JSON file holds it.
use vstd::prelude::*;

verus! {

/// The size of the window, in pixels.
#[derive(Clone, Copy)]
pub struct ScreenConfig {
    pub width: u32,
    pub height: u32,
}

/// The configuration: the window's size and the path of the map file.
#[derive(Clone)]
pub struct Config {
    pub screen: ScreenConfig,
    pub map_path: String,
}

} // verus!
