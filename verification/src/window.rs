//! Window settings the client is created with.

use vstd::prelude::*;

verus! {

/// How the window is presented.
#[derive(Clone, Copy, Debug, PartialEq, Eq, Structural)]
pub enum WindowMode {
    Windowed,
    BorderlessFullscreen,
}

/// What the windowing layer is asked for at startup.
#[derive(Clone, Copy, Debug)]
pub struct WindowSettings {
    pub title: &'static str,
    pub width: u32,
    pub height: u32,
    pub resizable: bool,
    pub cursor_visible: bool,
    pub mode: WindowMode,
}

impl Default for WindowSettings {
    /// A resizable 1280x720 window with a visible cursor.
    fn default() -> (d: WindowSettings)
        ensures
            d.title@ == "app"@,
            d.width == 1280,
            d.height == 720,
            d.resizable,
            d.cursor_visible,
            d.mode is Windowed,
    {
        WindowSettings {
            title: "app",
            width: 1280,
            height: 720,
            resizable: true,
            cursor_visible: true,
            mode: WindowMode::Windowed,
        }
    }
}

} // verus!
