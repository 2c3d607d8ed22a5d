//! Application settings: the shelf's global hot key and the screen edge it is shown at,
//! their defaults, partial updates, and what happens to a stored value that is missing
//! or unreadable.

use vstd::prelude::*;
use crate::text::to_string;
use vstd::string::*;

verus! {

/// The screen edge at which the shelf is shown.
#[derive(Debug, Clone, Copy, PartialEq, Eq, Structural)]
pub enum ShelfEdge {
    Top,
    Bottom,
    Left,
    Right,
}

/// The application settings.
#[derive(Debug)]
pub struct AppSettings {
    /// The global hot key that shows or hides the shelf.
    pub shelf_hotkey: String,
    /// The screen edge at which the shelf is shown.
    pub shelf_edge: ShelfEdge,
}

/// The mathematical content of `AppSettings`.
pub struct AppSettingsView {
    pub shelf_hotkey: Seq<char>,
    pub shelf_edge: ShelfEdge,
}

impl View for AppSettings {
    type V = AppSettingsView;

    open spec fn view(&self) -> AppSettingsView {
        AppSettingsView { shelf_hotkey: self.shelf_hotkey@, shelf_edge: self.shelf_edge }
    }
}

/// A partial update of the settings: each field given replaces the stored one.
#[derive(Debug)]
pub struct AppSettingsPatch {
    pub shelf_hotkey: Option<String>,
    pub shelf_edge: Option<ShelfEdge>,
}

impl Default for AppSettingsPatch {
    fn default() -> (p: AppSettingsPatch)
        ensures
            p.shelf_hotkey is None,
            p.shelf_edge is None,
    {
        AppSettingsPatch { shelf_hotkey: None, shelf_edge: None }
    }
}

/// The default hot key: `Cmd+Option+S` on macOS, `Ctrl+Alt+S` elsewhere.
pub open spec fn default_hotkey_text(is_macos: bool) -> Seq<char> {
    if is_macos {
        "Cmd+Option+S"@
    } else {
        "Ctrl+Alt+S"@
    }
}

/// The default settings: the platform's default hot key, and the right edge.
pub open spec fn default_settings(is_macos: bool) -> AppSettingsView {
    AppSettingsView { shelf_hotkey: default_hotkey_text(is_macos), shelf_edge: ShelfEdge::Right }
}

/// The settings after a partial update.
pub open spec fn patched(s: AppSettingsView, hotkey: Option<Seq<char>>, edge: Option<ShelfEdge>) -> AppSettingsView {
    AppSettingsView {
        shelf_hotkey: match hotkey {
            Some(h) => h,
            None => s.shelf_hotkey,
        },
        shelf_edge: match edge {
            Some(e) => e,
            None => s.shelf_edge,
        },
    }
}

/// The text of an optional string.
pub open spec fn opt_text(o: Option<String>) -> Option<Seq<char>> {
    match o {
        Some(s) => Some(s@),
        None => None,
    }
}

/// The default hot key for the platform (`is_macos` tells whether it is macOS).
pub fn default_shelf_hotkey(is_macos: bool) -> (r: String)
    ensures
        r@ == default_hotkey_text(is_macos),
{
    if is_macos {
        to_string("Cmd+Option+S")
    } else {
        to_string("Ctrl+Alt+S")
    }
}

impl AppSettings {
    /// The default settings for the platform.
    pub fn defaults(is_macos: bool) -> (r: AppSettings)
        ensures
            r@ == default_settings(is_macos),
    {
        AppSettings { shelf_hotkey: default_shelf_hotkey(is_macos), shelf_edge: ShelfEdge::Right }
    }

    /// An exact copy.
    pub fn duplicate(&self) -> (r: AppSettings)
        ensures
            r@ == self@,
    {
        AppSettings { shelf_hotkey: self.shelf_hotkey.clone(), shelf_edge: self.shelf_edge }
    }

    /// Applies a partial update: each field the patch gives replaces the current one.
    pub fn apply_patch(self, patch: AppSettingsPatch) -> (r: AppSettings)
        ensures
            r@ == patched(self@, opt_text(patch.shelf_hotkey), patch.shelf_edge),
    {
        let mut settings = self;
        if let Some(hotkey) = patch.shelf_hotkey {
            settings.shelf_hotkey = hotkey;
        }
        if let Some(edge) = patch.shelf_edge {
            settings.shelf_edge = edge;
        }
        settings
    }
}

/// What loading the stored settings gives: the stored settings where they were found
/// and readable (`stored`), else the defaults, together with whether the defaults must
/// be written back.
pub fn resolve_loaded(stored: Option<AppSettings>, is_macos: bool) -> (r: (AppSettings, bool))
    ensures
        match stored {
            Some(s) => r.0@ == s@ && !r.1,
            None => r.0@ == default_settings(is_macos) && r.1,
        },
{
    match stored {
        Some(s) => (s, false),
        None => (AppSettings::defaults(is_macos), true),
    }
}

/// A patch that gives no field leaves the settings as they are.
pub proof fn lemma_empty_patch_keeps(s: AppSettingsView)
    ensures
        patched(s, None, None) == s,
{
}

/// Applying the same patch twice gives what applying it once gives.
pub proof fn lemma_patch_idempotent(s: AppSettingsView, hotkey: Option<Seq<char>>, edge: Option<ShelfEdge>)
    ensures
        patched(patched(s, hotkey, edge), hotkey, edge) == patched(s, hotkey, edge),
{
}

/// Of two patches applied in turn, the later one wins for each field it gives, and the
/// earlier one stays for the fields the later one leaves out.
pub proof fn lemma_later_patch_wins(
    s: AppSettingsView,
    h1: Option<Seq<char>>,
    e1: Option<ShelfEdge>,
    h2: Option<Seq<char>>,
    e2: Option<ShelfEdge>,
)
    ensures
        patched(patched(s, h1, e1), h2, e2) == patched(
            s,
            if h2 is Some { h2 } else { h1 },
            if e2 is Some { e2 } else { e1 },
        ),
{
}

} // verus!
