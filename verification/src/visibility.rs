//! Showing and hiding the shelf window: the hot key and the tray toggle it, the tray
//! menu shows it, and a detected drag shows it automatically, to be hidden again when
//! the drag ends, unless the user had opened it.

use vstd::prelude::*;
use crate::text::str_eq;
use vstd::string::*;

verus! {

/// A request to show or hide the shelf.
#[derive(Debug, Clone, Copy, PartialEq, Eq, Structural)]
pub enum ShelfRequest {
    /// The hot key or a left click on the tray icon.
    Toggle,
    /// "Show shelf" (or "Settings...") in the tray menu.
    Show,
    /// A drag started.
    ShowAuto,
    /// A drag ended.
    HideIfAuto,
}

/// What to do with the window.
#[derive(Debug, Clone, Copy, PartialEq, Eq, Structural)]
pub enum WindowAction {
    Nothing,
    /// Place the window at its edge, show it and focus it.
    Show,
    Hide,
}

/// The state kept between requests: whether the window is showing because of a drag.
#[derive(Debug, Clone, Copy, PartialEq, Eq, Structural)]
pub struct ShelfVisibility {
    pub auto_shown: bool,
}

/// One request: `window_found` says whether the shelf window exists, `visible` whether
/// it is showing. Hiding always ends the automatic showing.
pub open spec fn visibility_step(s: ShelfVisibility, req: ShelfRequest, window_found: bool, visible: bool) -> (
    ShelfVisibility,
    WindowAction,
) {
    match req {
        ShelfRequest::Toggle => if !window_found {
            (s, WindowAction::Nothing)
        } else if visible {
            (ShelfVisibility { auto_shown: false }, WindowAction::Hide)
        } else {
            (s, WindowAction::Show)
        },
        ShelfRequest::Show => if !window_found {
            (s, WindowAction::Nothing)
        } else {
            (s, WindowAction::Show)
        },
        ShelfRequest::ShowAuto => if !window_found || visible {
            (s, WindowAction::Nothing)
        } else {
            (ShelfVisibility { auto_shown: true }, WindowAction::Show)
        },
        ShelfRequest::HideIfAuto => if !s.auto_shown {
            (s, WindowAction::Nothing)
        } else if !window_found {
            (ShelfVisibility { auto_shown: false }, WindowAction::Nothing)
        } else {
            (ShelfVisibility { auto_shown: false }, WindowAction::Hide)
        },
    }
}

impl ShelfVisibility {
    /// The state at start-up: nothing shown automatically.
    pub fn new() -> (s: ShelfVisibility)
        ensures
            !s.auto_shown,
    {
        ShelfVisibility { auto_shown: false }
    }

    /// Decides what a request does to the window.
    pub fn handle(&mut self, req: ShelfRequest, window_found: bool, visible: bool) -> (r: WindowAction)
        ensures
            (*final(self), r) == visibility_step(*old(self), req, window_found, visible),
    {
        match req {
            ShelfRequest::Toggle => {
                if !window_found {
                    WindowAction::Nothing
                } else if visible {
                    self.auto_shown = false;
                    WindowAction::Hide
                } else {
                    WindowAction::Show
                }
            },
            ShelfRequest::Show => {
                if !window_found {
                    WindowAction::Nothing
                } else {
                    WindowAction::Show
                }
            },
            ShelfRequest::ShowAuto => {
                if !window_found || visible {
                    WindowAction::Nothing
                } else {
                    self.auto_shown = true;
                    WindowAction::Show
                }
            },
            ShelfRequest::HideIfAuto => {
                if !self.auto_shown {
                    WindowAction::Nothing
                } else {
                    self.auto_shown = false;
                    if window_found {
                        WindowAction::Hide
                    } else {
                        WindowAction::Nothing
                    }
                }
            },
        }
    }
}

/// A shelf shown by a drag is hidden again when the drag ends.
pub proof fn lemma_auto_shown_is_hidden_after_drag(s: ShelfVisibility)
    ensures
        ({
            let (s1, a1) = visibility_step(s, ShelfRequest::ShowAuto, true, false);
            let (s2, a2) = visibility_step(s1, ShelfRequest::HideIfAuto, true, true);
            a1 == WindowAction::Show && a2 == WindowAction::Hide && !s2.auto_shown
        }),
{
}

/// A shelf the user opened stays open when a drag starts and ends over it.
pub proof fn lemma_user_opened_stays(s: ShelfVisibility)
    requires
        !s.auto_shown,
    ensures
        ({
            let (s1, a1) = visibility_step(s, ShelfRequest::ShowAuto, true, true);
            let (s2, a2) = visibility_step(s1, ShelfRequest::HideIfAuto, true, true);
            a1 == WindowAction::Nothing && a2 == WindowAction::Nothing
        }),
{
}

/// Hiding, by the toggle or at the end of a drag, ends the automatic showing.
pub proof fn lemma_hide_clears_auto(s: ShelfVisibility, req: ShelfRequest, found: bool, visible: bool)
    ensures
        visibility_step(s, req, found, visible).1 == WindowAction::Hide ==> !visibility_step(s, req, found, visible).0.auto_shown,
{
}

/// What a tray menu entry asks for.
#[derive(Debug, Clone, Copy, PartialEq, Eq, Structural)]
pub enum TrayAction {
    ShowShelf,
    ShowSettings,
    Quit,
    Nothing,
}

/// The tray menu entry ids and what they ask for.
pub open spec fn tray_action_of(id: Seq<char>) -> TrayAction {
    if id == "show_shelf"@ {
        TrayAction::ShowShelf
    } else if id == "settings"@ {
        TrayAction::ShowSettings
    } else if id == "quit"@ {
        TrayAction::Quit
    } else {
        TrayAction::Nothing
    }
}

/// What the tray menu entry with the given id asks for.
pub fn tray_menu_action(id: &str) -> (r: TrayAction)
    ensures
        r == tray_action_of(id@),
{
    if str_eq(id, "show_shelf") {
        TrayAction::ShowShelf
    } else if str_eq(id, "settings") {
        TrayAction::ShowSettings
    } else if str_eq(id, "quit") {
        TrayAction::Quit
    } else {
        TrayAction::Nothing
    }
}

} // verus!
