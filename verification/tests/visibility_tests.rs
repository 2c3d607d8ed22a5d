use ledge::visibility::{tray_menu_action, ShelfRequest, ShelfVisibility, TrayAction, WindowAction};

#[test]
fn drag_shows_and_hides_the_shelf() {
    let mut v = ShelfVisibility::new();
    assert_eq!(v.handle(ShelfRequest::ShowAuto, true, false), WindowAction::Show);
    assert!(v.auto_shown);
    assert_eq!(v.handle(ShelfRequest::HideIfAuto, true, true), WindowAction::Hide);
    assert!(!v.auto_shown);
    assert_eq!(v.handle(ShelfRequest::HideIfAuto, true, false), WindowAction::Nothing);
}

#[test]
fn user_opened_shelf_survives_a_drag() {
    let mut v = ShelfVisibility::new();
    assert_eq!(v.handle(ShelfRequest::Toggle, true, false), WindowAction::Show);
    assert_eq!(v.handle(ShelfRequest::ShowAuto, true, true), WindowAction::Nothing);
    assert_eq!(v.handle(ShelfRequest::HideIfAuto, true, true), WindowAction::Nothing);
}

#[test]
fn toggle_hides_and_ends_auto_showing() {
    let mut v = ShelfVisibility::new();
    v.handle(ShelfRequest::ShowAuto, true, false);
    assert_eq!(v.handle(ShelfRequest::Toggle, true, true), WindowAction::Hide);
    assert!(!v.auto_shown);
    assert_eq!(v.handle(ShelfRequest::Show, true, false), WindowAction::Show);
    assert_eq!(v.handle(ShelfRequest::Show, false, false), WindowAction::Nothing);
}

#[test]
fn drag_end_without_window_still_ends_auto_showing() {
    let mut v = ShelfVisibility { auto_shown: true };
    assert_eq!(v.handle(ShelfRequest::HideIfAuto, false, false), WindowAction::Nothing);
    assert!(!v.auto_shown);
}

#[test]
fn tray_menu_ids() {
    assert_eq!(tray_menu_action("show_shelf"), TrayAction::ShowShelf);
    assert_eq!(tray_menu_action("settings"), TrayAction::ShowSettings);
    assert_eq!(tray_menu_action("quit"), TrayAction::Quit);
    assert_eq!(tray_menu_action("other"), TrayAction::Nothing);
}
