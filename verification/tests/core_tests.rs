use ledge::clipboard::{content_hash, create_watcher, format_to_read, ClipboardFormat, ClipboardSnapshot, ClipboardWatcher, SelfWriteGuard};
use ledge::dib::{decode_dib, dib_decodable, dib_to_png, png_to_rgba};
use ledge::drag::{handle_event, DevStubDragOutSource, DevStubDragWatcher, DragOutSource, DragSignal, DragState, DragWatcher, MouseEvent};
use ledge::error::ShelfError;
use ledge::layout::{in_edge_zone, shelf_frame, EdgeGeometry, WorkArea};
use ledge::models::{ClipboardContentType, ClipboardEntry, ShelfItemType};
use ledge::paste::{observe_change, paste_plan, prepare_image_paste, prepare_text_paste, PastePlan};
use ledge::paths::display_name;
use ledge::settings::{default_shelf_hotkey, resolve_loaded, AppSettings, AppSettingsPatch, ShelfEdge};

fn idle() -> DragState {
    DragState { down_pos: None, dragging: false, triggered: false }
}

fn bitmap(width: i32, height: i32, bits: u16, pixels: &[u8]) -> Vec<u8> {
    let mut b = vec![0u8; 40];
    b[0..4].copy_from_slice(&40u32.to_le_bytes());
    b[4..8].copy_from_slice(&width.to_le_bytes());
    b[8..12].copy_from_slice(&height.to_le_bytes());
    b[12..14].copy_from_slice(&1u16.to_le_bytes());
    b[14..16].copy_from_slice(&bits.to_le_bytes());
    b.extend_from_slice(pixels);
    b
}

const BOTTOM_UP_24: [u8; 16] = [1, 2, 3, 4, 5, 6, 0, 0, 7, 8, 9, 10, 11, 12, 0, 0];

fn entry(kind: ClipboardContentType, text: Option<&str>, image: Option<&str>) -> ClipboardEntry {
    ClipboardEntry {
        id: 1,
        content_type: kind,
        text_content: text.map(|t| t.to_string()),
        image_path: image.map(|p| p.to_string()),
        thumbnail_path: image.map(|p| p.to_string()),
        file_paths: None,
        pinned: false,
        created_at: "t".to_string(),
        updated_at: "t".to_string(),
        content_hash: "h".to_string(),
        tags: Vec::new(),
    }
}

#[test]
fn content_hash_known_values() {
    assert_eq!(
        content_hash(&ClipboardSnapshot::Text("hello".to_string())),
        "eadf732aba96d643feaa39909a300bc8a25b15fabdf41bf20819b8ce8fd3746f"
    );
    assert_eq!(
        content_hash(&ClipboardSnapshot::Text("  hello \n".to_string())),
        "eadf732aba96d643feaa39909a300bc8a25b15fabdf41bf20819b8ce8fd3746f"
    );
    assert_eq!(
        content_hash(&ClipboardSnapshot::Image(vec![1, 2, 3])),
        "81fa5edbacedd14773e9b848eabff0b334bcad97c6d5af76cbc3b3fa9c188853"
    );
    assert_eq!(
        content_hash(&ClipboardSnapshot::FilePaths(vec!["/a".to_string(), "/b c".to_string()])),
        "4fed6481dfc77d6c4e1673d216f0232ec6d86c49e4374b06ff7fa85ab307f8ea"
    );
    assert_eq!(
        content_hash(&ClipboardSnapshot::FilePaths(Vec::new())),
        "73c5022b4285ba316c051485590663a3c27a7b2d23b3184a37f21d48f1c35c0d"
    );
}

#[test]
fn self_write_guard_consumes_once() {
    let mut guard = SelfWriteGuard::new();
    assert!(!guard.consume_if_matches("abc"));
    guard.mark("abc".to_string());
    assert!(!guard.consume_if_matches("xyz"));
    assert!(guard.consume_if_matches("abc"));
    assert!(!guard.consume_if_matches("abc"));
}

#[test]
fn own_paste_is_not_recorded_but_next_copy_is() {
    let mut guard = SelfWriteGuard::new();
    prepare_text_paste(&mut guard, "pasted");
    let change = ClipboardSnapshot::Text("pasted".to_string());
    assert_eq!(observe_change(&mut guard, &change), None);
    assert_eq!(observe_change(&mut guard, &change), Some(content_hash(&change)));
    let other = ClipboardSnapshot::Text("other".to_string());
    prepare_text_paste(&mut guard, "pasted");
    assert_eq!(observe_change(&mut guard, &other), Some(content_hash(&other)));
    assert_eq!(observe_change(&mut guard, &change), None);
}

#[test]
fn paste_plans() {
    match paste_plan(&entry(ClipboardContentType::Text, Some("hi"), None)) {
        Ok(PastePlan::Text(t)) => assert_eq!(t, "hi"),
        other => panic!("unexpected {:?}", other),
    }
    match paste_plan(&entry(ClipboardContentType::Text, None, None)) {
        Ok(PastePlan::Text(t)) => assert_eq!(t, ""),
        other => panic!("unexpected {:?}", other),
    }
    match paste_plan(&entry(ClipboardContentType::Image, None, Some("/c/x.png"))) {
        Ok(PastePlan::ImageFile(p)) => assert_eq!(p, "/c/x.png"),
        other => panic!("unexpected {:?}", other),
    }
    match paste_plan(&entry(ClipboardContentType::Image, None, None)) {
        Err(ShelfError::Internal(m)) => assert_eq!(m, "画像パスが記録されていません"),
        other => panic!("unexpected {:?}", other),
    }
    match paste_plan(&entry(ClipboardContentType::FilePaths, None, None)) {
        Err(ShelfError::Internal(m)) => assert_eq!(m, "ファイルパスのクリップボードへの書き戻しは現在対応していません"),
        other => panic!("unexpected {:?}", other),
    }
}

#[test]
fn decode_bottom_up_24_bit() {
    let b = bitmap(2, 2, 24, &BOTTOM_UP_24);
    assert!(dib_decodable(&b));
    let img = decode_dib(&b).unwrap();
    assert_eq!((img.width, img.height), (2, 2));
    assert_eq!(img.rgba, vec![9, 8, 7, 255, 12, 11, 10, 255, 3, 2, 1, 255, 6, 5, 4, 255]);
}

#[test]
fn decode_top_down_32_bit_with_alpha() {
    let px = [1, 2, 3, 40, 4, 5, 6, 50];
    let b = bitmap(2, -1, 32, &px);
    let img = decode_dib(&b).unwrap();
    assert_eq!((img.width, img.height), (2, 1));
    assert_eq!(img.rgba, vec![3, 2, 1, 40, 6, 5, 4, 50]);
}

#[test]
fn decode_short_data_gives_transparent_black() {
    let b = bitmap(2, -1, 24, &[1, 2, 3]);
    let img = decode_dib(&b).unwrap();
    assert_eq!(img.rgba, vec![3, 2, 1, 255, 0, 0, 0, 0]);
}

#[test]
fn decode_refuses_unsupported_bitmaps() {
    assert!(decode_dib(&bitmap(2, 2, 8, &BOTTOM_UP_24)).is_none());
    assert!(decode_dib(&[0u8; 39]).is_none());
    assert!(dib_to_png(&[0u8; 10]).is_none());
    assert!(!dib_decodable(&bitmap(70000, 70000, 24, &[])));
}

#[test]
fn png_round_trip_of_a_bitmap() {
    let b = bitmap(2, 2, 24, &BOTTOM_UP_24);
    let png = dib_to_png(&b).unwrap();
    assert_eq!(&png[0..8], &[137, 80, 78, 71, 13, 10, 26, 10]);
    let (w, h, rgba) = png_to_rgba(&png).unwrap();
    assert_eq!((w, h), (2, 2));
    assert_eq!(rgba, vec![9, 8, 7, 255, 12, 11, 10, 255, 3, 2, 1, 255, 6, 5, 4, 255]);
}

#[test]
fn image_paste_marks_and_decodes() {
    let png = dib_to_png(&bitmap(1, 1, 24, &[10, 20, 30, 0])).unwrap();
    let mut guard = SelfWriteGuard::new();
    let (w, h, rgba) = prepare_image_paste(&mut guard, png.clone()).unwrap();
    assert_eq!((w, h, rgba), (1, 1, vec![30, 20, 10, 255]));
    assert!(guard.consume_if_matches(&content_hash(&ClipboardSnapshot::Image(png))));

    let mut guard = SelfWriteGuard::new();
    match prepare_image_paste(&mut guard, vec![1, 2, 3]) {
        Err(ShelfError::Internal(m)) => assert!(m.starts_with("画像のデコードに失敗しました: ")),
        other => panic!("unexpected {:?}", other),
    }
    assert!(guard.consume_if_matches(&content_hash(&ClipboardSnapshot::Image(vec![1, 2, 3]))));
}

#[test]
fn drag_threshold_scales_with_dpi() {
    let mut s = idle();
    assert_eq!(handle_event(&mut s, MouseEvent::LeftDown(100, 100), 96, None), DragSignal::Nothing);
    assert_eq!(handle_event(&mut s, MouseEvent::Move(107, 100), 96, None), DragSignal::Nothing);
    assert_eq!(handle_event(&mut s, MouseEvent::Move(108, 100), 96, None), DragSignal::Start);
    assert_eq!(handle_event(&mut s, MouseEvent::Move(300, 300), 96, None), DragSignal::Nothing);
    assert_eq!(handle_event(&mut s, MouseEvent::LeftUp, 96, None), DragSignal::End);
    assert_eq!(handle_event(&mut s, MouseEvent::LeftUp, 96, None), DragSignal::Nothing);

    let mut s = idle();
    handle_event(&mut s, MouseEvent::LeftDown(0, 0), 192, None);
    assert_eq!(handle_event(&mut s, MouseEvent::Move(12, 9), 192, None), DragSignal::Nothing);
    assert_eq!(handle_event(&mut s, MouseEvent::Move(-12, -12), 192, None), DragSignal::Start);
}

#[test]
fn move_without_press_does_nothing() {
    let mut s = idle();
    assert_eq!(handle_event(&mut s, MouseEvent::Move(500, 500), 96, None), DragSignal::Nothing);
    assert!(s.down_pos.is_none());
}

#[test]
fn drag_starts_only_in_the_edge_zone() {
    let zone = EdgeGeometry {
        edge: ShelfEdge::Right,
        work_area_x: 0,
        work_area_y: 0,
        work_area_width: 1920,
        work_area_height: 1040,
        edge_margin: 32,
    };
    let mut s = idle();
    handle_event(&mut s, MouseEvent::LeftDown(500, 500), 96, Some(&zone));
    assert_eq!(handle_event(&mut s, MouseEvent::Move(600, 500), 96, Some(&zone)), DragSignal::Nothing);
    assert!(s.dragging && !s.triggered);
    assert_eq!(handle_event(&mut s, MouseEvent::Move(1900, 500), 96, Some(&zone)), DragSignal::Start);
    assert_eq!(handle_event(&mut s, MouseEvent::LeftUp, 96, Some(&zone)), DragSignal::End);

    let mut s = idle();
    handle_event(&mut s, MouseEvent::LeftDown(500, 500), 96, Some(&zone));
    handle_event(&mut s, MouseEvent::Move(600, 500), 96, Some(&zone));
    assert_eq!(handle_event(&mut s, MouseEvent::LeftUp, 96, Some(&zone)), DragSignal::Nothing);
}

#[test]
fn edge_zones() {
    let g = |edge| EdgeGeometry {
        edge,
        work_area_x: 100,
        work_area_y: 50,
        work_area_width: 800,
        work_area_height: 600,
        edge_margin: 32,
    };
    assert!(in_edge_zone(100, 50, &g(ShelfEdge::Left)));
    assert!(in_edge_zone(132, 650, &g(ShelfEdge::Left)));
    assert!(!in_edge_zone(133, 300, &g(ShelfEdge::Left)));
    assert!(!in_edge_zone(99, 300, &g(ShelfEdge::Left)));
    assert!(in_edge_zone(868, 300, &g(ShelfEdge::Right)));
    assert!(!in_edge_zone(867, 300, &g(ShelfEdge::Right)));
    assert!(!in_edge_zone(901, 300, &g(ShelfEdge::Right)));
    assert!(in_edge_zone(500, 82, &g(ShelfEdge::Top)));
    assert!(!in_edge_zone(500, 83, &g(ShelfEdge::Top)));
    assert!(in_edge_zone(500, 618, &g(ShelfEdge::Bottom)));
    assert!(!in_edge_zone(500, 617, &g(ShelfEdge::Bottom)));
    assert!(!in_edge_zone(901, 640, &g(ShelfEdge::Bottom)));
}

#[test]
fn shelf_frames_at_each_edge() {
    let wa = WorkArea { x: 0, y: 0, width: 1920, height: 1040 };
    let f = shelf_frame(ShelfEdge::Right, wa, 300);
    assert_eq!((f.x, f.y, f.width, f.height), (1620, 0, 300, 1040));
    let f = shelf_frame(ShelfEdge::Left, wa, 300);
    assert_eq!((f.x, f.y, f.width, f.height), (0, 0, 300, 1040));
    let f = shelf_frame(ShelfEdge::Top, wa, 450);
    assert_eq!((f.x, f.y, f.width, f.height), (0, 0, 1920, 450));
    let f = shelf_frame(ShelfEdge::Bottom, wa, 450);
    assert_eq!((f.x, f.y, f.width, f.height), (0, 590, 1920, 450));
    let f = shelf_frame(ShelfEdge::Right, WorkArea { x: -1920, y: 20, width: 1920, height: 0 }, 0);
    assert_eq!((f.x, f.y, f.width, f.height), (-1, 20, 1, 1));
}

#[test]
fn settings_defaults_and_patches() {
    assert_eq!(default_shelf_hotkey(false), "Ctrl+Alt+S");
    assert_eq!(default_shelf_hotkey(true), "Cmd+Option+S");
    let s = AppSettings::defaults(false);
    assert_eq!(s.shelf_edge, ShelfEdge::Right);

    let s = s.apply_patch(AppSettingsPatch { shelf_hotkey: None, shelf_edge: Some(ShelfEdge::Top) });
    assert_eq!((s.shelf_hotkey.as_str(), s.shelf_edge), ("Ctrl+Alt+S", ShelfEdge::Top));
    let s = s.apply_patch(AppSettingsPatch { shelf_hotkey: Some("Alt+Space".to_string()), shelf_edge: None });
    assert_eq!((s.shelf_hotkey.as_str(), s.shelf_edge), ("Alt+Space", ShelfEdge::Top));
    let s = s.apply_patch(AppSettingsPatch::default());
    assert_eq!((s.shelf_hotkey.as_str(), s.shelf_edge), ("Alt+Space", ShelfEdge::Top));

    let (loaded, save) = resolve_loaded(None, true);
    assert!(save);
    assert_eq!((loaded.shelf_hotkey.as_str(), loaded.shelf_edge), ("Cmd+Option+S", ShelfEdge::Right));
    let stored = AppSettings { shelf_hotkey: "F1".to_string(), shelf_edge: ShelfEdge::Left };
    let (loaded, save) = resolve_loaded(Some(stored), true);
    assert!(!save);
    assert_eq!((loaded.shelf_hotkey.as_str(), loaded.shelf_edge), ("F1", ShelfEdge::Left));
}

#[test]
fn error_codes_and_messages() {
    let cases = vec![
        (ShelfError::Database("x".into()), "database_error", "データベースエラーが発生しました: x"),
        (ShelfError::NotFound("x".into()), "not_found", "指定されたアイテムが見つかりません: x"),
        (ShelfError::Settings("x".into()), "settings_error", "設定の読み書きに失敗しました: x"),
        (ShelfError::Shortcut("x".into()), "shortcut_error", "グローバルショートカットの登録に失敗しました: x"),
        (ShelfError::DragDropFailed("x".into()), "drag_drop_failed", "ドラッグ&ドロップ処理に失敗しました: x"),
        (ShelfError::Conflict("x".into()), "conflict", "x"),
        (ShelfError::Internal("x".into()), "internal_error", "内部エラーが発生しました: x"),
    ];
    for (e, code, message) in cases {
        assert_eq!(e.code(), code);
        assert_eq!(e.message(), message);
    }
}

#[test]
fn db_kind_texts_round_trip() {
    for t in [ShelfItemType::File, ShelfItemType::Folder] {
        assert_eq!(ShelfItemType::from_db_str(t.as_db_str()), t);
    }
    assert_eq!(ShelfItemType::from_db_str("anything"), ShelfItemType::File);
    for t in [ClipboardContentType::Text, ClipboardContentType::Image, ClipboardContentType::FilePaths] {
        assert_eq!(ClipboardContentType::from_db_str(t.as_db_str()), t);
    }
    assert_eq!(ClipboardContentType::FilePaths.as_db_str(), "file_paths");
    assert_eq!(ClipboardContentType::from_db_str("IMAGE"), ClipboardContentType::Text);
}

#[test]
fn display_names() {
    assert_eq!(display_name("/a/b.txt", Some("b.txt".to_string())), "b.txt");
    assert_eq!(display_name("/", None), "/");
}

#[test]
fn stub_watchers_and_drag_out() {
    let mut w = create_watcher();
    assert!(w.start(|_s: ClipboardSnapshot| {}).is_ok());
    ClipboardWatcher::<fn(ClipboardSnapshot)>::stop(&mut w);
    let mut d = DevStubDragWatcher::new();
    assert!(d.start(|| {}, || {}, None).is_ok());
    DragWatcher::<fn(), fn()>::stop(&mut d);
    assert!(DevStubDragOutSource::new().begin_drag(vec!["/a".to_string()]).is_ok());
}

#[test]
fn clipboard_format_priority() {
    assert_eq!(format_to_read(true, true, true, true), None);
    assert_eq!(format_to_read(false, true, true, true), Some(ClipboardFormat::FileList));
    assert_eq!(format_to_read(false, false, true, true), Some(ClipboardFormat::Text));
    assert_eq!(format_to_read(false, false, false, true), Some(ClipboardFormat::Bitmap));
    assert_eq!(format_to_read(false, false, false, false), None);
}

#[test]
fn content_hash_is_64_lower_hex_digits() {
    for snapshot in [
        ClipboardSnapshot::Text("\u{3000}全角 space\u{2028}".to_string()),
        ClipboardSnapshot::Image(Vec::new()),
        ClipboardSnapshot::FilePaths(vec!["C:\\x".to_string()]),
    ] {
        let h = content_hash(&snapshot);
        assert_eq!(h.len(), 64);
        assert!(h.chars().all(|c| c.is_ascii_digit() || ('a'..='f').contains(&c)));
    }
    assert_eq!(
        content_hash(&ClipboardSnapshot::Text("\u{3000}全角\u{85}".to_string())),
        content_hash(&ClipboardSnapshot::Text("全角".to_string()))
    );
}

#[test]
fn each_press_starts_at_most_once_and_ends_only_a_started_drag() {
    let mut s = idle();
    let mut signals = Vec::new();
    let events = [
        MouseEvent::LeftDown(0, 0),
        MouseEvent::Move(20, 0),
        MouseEvent::Move(40, 0),
        MouseEvent::Move(0, 0),
        MouseEvent::LeftUp,
        MouseEvent::LeftDown(0, 0),
        MouseEvent::Move(3, 3),
        MouseEvent::LeftUp,
        MouseEvent::Move(90, 90),
    ];
    for e in events {
        signals.push(handle_event(&mut s, e, 96, None));
    }
    let (n, st, en) = (DragSignal::Nothing, DragSignal::Start, DragSignal::End);
    assert_eq!(signals, vec![n, st, n, n, en, n, n, n, n]);
}

#[test]
fn start_comes_at_the_first_move_in_the_zone_after_the_threshold() {
    let zone = EdgeGeometry {
        edge: ShelfEdge::Right,
        work_area_x: 0,
        work_area_y: 0,
        work_area_width: 1920,
        work_area_height: 1040,
        edge_margin: 32,
    };
    let mut s = idle();
    handle_event(&mut s, MouseEvent::LeftDown(1900, 500), 96, Some(&zone));
    // In the zone but short of the threshold: nothing.
    assert_eq!(handle_event(&mut s, MouseEvent::Move(1903, 500), 96, Some(&zone)), DragSignal::Nothing);
    // Past the threshold but outside the zone: nothing yet.
    assert_eq!(handle_event(&mut s, MouseEvent::Move(1000, 500), 96, Some(&zone)), DragSignal::Nothing);
    // Back in the zone, close to the press again: the threshold was reached earlier, so the drag starts.
    assert_eq!(handle_event(&mut s, MouseEvent::Move(1901, 500), 96, Some(&zone)), DragSignal::Start);
    assert_eq!(handle_event(&mut s, MouseEvent::Move(1910, 500), 96, Some(&zone)), DragSignal::Nothing);
    assert_eq!(handle_event(&mut s, MouseEvent::LeftUp, 96, Some(&zone)), DragSignal::End);
}
