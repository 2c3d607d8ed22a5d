use ledge::clipboard::{content_hash, ClipboardSnapshot};
use ledge::error::ShelfError;
use ledge::history::ClipboardHistory;
use ledge::models::ClipboardContentType;

fn at(day: u32) -> String {
    format!("2024-01-{:02}T00:00:00.000Z", day)
}

fn record_text(h: &mut ClipboardHistory, text: &str, now: &str) {
    let snapshot = ClipboardSnapshot::Text(text.to_string());
    let hash = content_hash(&snapshot);
    h.record_entry(&snapshot, &hash, None, now).unwrap();
}

#[test]
fn record_and_list_text_entry() {
    let mut h = ClipboardHistory::new();
    record_text(&mut h, "hello", &at(1));
    let entries = h.list_history(None).unwrap();
    assert_eq!(entries.len(), 1);
    assert_eq!(entries[0].text_content.as_deref(), Some("hello"));
    assert!(!entries[0].pinned);
}

#[test]
fn duplicate_content_updates_timestamp_instead_of_inserting() {
    let mut h = ClipboardHistory::new();
    record_text(&mut h, "dup", &at(1));
    record_text(&mut h, "dup", &at(2));
    let entries = h.list_history(None).unwrap();
    assert_eq!(entries.len(), 1, "同一内容は新規行を作らず1件のままのはず");
    assert_eq!(entries[0].updated_at, at(2));
    assert_eq!(entries[0].created_at, at(1));
}

#[test]
fn pinned_state_is_preserved_across_duplicate_recording() {
    let mut h = ClipboardHistory::new();
    record_text(&mut h, "keep-pin", &at(1));
    let id = h.list_history(None).unwrap()[0].id;
    h.set_pinned(id, true).unwrap();

    record_text(&mut h, "keep-pin", &at(2));

    let entries = h.list_history(None).unwrap();
    assert_eq!(entries.len(), 1);
    assert!(entries[0].pinned, "重複記録後もピン留め状態が保持されるはず");
}

#[test]
fn image_snapshot_is_saved_to_cache_dir() {
    let mut h = ClipboardHistory::new();
    let snapshot = ClipboardSnapshot::Image(vec![1u8, 2, 3, 4]);
    let hash = content_hash(&snapshot);
    let path = format!("/cache/clipboard/{hash}.png");
    h.record_entry(&snapshot, &hash, Some(path.clone()), &at(1)).unwrap();

    let entries = h.list_history(None).unwrap();
    let image_path = entries[0].image_path.clone().unwrap();
    assert_eq!(image_path, path);
    assert_eq!(entries[0].thumbnail_path.as_deref(), Some(path.as_str()));
    assert_eq!(entries[0].content_type, ClipboardContentType::Image);
}

#[test]
fn delete_entry_removes_row_and_image_file() {
    let mut h = ClipboardHistory::new();
    let snapshot = ClipboardSnapshot::Image(vec![9, 9, 9]);
    let hash = content_hash(&snapshot);
    let path = format!("/cache/clipboard/{hash}.png");
    h.record_entry(&snapshot, &hash, Some(path.clone()), &at(1)).unwrap();
    let entries = h.list_history(None).unwrap();
    let image_path = entries[0].image_path.clone().unwrap();

    let to_remove = h.delete_entry(entries[0].id).unwrap();

    assert!(h.list_history(None).unwrap().is_empty());
    assert_eq!(to_remove, vec![image_path]);
}

#[test]
fn clear_excludes_pinned_when_requested() {
    let mut h = ClipboardHistory::new();
    record_text(&mut h, "a", &at(1));
    record_text(&mut h, "b", &at(2));
    let entries = h.list_history(None).unwrap();
    let pinned_id = entries.iter().find(|e| e.text_content.as_deref() == Some("a")).unwrap().id;
    h.set_pinned(pinned_id, true).unwrap();

    h.clear(true).unwrap();

    let remaining = h.list_history(None).unwrap();
    assert_eq!(remaining.len(), 1);
    assert_eq!(remaining[0].text_content.as_deref(), Some("a"));
}

#[test]
fn enforce_retention_by_count_deletes_oldest_unpinned_first() {
    let mut h = ClipboardHistory::new();
    for i in 0..5 {
        let text = format!("item-{i}");
        record_text(&mut h, &text, &at(10 + i));
    }
    // 30 days before the last recording
    h.enforce_retention(3, "2023-12-15T00:00:00.000Z").unwrap();

    let remaining = h.list_history(None).unwrap();
    assert_eq!(remaining.len(), 3, "件数上限を超えた分は削除されるはず");
    let texts: Vec<&str> = remaining.iter().map(|e| e.text_content.as_deref().unwrap()).collect();
    assert_eq!(texts, vec!["item-4", "item-3", "item-2"]);
}

#[test]
fn list_history_filters_by_query() {
    let mut h = ClipboardHistory::new();
    record_text(&mut h, "apple pie", &at(1));
    record_text(&mut h, "banana", &at(2));
    let results = h.list_history(Some("apple")).unwrap();
    assert_eq!(results.len(), 1);
    assert_eq!(results[0].text_content.as_deref(), Some("apple pie"));
}

#[test]
fn query_is_case_insensitive_for_ascii_and_searches_file_paths() {
    let mut h = ClipboardHistory::new();
    record_text(&mut h, "Hello World", &at(1));
    let files = ClipboardSnapshot::FilePaths(vec!["/docs/Report.pdf".to_string()]);
    let hash = content_hash(&files);
    h.record_entry(&files, &hash, None, &at(2)).unwrap();

    let r = h.list_history(Some("hello")).unwrap();
    assert_eq!(r.len(), 1);
    let r = h.list_history(Some("report")).unwrap();
    assert_eq!(r.len(), 1);
    assert_eq!(r[0].file_paths, Some(vec!["/docs/Report.pdf".to_string()]));
    assert_eq!(r[0].content_type, ClipboardContentType::FilePaths);
    let r = h.list_history(Some("w_rld")).unwrap();
    assert_eq!(r.len(), 0, "`_` in a query is matched literally");
    let r = h.list_history(Some("h%d")).unwrap();
    assert_eq!(r.len(), 0, "`%` in a query is matched literally");
    let r = h.list_history(Some("")).unwrap();
    assert_eq!(r.len(), 2);
}

#[test]
fn listing_puts_pinned_first_then_newest() {
    let mut h = ClipboardHistory::new();
    record_text(&mut h, "one", &at(1));
    record_text(&mut h, "two", &at(2));
    record_text(&mut h, "three", &at(3));
    let one = h.list_history(Some("one")).unwrap()[0].id;
    h.set_pinned(one, true).unwrap();
    let texts: Vec<String> =
        h.list_history(None).unwrap().iter().map(|e| e.text_content.clone().unwrap()).collect();
    assert_eq!(texts, vec!["one", "three", "two"]);

    // recording "two" again moves it up
    record_text(&mut h, "two", &at(4));
    let texts: Vec<String> =
        h.list_history(None).unwrap().iter().map(|e| e.text_content.clone().unwrap()).collect();
    assert_eq!(texts, vec!["one", "two", "three"]);
}

#[test]
fn surrounding_space_does_not_make_new_content() {
    let mut h = ClipboardHistory::new();
    record_text(&mut h, "same", &at(1));
    record_text(&mut h, "  same\n", &at(2));
    let entries = h.list_history(None).unwrap();
    assert_eq!(entries.len(), 1);
    assert_eq!(entries[0].text_content.as_deref(), Some("same"));
}

#[test]
fn image_without_stored_file_is_an_internal_error() {
    let mut h = ClipboardHistory::new();
    let snapshot = ClipboardSnapshot::Image(vec![5, 5]);
    let hash = content_hash(&snapshot);
    let r = h.record_entry(&snapshot, &hash, None, &at(1));
    assert!(matches!(r, Err(ShelfError::Internal(_))));
    assert!(h.list_history(None).unwrap().is_empty());
}

#[test]
fn get_entry_and_missing_entry() {
    let mut h = ClipboardHistory::new();
    record_text(&mut h, "x", &at(1));
    let id = h.list_history(None).unwrap()[0].id;
    let e = h.get_entry(id).unwrap();
    assert_eq!(e.text_content.as_deref(), Some("x"));
    assert_eq!(e.content_hash, content_hash(&ClipboardSnapshot::Text("x".to_string())));
    match h.get_entry(77) {
        Err(ShelfError::NotFound(m)) => assert_eq!(m, "clipboard entry id=77"),
        other => panic!("unexpected {:?}", other),
    }
    assert!(matches!(h.set_pinned(77, true), Err(ShelfError::NotFound(_))));
    assert!(matches!(h.delete_entry(77), Err(ShelfError::NotFound(_))));
}

#[test]
fn retention_by_age_keeps_pinned_and_recent() {
    let mut h = ClipboardHistory::new();
    record_text(&mut h, "old-pinned", &at(1));
    record_text(&mut h, "old", &at(2));
    record_text(&mut h, "recent", &at(20));
    let pinned = h.list_history(Some("old-pinned")).unwrap()[0].id;
    h.set_pinned(pinned, true).unwrap();

    h.enforce_retention(500, &at(10)).unwrap();

    let texts: Vec<String> =
        h.list_history(None).unwrap().iter().map(|e| e.text_content.clone().unwrap()).collect();
    assert_eq!(texts, vec!["old-pinned", "recent"]);
}

#[test]
fn retention_by_count_never_deletes_pinned() {
    let mut h = ClipboardHistory::new();
    for i in 0..4 {
        record_text(&mut h, &format!("p{i}"), &at(1 + i));
    }
    for e in h.list_history(None).unwrap() {
        h.set_pinned(e.id, true).unwrap();
    }
    record_text(&mut h, "free", &at(9));
    let removed = h.enforce_retention(2, &at(1)).unwrap();
    assert!(removed.is_empty());
    let remaining = h.list_history(None).unwrap();
    assert_eq!(remaining.len(), 4, "only the unpinned entry can go");
    assert!(remaining.iter().all(|e| e.pinned));
}

#[test]
fn retention_returns_image_files_of_deleted_entries() {
    let mut h = ClipboardHistory::new();
    let img = ClipboardSnapshot::Image(vec![1, 1]);
    let hash = content_hash(&img);
    h.record_entry(&img, &hash, Some("/c/old.png".to_string()), &at(1)).unwrap();
    record_text(&mut h, "new", &at(5));
    let removed = h.enforce_retention(500, &at(3)).unwrap();
    assert_eq!(removed, vec!["/c/old.png".to_string()]);
}

#[test]
fn stored_parts_rebuild_the_same_history() {
    let mut h = ClipboardHistory::new();
    record_text(&mut h, "a", &at(1));
    let t = h.create_tag("work", None).unwrap();
    let id = h.list_history(None).unwrap()[0].id;
    h.set_clipboard_tags(id, &[t.id]).unwrap();

    let again = ClipboardHistory::from_parts(
        h.stored_entries(),
        h.last_assigned_entry_id(),
        h.stored_tags(),
        h.last_assigned_tag_id(),
        h.stored_links(),
    )
    .unwrap();
    let e = again.get_entry(id).unwrap();
    assert_eq!(e.tags.len(), 1);
    assert_eq!(e.tags[0].name, "work");

    let bad = ClipboardHistory::from_parts(h.stored_entries(), 0, h.stored_tags(), 1, h.stored_links());
    assert!(matches!(bad, Err(ShelfError::Database(_))));
    let dangling = ClipboardHistory::from_parts(
        h.stored_entries(),
        h.last_assigned_entry_id(),
        Vec::new(),
        0,
        h.stored_links(),
    );
    assert!(matches!(dangling, Err(ShelfError::Database(_))));
}

#[test]
fn query_wildcards_are_literal() {
    let mut h = ClipboardHistory::new();
    record_text(&mut h, "100% sure", &at(1));
    record_text(&mut h, "a_b and c\\d", &at(2));
    record_text(&mut h, "plain", &at(3));
    let texts = |h: &ClipboardHistory, q: &str| -> Vec<String> {
        h.list_history(Some(q)).unwrap().iter().map(|e| e.text_content.clone().unwrap()).collect()
    };
    assert_eq!(texts(&h, "% s"), vec!["100% sure"]);
    assert_eq!(texts(&h, "a_b"), vec!["a_b and c\\d"]);
    assert_eq!(texts(&h, "c\\d"), vec!["a_b and c\\d"]);
    assert!(texts(&h, "a%b").is_empty());
    assert!(texts(&h, "p_ain").is_empty());
}

#[test]
fn query_searches_tag_names() {
    let mut h = ClipboardHistory::new();
    record_text(&mut h, "meeting notes", &at(1));
    record_text(&mut h, "grocery list", &at(2));
    let notes = h.list_history(Some("meeting")).unwrap()[0].id;
    let t = h.create_tag("Work", None).unwrap();
    h.set_clipboard_tags(notes, &[t.id]).unwrap();
    let r = h.list_history(Some("work")).unwrap();
    assert_eq!(r.len(), 1);
    assert_eq!(r[0].id, notes);
}

#[test]
fn file_paths_are_stored_as_a_compact_json_array() {
    let mut h = ClipboardHistory::new();
    let snapshot = ClipboardSnapshot::FilePaths(vec![
        "C:\\dir\\a \"b\".txt".to_string(),
        "/tmp/line\nbreak\u{1}".to_string(),
        "写真.png".to_string(),
    ]);
    let hash = content_hash(&snapshot);
    h.record_entry(&snapshot, &hash, None, &at(1)).unwrap();
    let rows = h.stored_entries();
    assert_eq!(
        rows[0].file_paths_json.as_deref(),
        Some("[\"C:\\\\dir\\\\a \\\"b\\\".txt\",\"/tmp/line\\nbreak\\u0001\",\"写真.png\"]")
    );
    let read = h.list_history(None).unwrap();
    assert_eq!(read[0].file_paths.as_ref().unwrap()[1], "/tmp/line\nbreak\u{1}");
}
