use ledge::clipboard::{content_hash, ClipboardSnapshot};
use ledge::error::ShelfError;
use ledge::history::ClipboardHistory;

fn with_entry(text: &str) -> (ClipboardHistory, i64) {
    let mut h = ClipboardHistory::new();
    let s = ClipboardSnapshot::Text(text.to_string());
    let hash = content_hash(&s);
    h.record_entry(&s, &hash, None, "2024-01-01T00:00:00.000Z").unwrap();
    let id = h.list_history(None).unwrap()[0].id;
    (h, id)
}

fn tag_ids_of(h: &ClipboardHistory, id: i64) -> Vec<i64> {
    h.get_entry(id).unwrap().tags.iter().map(|t| t.id).collect()
}

#[test]
fn create_and_list_tags() {
    let mut h = ClipboardHistory::new();
    h.create_tag("work", Some("#3b82f6")).unwrap();
    h.create_tag("personal", None).unwrap();
    let tags = h.list_tags().unwrap();
    assert_eq!(tags.len(), 2);
    assert_eq!(tags[0].name, "personal", "name昇順で並ぶはず");
    assert_eq!(tags[1].color.as_deref(), Some("#3b82f6"));
}

#[test]
fn create_tag_with_duplicate_name_returns_conflict() {
    let mut h = ClipboardHistory::new();
    h.create_tag("work", None).unwrap();
    let result = h.create_tag("work", None);
    assert!(matches!(result, Err(ShelfError::Conflict(_))));
}

#[test]
fn delete_tag_errors_when_not_found() {
    let mut h = ClipboardHistory::new();
    let result = h.delete_tag(999);
    assert!(matches!(result, Err(ShelfError::NotFound(_))));
}

#[test]
fn set_clipboard_tags_replaces_existing_associations() {
    let (mut h, clipboard_id) = with_entry("hello");
    let tag_a = h.create_tag("a", None).unwrap();
    let tag_b = h.create_tag("b", None).unwrap();

    h.set_clipboard_tags(clipboard_id, &[tag_a.id, tag_b.id]).unwrap();
    let count = tag_ids_of(&h, clipboard_id).len();
    assert_eq!(count, 2);

    h.set_clipboard_tags(clipboard_id, &[tag_a.id]).unwrap();
    let remaining = tag_ids_of(&h, clipboard_id);
    assert_eq!(remaining, vec![tag_a.id]);
}

#[test]
fn set_clipboard_tags_errors_when_entry_not_found() {
    let mut h = ClipboardHistory::new();
    let result = h.set_clipboard_tags(999, &[]);
    assert!(matches!(result, Err(ShelfError::NotFound(_))));
}

#[test]
fn conflict_message_names_the_tag() {
    let mut h = ClipboardHistory::new();
    h.create_tag("仕事", None).unwrap();
    match h.create_tag("仕事", None) {
        Err(e) => assert_eq!(e.message(), "タグ名「仕事」は既に使用されています"),
        Ok(_) => panic!("expected a conflict"),
    }
    match h.delete_tag(12) {
        Err(ShelfError::NotFound(m)) => assert_eq!(m, "tag id=12"),
        other => panic!("unexpected {:?}", other),
    }
}

#[test]
fn tag_ids_count_up_and_are_not_reused() {
    let mut h = ClipboardHistory::new();
    let a = h.create_tag("a", None).unwrap();
    let b = h.create_tag("b", None).unwrap();
    h.delete_tag(b.id).unwrap();
    let c = h.create_tag("c", None).unwrap();
    assert_eq!((a.id, b.id, c.id), (1, 2, 3));
    let names: Vec<String> = h.list_tags().unwrap().into_iter().map(|t| t.name).collect();
    assert_eq!(names, vec!["a", "c"]);
}

#[test]
fn deleting_a_tag_detaches_it() {
    let (mut h, id) = with_entry("x");
    let a = h.create_tag("a", None).unwrap();
    let b = h.create_tag("b", None).unwrap();
    h.set_clipboard_tags(id, &[a.id, b.id]).unwrap();
    h.delete_tag(a.id).unwrap();
    assert_eq!(tag_ids_of(&h, id), vec![b.id]);
}

#[test]
fn deleting_an_entry_drops_its_tags() {
    let (mut h, id) = with_entry("x");
    let a = h.create_tag("a", None).unwrap();
    h.set_clipboard_tags(id, &[a.id]).unwrap();
    h.delete_entry(id).unwrap();
    assert!(h.stored_links().is_empty());
    assert_eq!(h.list_tags().unwrap().len(), 1, "the tag itself stays");
}

#[test]
fn unknown_or_repeated_tag_is_a_database_error_keeping_earlier_ones() {
    let (mut h, id) = with_entry("x");
    let a = h.create_tag("a", None).unwrap();
    match h.set_clipboard_tags(id, &[a.id, 55]) {
        Err(ShelfError::Database(m)) => assert_eq!(m, "FOREIGN KEY constraint failed"),
        other => panic!("unexpected {:?}", other),
    }
    assert_eq!(tag_ids_of(&h, id), vec![a.id]);
    match h.set_clipboard_tags(id, &[a.id, a.id]) {
        Err(ShelfError::Database(m)) => {
            assert_eq!(m, "UNIQUE constraint failed: clipboard_tags.clipboard_id, clipboard_tags.tag_id")
        }
        other => panic!("unexpected {:?}", other),
    }
    assert_eq!(tag_ids_of(&h, id), vec![a.id]);
}

#[test]
fn listed_entries_carry_their_tags() {
    let (mut h, id) = with_entry("x");
    let w = h.create_tag("work", Some("#fff")).unwrap();
    h.set_clipboard_tags(id, &[w.id]).unwrap();
    let e = &h.list_history(None).unwrap()[0];
    assert_eq!(e.tags.len(), 1);
    assert_eq!(e.tags[0].name, "work");
    assert_eq!(e.tags[0].color.as_deref(), Some("#fff"));
}
