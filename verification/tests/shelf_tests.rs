use ledge::error::ShelfError;
use ledge::models::ShelfItemType;
use ledge::shelf::{PathStatus, ShelfTable};

const NOW: &str = "2024-05-01T10:00:00.000Z";

fn absent() -> PathStatus {
    PathStatus { exists: false, is_dir: false, size_bytes: None, modified_at_ms: None }
}

fn file(size: i64, modified: i64) -> PathStatus {
    PathStatus { exists: true, is_dir: false, size_bytes: Some(size), modified_at_ms: Some(modified) }
}

fn dir() -> PathStatus {
    PathStatus { exists: true, is_dir: true, size_bytes: Some(4096), modified_at_ms: Some(7) }
}

fn statuses(table: &ShelfTable, st: PathStatus) -> Vec<PathStatus> {
    table.source_paths().iter().map(|_| st).collect()
}

fn add(table: &mut ShelfTable, paths: &[&str], at: &str) -> Vec<ledge::models::ShelfItem> {
    let paths: Vec<String> = paths.iter().map(|p| p.to_string()).collect();
    let probes: Vec<PathStatus> = paths.iter().map(|_| absent()).collect();
    table.add_paths(&paths, &probes, at).unwrap()
}

#[test]
fn shelf_repo_add_and_list_items() {
    let mut table = ShelfTable::new();
    let added = add(&mut table, &["/tmp/example.txt"], NOW);
    assert_eq!(added.len(), 1);
    assert_eq!(added[0].display_name, "example.txt");
    assert!(added[0].missing, "存在しないパスなのでmissingになるはず");

    let items = table.list_items(&statuses(&table, absent()));
    assert_eq!(items.len(), 1);
}

#[test]
fn duplicate_paths_are_added_as_separate_items() {
    let mut table = ShelfTable::new();
    add(&mut table, &["/tmp/dup.txt", "/tmp/dup.txt"], NOW);
    let items = table.list_items(&statuses(&table, absent()));
    assert_eq!(items.len(), 2);
}

#[test]
fn remove_item_errors_when_not_found() {
    let mut table = ShelfTable::new();
    let result = table.remove_item(999);
    assert!(matches!(result, Err(ShelfError::NotFound(_))));
}

#[test]
fn clear_with_exclude_locked_false_removes_all_items() {
    let mut table = ShelfTable::new();
    add(&mut table, &["/tmp/a.txt", "/tmp/b.txt"], NOW);
    table.clear(false).unwrap();
    let items = table.list_items(&statuses(&table, absent()));
    assert!(items.is_empty());
}

#[test]
fn clear_with_exclude_locked_true_keeps_locked_items() {
    let mut table = ShelfTable::new();
    let added = add(&mut table, &["/tmp/a.txt", "/tmp/b.txt"], NOW);
    table.set_locked(added[0].id, true).unwrap();

    table.clear(true).unwrap();

    let items = table.list_items(&statuses(&table, absent()));
    assert_eq!(items.len(), 1, "ロック済みアイテムだけが残るはず");
    assert_eq!(items[0].id, added[0].id);
    assert!(items[0].locked);
}

#[test]
fn set_locked_toggles_flag() {
    let mut table = ShelfTable::new();
    let added = add(&mut table, &["/tmp/a.txt"], NOW);
    assert!(!added[0].locked);

    table.set_locked(added[0].id, true).unwrap();
    let items = table.list_items(&statuses(&table, absent()));
    assert!(items[0].locked);

    table.set_locked(added[0].id, false).unwrap();
    let items = table.list_items(&statuses(&table, absent()));
    assert!(!items[0].locked);
}

#[test]
fn set_locked_errors_when_not_found() {
    let mut table = ShelfTable::new();
    let result = table.set_locked(999, true);
    assert!(matches!(result, Err(ShelfError::NotFound(_))));
}

#[test]
fn added_items_get_ids_sort_orders_types_and_sizes() {
    let mut table = ShelfTable::new();
    let paths = vec!["/home/u/report.pdf".to_string(), "/home/u/photos".to_string()];
    let probes = vec![file(1234, 99), dir()];
    let added = table.add_paths(&paths, &probes, NOW).unwrap();
    assert_eq!(added[0].id, 1);
    assert_eq!(added[1].id, 2);
    assert_eq!(added[0].sort_order, 0);
    assert_eq!(added[1].sort_order, 1);
    assert_eq!(added[0].item_type, ShelfItemType::File);
    assert_eq!(added[1].item_type, ShelfItemType::Folder);
    assert_eq!(added[0].size_bytes, Some(1234));
    assert_eq!(added[1].size_bytes, None, "folders are not measured");
    assert_eq!(added[0].modified_at_ms, Some(99));
    assert!(!added[0].missing);
    assert_eq!(added[1].display_name, "photos");
    assert_eq!(added[0].added_at, NOW);

    let more = add(&mut table, &["/x/y.txt"], NOW);
    assert_eq!(more[0].id, 3);
    assert_eq!(more[0].sort_order, 2);
}

#[test]
fn ids_are_not_reused_after_removal() {
    let mut table = ShelfTable::new();
    let added = add(&mut table, &["/a", "/b"], NOW);
    table.remove_item(added[1].id).unwrap();
    let more = add(&mut table, &["/c"], NOW);
    assert_eq!(more[0].id, 3);
    assert_eq!(table.last_assigned_id(), 3);
}

#[test]
fn listing_is_newest_first_then_larger_id() {
    let mut table = ShelfTable::new();
    add(&mut table, &["/old"], "2024-01-01T00:00:00.000Z");
    add(&mut table, &["/new1", "/new2"], "2024-02-01T00:00:00.000Z");
    let items = table.list_items(&statuses(&table, absent()));
    let paths: Vec<&str> = items.iter().map(|i| i.source_path.as_str()).collect();
    assert_eq!(paths, vec!["/new2", "/new1", "/old"]);
}

#[test]
fn remove_item_removes_regardless_of_lock() {
    let mut table = ShelfTable::new();
    let added = add(&mut table, &["/a", "/b"], NOW);
    table.set_locked(added[0].id, true).unwrap();
    table.remove_item(added[0].id).unwrap();
    let items = table.list_items(&statuses(&table, absent()));
    assert_eq!(items.len(), 1);
    assert_eq!(items[0].id, added[1].id);
}

#[test]
fn not_found_message_names_the_id() {
    let mut table = ShelfTable::new();
    match table.remove_item(-5) {
        Err(e) => {
            assert_eq!(e.code(), "not_found");
            assert_eq!(e.message(), "指定されたアイテムが見つかりません: shelf item id=-5");
        }
        Ok(_) => panic!("expected an error"),
    }
}

#[test]
fn get_paths_skips_unknown_ids_and_keeps_order() {
    let mut table = ShelfTable::new();
    let added = add(&mut table, &["/a", "/b", "/c"], NOW);
    let ids = vec![added[2].id, 42, added[0].id];
    let paths = table.get_paths(&ids).unwrap();
    assert_eq!(paths, vec!["/c".to_string(), "/a".to_string()]);
}

#[test]
fn from_rows_round_trips_stored_rows() {
    let mut table = ShelfTable::new();
    add(&mut table, &["/a", "/b"], NOW);
    let rows = table.stored_rows();
    let again = ShelfTable::from_rows(rows, table.last_assigned_id()).unwrap();
    assert_eq!(again.len(), 2);
    assert_eq!(again.source_paths(), vec!["/a".to_string(), "/b".to_string()]);
}

#[test]
fn from_rows_refuses_ids_out_of_order() {
    let mut table = ShelfTable::new();
    add(&mut table, &["/a", "/b"], NOW);
    let mut rows = table.stored_rows();
    rows.reverse();
    assert!(matches!(ShelfTable::from_rows(rows, 2), Err(ShelfError::Database(_))));
}

#[test]
fn plain_paths_are_named_by_their_last_segment() {
    let mut table = ShelfTable::new();
    let added = add(&mut table, &["docs/report.pdf", "/var//log/app.log", "./notes", "single"], NOW);
    let names: Vec<&str> = added.iter().map(|i| i.display_name.as_str()).collect();
    assert_eq!(names, vec!["report.pdf", "app.log", "notes", "single"]);
}

#[test]
fn locking_twice_keeps_the_second_value() {
    let mut table = ShelfTable::new();
    let added = add(&mut table, &["/tmp/a.txt", "/tmp/b.txt"], NOW);
    let before = table.list_items(&statuses(&table, absent()));
    table.set_locked(added[0].id, true).unwrap();
    table.set_locked(added[0].id, false).unwrap();
    let after = table.list_items(&statuses(&table, absent()));
    assert_eq!(format!("{:?}", before), format!("{:?}", after));
    table.set_locked(added[1].id, false).unwrap();
    table.set_locked(added[1].id, true).unwrap();
    let items = table.list_items(&statuses(&table, absent()));
    assert!(items.iter().any(|i| i.id == added[1].id && i.locked));
    assert!(items.iter().any(|i| i.id == added[0].id && !i.locked));
}
