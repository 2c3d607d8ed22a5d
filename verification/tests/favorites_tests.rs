use ledge::error::ShelfError;
use ledge::favorites::FavoriteTable;
use ledge::shelf::PathStatus;

const NOW: &str = "2024-05-01T10:00:00.000Z";

fn folder() -> PathStatus {
    PathStatus { exists: true, is_dir: true, size_bytes: None, modified_at_ms: None }
}

fn gone() -> PathStatus {
    PathStatus { exists: false, is_dir: false, size_bytes: None, modified_at_ms: None }
}

fn temp_dir_path(name: &str) -> String {
    format!("/tmp/ledge-favorite-folder-repo-test-{name}")
}

fn all(table: &FavoriteTable, st: PathStatus) -> Vec<PathStatus> {
    table.folder_paths().iter().map(|_| st).collect()
}

#[test]
fn favorite_folder_repo_add_and_list_items() {
    let mut table = FavoriteTable::new();
    let path = temp_dir_path("add_and_list");

    let added = table.add(&path, folder(), NOW).unwrap();
    assert_eq!(added.display_name, "ledge-favorite-folder-repo-test-add_and_list");
    assert!(!added.missing, "実在するフォルダなのでmissingにならないはず");

    let items = table.list_items(&all(&table, folder()));
    assert_eq!(items.len(), 1);
    assert_eq!(items[0].folder_path, path);
}

#[test]
fn add_with_non_directory_path_returns_internal_error() {
    let mut table = FavoriteTable::new();
    let result = table.add("/path/does/not/exist-at-all-12345", gone(), NOW);
    assert!(matches!(result, Err(ShelfError::Internal(_))));
}

#[test]
fn add_with_duplicate_path_returns_conflict() {
    let mut table = FavoriteTable::new();
    let path = temp_dir_path("duplicate");
    table.add(&path, folder(), NOW).unwrap();
    let result = table.add(&path, folder(), NOW);
    assert!(matches!(result, Err(ShelfError::Conflict(_))));
}

#[test]
fn missing_flag_is_true_when_directory_removed() {
    let mut table = FavoriteTable::new();
    let path = temp_dir_path("missing_flag");
    table.add(&path, folder(), NOW).unwrap();

    let items = table.list_items(&all(&table, gone()));
    assert_eq!(items.len(), 1);
    assert!(items[0].missing);
}

#[test]
fn remove_deletes_item() {
    let mut table = FavoriteTable::new();
    let added = table.add(&temp_dir_path("remove"), folder(), NOW).unwrap();
    table.remove(added.id).unwrap();
    let items = table.list_items(&all(&table, folder()));
    assert!(items.is_empty());
}

#[test]
fn remove_errors_when_not_found() {
    let mut table = FavoriteTable::new();
    let result = table.remove(999);
    assert!(matches!(result, Err(ShelfError::NotFound(_))));
}

#[test]
fn get_path_returns_folder_path() {
    let mut table = FavoriteTable::new();
    let path = temp_dir_path("get_path");
    let added = table.add(&path, folder(), NOW).unwrap();
    let fetched = table.get_path(added.id).unwrap();
    assert_eq!(fetched, path);
}

#[test]
fn get_path_errors_when_not_found() {
    let table = FavoriteTable::new();
    let result = table.get_path(999);
    assert!(matches!(result, Err(ShelfError::NotFound(_))));
}

#[test]
fn sort_order_increments_with_each_add() {
    let mut table = FavoriteTable::new();
    let a = table.add(&temp_dir_path("sort_a"), folder(), NOW).unwrap();
    let b = table.add(&temp_dir_path("sort_b"), folder(), NOW).unwrap();
    assert_eq!(a.sort_order, 0);
    assert_eq!(b.sort_order, 1);
}

#[test]
fn error_texts_of_favourites() {
    let mut table = FavoriteTable::new();
    match table.add("/etc/hosts", gone(), NOW) {
        Err(ShelfError::Internal(m)) => assert_eq!(m, "指定されたパスはフォルダではありません"),
        other => panic!("unexpected {:?}", other),
    }
    table.add("/data", folder(), NOW).unwrap();
    match table.add("/data", folder(), NOW) {
        Err(e) => {
            assert_eq!(e.code(), "conflict");
            assert_eq!(e.message(), "このフォルダは既に登録されています");
        }
        Ok(_) => panic!("expected a conflict"),
    }
    match table.remove(7) {
        Err(ShelfError::NotFound(m)) => assert_eq!(m, "favorite folder id=7"),
        other => panic!("unexpected {:?}", other),
    }
}

#[test]
fn listing_follows_sort_order_and_removal_keeps_others() {
    let mut table = FavoriteTable::new();
    let a = table.add("/a", folder(), NOW).unwrap();
    let b = table.add("/b", folder(), NOW).unwrap();
    let c = table.add("/c", folder(), NOW).unwrap();
    table.remove(b.id).unwrap();
    let d = table.add("/d", folder(), NOW).unwrap();
    assert_eq!(d.sort_order, 3, "the next sort order follows the largest one kept");
    assert_eq!(d.id, 4);
    let items = table.list_items(&all(&table, folder()));
    let ids: Vec<i64> = items.iter().map(|f| f.id).collect();
    assert_eq!(ids, vec![a.id, c.id, d.id]);
}

#[test]
fn root_path_is_its_own_display_name() {
    let mut table = FavoriteTable::new();
    let f = table.add("/", folder(), NOW).unwrap();
    assert_eq!(f.display_name, "/");
}

#[test]
fn favourite_is_named_by_its_last_segment_and_found_by_its_id() {
    let mut table = FavoriteTable::new();
    let a = table.add("/home/user/Projects", folder(), NOW).unwrap();
    let b = table.add("work/2024", folder(), NOW).unwrap();
    assert_eq!(a.display_name, "Projects");
    assert_eq!(b.display_name, "2024");
    assert_eq!(table.get_path(a.id).unwrap(), "/home/user/Projects");
    assert_eq!(table.get_path(b.id).unwrap(), "work/2024");
}
