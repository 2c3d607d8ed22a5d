use std::collections::BTreeSet;
use std::io::Read;

use ledge::archive::{archive_entry_name, archive_root_name, build_zip, ArchiveEntry};

fn zip_entries(bytes: Vec<u8>) -> (BTreeSet<String>, String) {
    let mut archive = zip::ZipArchive::new(std::io::Cursor::new(bytes)).unwrap();
    let mut names = BTreeSet::new();
    let mut first_file_content = String::new();
    for i in 0..archive.len() {
        let mut entry = archive.by_index(i).unwrap();
        names.insert(entry.name().to_string());
        if entry.is_file() && first_file_content.is_empty() {
            let _ = entry.read_to_string(&mut first_file_content);
        }
    }
    (names, first_file_content)
}

fn file(name: String, text: &str) -> ArchiveEntry {
    ArchiveEntry { name, contents: Some(text.as_bytes().to_vec()) }
}

fn folder(name: String) -> ArchiveEntry {
    ArchiveEntry { name, contents: None }
}

#[test]
fn compress_single_file() {
    let entries = vec![file("hello.txt".to_string(), "hello world")];
    let bytes = build_zip(&entries).unwrap();
    assert!(!bytes.is_empty());
    let (names, content) = zip_entries(bytes);
    assert_eq!(names, BTreeSet::from(["hello.txt".to_string()]));
    assert_eq!(content, "hello world");
}

#[test]
fn compress_folder_recursively() {
    let entries = vec![
        folder(archive_root_name("folder")),
        file(archive_entry_name("folder", "a.txt", false), "A"),
        folder(archive_entry_name("folder", "nested", true)),
        file(archive_entry_name("folder", "nested/b.txt", false), "B"),
    ];
    let (names, _) = zip_entries(build_zip(&entries).unwrap());
    assert!(names.contains("folder/"));
    assert!(names.contains("folder/a.txt"));
    assert!(names.contains("folder/nested/"));
    assert!(names.contains("folder/nested/b.txt"));
}

#[test]
fn entry_names_use_forward_slashes() {
    assert_eq!(archive_entry_name("root", "sub\\deep\\x.txt", false), "root/sub/deep/x.txt");
    assert_eq!(archive_entry_name("root", "sub\\deep", true), "root/sub/deep/");
    assert_eq!(archive_root_name("写真"), "写真/");
}

#[test]
fn same_entries_give_the_same_archive() {
    let make = || vec![folder("d/".to_string()), file("d/x".to_string(), "xyz")];
    assert_eq!(build_zip(&make()).unwrap(), build_zip(&make()).unwrap());
}

#[test]
fn duplicate_entry_is_an_internal_error() {
    let entries = vec![file("x".to_string(), "1"), file("x".to_string(), "2")];
    match build_zip(&entries) {
        Err(ledge::error::ShelfError::Internal(m)) => assert!(m.starts_with("圧縮処理に失敗しました: ")),
        other => panic!("unexpected {:?}", other),
    }
}

#[test]
fn directory_entries_get_a_final_slash() {
    let entries = vec![folder("plain".to_string()), file("plain/x.txt".to_string(), "x")];
    let (names, content) = zip_entries(build_zip(&entries).unwrap());
    assert_eq!(names, BTreeSet::from(["plain/".to_string(), "plain/x.txt".to_string()]));
    assert_eq!(content, "x");
}

#[test]
fn directory_and_its_slashed_name_collide() {
    let entries = vec![folder("d".to_string()), folder("d/".to_string())];
    assert!(matches!(build_zip(&entries), Err(ledge::error::ShelfError::Internal(_))));
    let distinct = vec![folder("d".to_string()), folder("e/".to_string()), file("d/f".to_string(), "")];
    assert!(build_zip(&distinct).is_ok());
}
