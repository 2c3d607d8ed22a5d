//! The records that the library hands to the front end, and the text forms in which
//! their kinds are stored.

use vstd::prelude::*;
use crate::text::str_eq;
use vstd::string::*;

verus! {

/// The kind of a shelf item.
#[derive(Debug, Clone, Copy, PartialEq, Eq, Structural)]
pub enum ShelfItemType {
    File,
    Folder,
}

impl ShelfItemType {
    /// The text stored in the `item_type` column.
    pub open spec fn db_text(self) -> Seq<char> {
        match self {
            ShelfItemType::File => "file"@,
            ShelfItemType::Folder => "folder"@,
        }
    }

    /// The kind read back from a stored text: `"folder"` is a folder, anything else a file.
    pub open spec fn parse_db(s: Seq<char>) -> ShelfItemType {
        if s == "folder"@ {
            ShelfItemType::Folder
        } else {
            ShelfItemType::File
        }
    }

    pub fn as_db_str(self) -> (r: &'static str)
        ensures
            r@ == self.db_text(),
    {
        match self {
            ShelfItemType::File => "file",
            ShelfItemType::Folder => "folder",
        }
    }

    pub fn from_db_str(s: &str) -> (r: ShelfItemType)
        ensures
            r == ShelfItemType::parse_db(s@),
    {
        if str_eq(s, "folder") {
            ShelfItemType::Folder
        } else {
            ShelfItemType::File
        }
    }
}

/// Reading back the stored text of a kind gives the kind.
pub proof fn lemma_shelf_item_type_roundtrip(t: ShelfItemType)
    ensures
        ShelfItemType::parse_db(t.db_text()) == t,
{
    reveal_strlit("file");
    reveal_strlit("folder");
    assert("file"@.len() != "folder"@.len());
}

/// The kind of a clipboard history entry.
#[derive(Debug, Clone, Copy, PartialEq, Eq, Structural)]
pub enum ClipboardContentType {
    Text,
    Image,
    FilePaths,
}

impl ClipboardContentType {
    /// The text stored in the `content_type` column.
    pub open spec fn db_text(self) -> Seq<char> {
        match self {
            ClipboardContentType::Text => "text"@,
            ClipboardContentType::Image => "image"@,
            ClipboardContentType::FilePaths => "file_paths"@,
        }
    }

    /// The kind read back from a stored text: `"image"` and `"file_paths"` name their
    /// kinds, anything else is text.
    pub open spec fn parse_db(s: Seq<char>) -> ClipboardContentType {
        if s == "image"@ {
            ClipboardContentType::Image
        } else if s == "file_paths"@ {
            ClipboardContentType::FilePaths
        } else {
            ClipboardContentType::Text
        }
    }

    pub fn as_db_str(self) -> (r: &'static str)
        ensures
            r@ == self.db_text(),
    {
        match self {
            ClipboardContentType::Text => "text",
            ClipboardContentType::Image => "image",
            ClipboardContentType::FilePaths => "file_paths",
        }
    }

    pub fn from_db_str(s: &str) -> (r: ClipboardContentType)
        ensures
            r == ClipboardContentType::parse_db(s@),
    {
        if str_eq(s, "image") {
            ClipboardContentType::Image
        } else if str_eq(s, "file_paths") {
            ClipboardContentType::FilePaths
        } else {
            ClipboardContentType::Text
        }
    }
}

/// Reading back the stored text of a kind gives the kind.
pub proof fn lemma_clipboard_content_type_roundtrip(t: ClipboardContentType)
    ensures
        ClipboardContentType::parse_db(t.db_text()) == t,
{
    reveal_strlit("text");
    reveal_strlit("image");
    reveal_strlit("file_paths");
    assert("text"@.len() != "image"@.len());
    assert("text"@.len() != "file_paths"@.len());
    assert("image"@.len() != "file_paths"@.len());
}

/// One item of the shelf: its stored record together with what was found on disk
/// when it was listed (`missing`, `modified_at_ms`).
#[derive(Debug, Clone)]
pub struct ShelfItem {
    pub id: i64,
    pub item_type: ShelfItemType,
    pub source_path: String,
    pub display_name: String,
    pub size_bytes: Option<i64>,
    pub locked: bool,
    pub sort_order: i64,
    pub added_at: String,
    pub missing: bool,
    pub modified_at_ms: Option<i64>,
}

/// A folder registered as a favourite, with `missing` found on disk when listed.
#[derive(Debug, Clone)]
pub struct FavoriteFolder {
    pub id: i64,
    pub folder_path: String,
    pub display_name: String,
    pub sort_order: i64,
    pub added_at: String,
    pub missing: bool,
}

/// A tag that can be attached to clipboard entries.
#[derive(Debug, Clone)]
pub struct Tag {
    pub id: i64,
    pub name: String,
    pub color: Option<String>,
}

/// One entry of the clipboard history.
#[derive(Debug, Clone)]
pub struct ClipboardEntry {
    pub id: i64,
    pub content_type: ClipboardContentType,
    pub text_content: Option<String>,
    pub image_path: Option<String>,
    pub thumbnail_path: Option<String>,
    /// Present only for `FilePaths` entries.
    pub file_paths: Option<Vec<String>>,
    pub pinned: bool,
    pub created_at: String,
    pub updated_at: String,
    pub content_hash: String,
    pub tags: Vec<Tag>,
}

} // verus!
