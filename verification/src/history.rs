//! The clipboard history: recorded clipboard contents, the tags that can be attached to
//! them, and the attachments.
//!
//! Entries and tags keep their rows in insertion order (ascending id) and get ids like
//! SQLite's `AUTOINCREMENT`. A content hash occurs in at most one entry, a tag name in at
//! most one tag, and an attachment joins an existing entry to an existing tag at most
//! once. Deleting an entry or a tag deletes its attachments.

use vstd::prelude::*;
use crate::clipboard::{ClipboardSnapshot, SnapshotView, hex_digit};
use crate::error::ShelfError;
use crate::search::{ascii_fold, contains_query, contains_query_str, occurs_at};
use crate::models::{ClipboardContentType, ClipboardEntry, Tag};
use crate::retention::{lemma_retention_leaves, unpinned_count};
use crate::sort::{RowOrder, sorted_positions, is_permutation, is_sorted_by, occurs};
use crate::text::{append_i64, append_str, int_decimal, seq_less, str_eq, str_less, strings_view, to_string,
    lemma_seq_less_irreflexive, lemma_seq_less_transitive, lemma_seq_less_total};
use vstd::string::*;

verus! {

/// One stored row of the clipboard history.
#[derive(Debug)]
pub struct HistoryRow {
    pub id: i64,
    /// The stored kind text (`"text"`, `"image"` or `"file_paths"`).
    pub content_type: String,
    pub text_content: Option<String>,
    pub image_path: Option<String>,
    pub thumbnail_path: Option<String>,
    /// For file-path entries: the paths as a JSON array of strings.
    pub file_paths_json: Option<String>,
    pub content_hash: String,
    pub pinned: bool,
    pub created_at: String,
    pub updated_at: String,
}

/// The view of an optional string.
pub open spec fn ov(o: Option<String>) -> Option<Seq<char>> {
    match o {
        Some(s) => Some(s@),
        None => None,
    }
}

/// The mathematical content of a `HistoryRow`.
pub struct HistoryRowView {
    pub id: i64,
    pub content_type: Seq<char>,
    pub text_content: Option<Seq<char>>,
    pub image_path: Option<Seq<char>>,
    pub thumbnail_path: Option<Seq<char>>,
    pub file_paths_json: Option<Seq<char>>,
    pub content_hash: Seq<char>,
    pub pinned: bool,
    pub created_at: Seq<char>,
    pub updated_at: Seq<char>,
}

impl View for HistoryRow {
    type V = HistoryRowView;

    open spec fn view(&self) -> HistoryRowView {
        HistoryRowView {
            id: self.id,
            content_type: self.content_type@,
            text_content: ov(self.text_content),
            image_path: ov(self.image_path),
            thumbnail_path: ov(self.thumbnail_path),
            file_paths_json: ov(self.file_paths_json),
            content_hash: self.content_hash@,
            pinned: self.pinned,
            created_at: self.created_at@,
            updated_at: self.updated_at@,
        }
    }
}

fn clone_opt(o: &Option<String>) -> (r: Option<String>)
    ensures
        r == *o,
{
    match o {
        Some(s) => Some(s.clone()),
        None => None,
    }
}

impl HistoryRow {
    /// An exact copy of the row.
    pub fn duplicate(&self) -> (r: HistoryRow)
        ensures
            r == *self,
    {
        HistoryRow {
            id: self.id,
            content_type: self.content_type.clone(),
            text_content: clone_opt(&self.text_content),
            image_path: clone_opt(&self.image_path),
            thumbnail_path: clone_opt(&self.thumbnail_path),
            file_paths_json: clone_opt(&self.file_paths_json),
            content_hash: self.content_hash.clone(),
            pinned: self.pinned,
            created_at: self.created_at.clone(),
            updated_at: self.updated_at.clone(),
        }
    }
}

/// The mathematical content of a `Tag`.
pub struct TagView {
    pub id: i64,
    pub name: Seq<char>,
    pub color: Option<Seq<char>>,
}

impl View for Tag {
    type V = TagView;

    open spec fn view(&self) -> TagView {
        TagView { id: self.id, name: self.name@, color: ov(self.color) }
    }
}

fn copy_tag(t: &Tag) -> (r: Tag)
    ensures
        r == *t,
{
    Tag { id: t.id, name: t.name.clone(), color: clone_opt(&t.color) }
}

/// The mathematical content of a `ClipboardEntry`.
pub struct ClipboardEntryView {
    pub id: i64,
    pub content_type: ClipboardContentType,
    pub text_content: Option<Seq<char>>,
    pub image_path: Option<Seq<char>>,
    pub thumbnail_path: Option<Seq<char>>,
    pub file_paths: Option<Seq<Seq<char>>>,
    pub pinned: bool,
    pub created_at: Seq<char>,
    pub updated_at: Seq<char>,
    pub content_hash: Seq<char>,
    pub tags: Seq<TagView>,
}

pub open spec fn tags_view(v: Seq<Tag>) -> Seq<TagView> {
    v.map_values(|t: Tag| t@)
}

impl View for ClipboardEntry {
    type V = ClipboardEntryView;

    open spec fn view(&self) -> ClipboardEntryView {
        ClipboardEntryView {
            id: self.id,
            content_type: self.content_type,
            text_content: ov(self.text_content),
            image_path: ov(self.image_path),
            thumbnail_path: ov(self.thumbnail_path),
            file_paths: match self.file_paths {
                Some(v) => Some(strings_view(v@)),
                None => None,
            },
            pinned: self.pinned,
            created_at: self.created_at@,
            updated_at: self.updated_at@,
            content_hash: self.content_hash@,
            tags: tags_view(self.tags@),
        }
    }
}

/// What `serde_json` parses from a text expected to hold a JSON array of strings: the
/// strings, or the text of the parse error.
pub uninterp spec fn parsed_string_array(json: Seq<char>) -> Result<Seq<Seq<char>>, Seq<char>>;

/// A character inside a JSON string as `serde_json` writes it: `"` and `\` escaped with a
/// backslash, the control characters below U+0020 as `\b`, `\t`, `\n`, `\f`, `\r` or
/// else `\u00XX` in lower-case hex, every other character as it is.
pub open spec fn json_escaped_char(c: char) -> Seq<char> {
    let n = c as u32;
    if c == '"' {
        seq!['\\', '"']
    } else if c == '\\' {
        seq!['\\', '\\']
    } else if n == 8 {
        seq!['\\', 'b']
    } else if n == 9 {
        seq!['\\', 't']
    } else if n == 10 {
        seq!['\\', 'n']
    } else if n == 12 {
        seq!['\\', 'f']
    } else if n == 13 {
        seq!['\\', 'r']
    } else if n < 0x20 {
        seq!['\\', 'u', '0', '0', hex_digit(n as int / 16), hex_digit(n as int % 16)]
    } else {
        seq![c]
    }
}

/// The characters of a JSON string's contents, each escaped as `json_escaped_char` says.
pub open spec fn json_escaped(s: Seq<char>) -> Seq<char>
    decreases s.len(),
{
    if s.len() == 0 {
        Seq::empty()
    } else {
        json_escaped(s.drop_last()) + json_escaped_char(s.last())
    }
}

/// The JSON strings of the items, separated by commas.
pub open spec fn json_string_list(items: Seq<Seq<char>>) -> Seq<char>
    decreases items.len(),
{
    if items.len() == 0 {
        Seq::empty()
    } else if items.len() == 1 {
        seq!['"'] + json_escaped(items[0]) + seq!['"']
    } else {
        json_string_list(items.drop_last()) + seq![','] + seq!['"'] + json_escaped(items.last()) + seq!['"']
    }
}

/// What `serde_json::to_string` writes for a list of strings: the compact form, `[`, the
/// strings in quotes separated by commas, `]`.
pub open spec fn string_array_json(items: Seq<Seq<char>>) -> Seq<char> {
    seq!['['] + json_string_list(items) + seq![']']
}

/// `serde_json::from_str::<Vec<String>>`.
///
/// Trusted: the outcome is named `parsed_string_array(json)`, the error given as the
/// text of `serde_json::Error`'s `Display`.
#[verifier::external_body]
fn parse_string_array(json: &str) -> (r: Result<Vec<String>, String>)
    ensures
        r is Ok ==> parsed_string_array(json@) == Ok::<Seq<Seq<char>>, Seq<char>>(strings_view(r->Ok_0@)),
        r is Err ==> parsed_string_array(json@) == Err::<Seq<Seq<char>>, Seq<char>>(r->Err_0@),
{
    match serde_json::from_str::<Vec<String>>(json) {
        Ok(v) => Ok(v),
        Err(e) => Err(e.to_string()),
    }
}

/// `serde_json::to_string` of a list of strings.
///
/// Trusted: the text is `string_array_json(items)`, as `serde_json`'s compact formatter
/// and its string escaping write it; serialising a `Vec<String>`
/// does not fail (the documented failures need a failing `Serialize` impl or a map with
/// non-string keys), so the result is `Ok`.
#[verifier::external_body]
fn string_array_to_json(items: &Vec<String>) -> (r: Result<String, String>)
    ensures
        r is Ok,
        r is Ok ==> r->Ok_0@ == string_array_json(strings_view(items@)),
{
    match serde_json::to_string(items) {
        Ok(s) => Ok(s),
        Err(e) => Err(e.to_string()),
    }
}

} // verus!

verus! {

// ---------------------------------------------------------------------------------------
// The model
// ---------------------------------------------------------------------------------------

/// Ids strictly increase along the entries and lie in `1 ..= last_id`; no content hash
/// occurs twice.
pub open spec fn entries_well_formed(rows: Seq<HistoryRowView>, last_id: int) -> bool {
    &&& 0 <= last_id
    &&& forall|i: int| 0 <= i < rows.len() ==> 1 <= #[trigger] rows[i].id <= last_id
    &&& forall|i: int, j: int| 0 <= i < j < rows.len() ==> #[trigger] rows[i].id < #[trigger] rows[j].id
    &&& forall|i: int, j: int|
        0 <= i < j < rows.len() ==> #[trigger] rows[i].content_hash != #[trigger] rows[j].content_hash
}

/// Ids strictly increase along the tags and lie in `1 ..= last_id`; no name occurs twice.
pub open spec fn tags_well_formed(tags: Seq<TagView>, last_id: int) -> bool {
    &&& 0 <= last_id
    &&& forall|i: int| 0 <= i < tags.len() ==> 1 <= #[trigger] tags[i].id <= last_id
    &&& forall|i: int, j: int| 0 <= i < j < tags.len() ==> #[trigger] tags[i].id < #[trigger] tags[j].id
    &&& forall|i: int, j: int| 0 <= i < j < tags.len() ==> #[trigger] tags[i].name != #[trigger] tags[j].name
}

pub open spec fn entry_has_id(rows: Seq<HistoryRowView>, id: i64) -> bool {
    exists|i: int| 0 <= i < rows.len() && rows[i].id == id
}

pub open spec fn entry_index(rows: Seq<HistoryRowView>, id: i64) -> int {
    choose|i: int| 0 <= i < rows.len() && rows[i].id == id
}

pub open spec fn has_hash(rows: Seq<HistoryRowView>, h: Seq<char>) -> bool {
    exists|i: int| 0 <= i < rows.len() && rows[i].content_hash == h
}

pub open spec fn hash_index(rows: Seq<HistoryRowView>, h: Seq<char>) -> int {
    choose|i: int| 0 <= i < rows.len() && rows[i].content_hash == h
}

pub open spec fn tag_has_id(tags: Seq<TagView>, id: i64) -> bool {
    exists|i: int| 0 <= i < tags.len() && tags[i].id == id
}

pub open spec fn tag_index(tags: Seq<TagView>, id: i64) -> int {
    choose|i: int| 0 <= i < tags.len() && tags[i].id == id
}

pub open spec fn has_tag_name(tags: Seq<TagView>, name: Seq<char>) -> bool {
    exists|i: int| 0 <= i < tags.len() && tags[i].name == name
}

/// Every attachment joins an existing entry and an existing tag, and no attachment
/// occurs twice.
pub open spec fn links_well_formed(links: Seq<(i64, i64)>, rows: Seq<HistoryRowView>, tags: Seq<TagView>) -> bool {
    &&& forall|i: int| 0 <= i < links.len() ==> entry_has_id(rows, (#[trigger] links[i]).0) && tag_has_id(tags, links[i].1)
    &&& forall|i: int, j: int| 0 <= i < j < links.len() ==> #[trigger] links[i] != #[trigger] links[j]
}

/// The attachments that remain when only the entries `rows` remain.
pub open spec fn links_of_entries(links: Seq<(i64, i64)>, rows: Seq<HistoryRowView>) -> Seq<(i64, i64)>
    decreases links.len(),
{
    if links.len() == 0 {
        Seq::empty()
    } else if entry_has_id(rows, links.last().0) {
        links_of_entries(links.drop_last(), rows).push(links.last())
    } else {
        links_of_entries(links.drop_last(), rows)
    }
}

/// The attachments that remain when the tag `tag_id` is deleted.
pub open spec fn links_without_tag(links: Seq<(i64, i64)>, tag_id: i64) -> Seq<(i64, i64)>
    decreases links.len(),
{
    if links.len() == 0 {
        Seq::empty()
    } else if links.last().1 != tag_id {
        links_without_tag(links.drop_last(), tag_id).push(links.last())
    } else {
        links_without_tag(links.drop_last(), tag_id)
    }
}

/// The attachments that remain when those of entry `entry_id` are taken away.
pub open spec fn links_without_entry(links: Seq<(i64, i64)>, entry_id: i64) -> Seq<(i64, i64)>
    decreases links.len(),
{
    if links.len() == 0 {
        Seq::empty()
    } else if links.last().0 != entry_id {
        links_without_entry(links.drop_last(), entry_id).push(links.last())
    } else {
        links_without_entry(links.drop_last(), entry_id)
    }
}

/// The tags attached to entry `id`, in the order in which they were attached.
pub open spec fn entry_tags(links: Seq<(i64, i64)>, tags: Seq<TagView>, id: i64) -> Seq<TagView>
    decreases links.len(),
{
    if links.len() == 0 {
        Seq::empty()
    } else if links.last().0 == id && tag_has_id(tags, links.last().1) {
        entry_tags(links.drop_last(), tags, id).push(tags[tag_index(tags, links.last().1)])
    } else {
        entry_tags(links.drop_last(), tags, id)
    }
}

/// The image files of the given rows, in order.
pub open spec fn images_of(rows: Seq<HistoryRowView>) -> Seq<Seq<char>>
    decreases rows.len(),
{
    if rows.len() == 0 {
        Seq::empty()
    } else {
        match rows.last().image_path {
            Some(p) => images_of(rows.drop_last()).push(p),
            None => images_of(rows.drop_last()),
        }
    }
}

/// The entry shown for a stored row with the given tags and parsed file paths.
pub open spec fn entry_view(row: HistoryRowView, tags: Seq<TagView>, file_paths: Option<Seq<Seq<char>>>) -> ClipboardEntryView {
    ClipboardEntryView {
        id: row.id,
        content_type: ClipboardContentType::parse_db(row.content_type),
        text_content: row.text_content,
        image_path: row.image_path,
        thumbnail_path: row.thumbnail_path,
        file_paths,
        pinned: row.pinned,
        created_at: row.created_at,
        updated_at: row.updated_at,
        content_hash: row.content_hash,
        tags,
    }
}

/// Reading a stored row: its file-path JSON, where present, is parsed; a parse failure
/// gives the parser's error text.
pub open spec fn read_row(row: HistoryRowView, tags: Seq<TagView>) -> Result<ClipboardEntryView, Seq<char>> {
    match row.file_paths_json {
        None => Ok(entry_view(row, tags, None)),
        Some(j) => match parsed_string_array(j) {
            Ok(v) => Ok(entry_view(row, tags, Some(v))),
            Err(e) => Err(e),
        },
    }
}

/// The row stored for a newly recorded clipboard content.
pub open spec fn recorded_row(
    id: i64,
    snap: SnapshotView,
    hash: Seq<char>,
    image_path: Option<Seq<char>>,
    now: Seq<char>,
) -> HistoryRowView {
    let (kind, text, image, json) = match snap {
        SnapshotView::Text(t) => (ClipboardContentType::Text, Some(t), None, None),
        SnapshotView::Image(_) => (ClipboardContentType::Image, None, image_path, None),
        SnapshotView::FilePaths(p) => (ClipboardContentType::FilePaths, None, None, Some(string_array_json(p))),
    };
    HistoryRowView {
        id,
        content_type: kind.db_text(),
        text_content: text,
        image_path: image,
        thumbnail_path: image,
        file_paths_json: json,
        content_hash: hash,
        pinned: false,
        created_at: now,
        updated_at: now,
    }
}

/// The listing order: pinned entries first, then newer `updated_at`, then larger id.
pub open spec fn history_before(a: HistoryRowView, b: HistoryRowView) -> bool {
    ||| (a.pinned && !b.pinned)
    ||| (a.pinned == b.pinned && seq_less(b.updated_at, a.updated_at))
    ||| (a.pinned == b.pinned && a.updated_at == b.updated_at && a.id > b.id)
}

/// An entry passes the search filter: there is no query, or the query occurs (see
/// `contains_query`) in its text, in its file-path JSON, or in the name of one of its
/// tags `tags`.
pub open spec fn passes_filter(row: HistoryRowView, tags: Seq<TagView>, query: Option<Seq<char>>) -> bool {
    match query {
        None => true,
        Some(q) => (row.text_content matches Some(t) && contains_query(t, q))
            || (row.file_paths_json matches Some(j) && contains_query(j, q))
            || some_tag_matches(tags, q),
    }
}

/// The search looks through the whole text of an entry: where the query occurs at any
/// position `i` of the text (ASCII letters compared without case), however long the text
/// and however far in `i` lies, the entry passes the filter; likewise for its file-path
/// JSON. And an entry passes a query only where the query occurs at some position of its
/// text, of its file-path JSON or of one of its tags' names.
pub proof fn lemma_search_finds_anywhere(
    row: HistoryRowView,
    tags: Seq<TagView>,
    q: Seq<char>,
    i: int,
)
    ensures
        row.text_content matches Some(t) && 0 <= i && i + q.len() <= t.len()
            && (forall|j: int| 0 <= j < q.len() ==> ascii_fold(#[trigger] t[i + j]) == ascii_fold(q[j]))
            ==> passes_filter(row, tags, Some(q)),
        row.file_paths_json matches Some(t) && 0 <= i && i + q.len() <= t.len()
            && (forall|j: int| 0 <= j < q.len() ==> ascii_fold(#[trigger] t[i + j]) == ascii_fold(q[j]))
            ==> passes_filter(row, tags, Some(q)),
        passes_filter(row, tags, Some(q)) ==> {
            ||| row.text_content matches Some(t) && exists|k: int| #[trigger] occurs_at(t, q, k)
            ||| row.file_paths_json matches Some(t) && exists|k: int| #[trigger] occurs_at(t, q, k)
            ||| exists|m: int, k: int| 0 <= m < tags.len() && #[trigger] occurs_at(tags[m].name, q, k)
        },
{
    if let Some(t) = row.text_content {
        if 0 <= i && i + q.len() <= t.len() && (forall|j: int| 0 <= j < q.len() ==> ascii_fold(#[trigger] t[i + j]) == ascii_fold(q[j])) {
            assert(occurs_at(t, q, i));
        }
    }
    if let Some(t) = row.file_paths_json {
        if 0 <= i && i + q.len() <= t.len() && (forall|j: int| 0 <= j < q.len() ==> ascii_fold(#[trigger] t[i + j]) == ascii_fold(q[j])) {
            assert(occurs_at(t, q, i));
        }
    }
    if passes_filter(row, tags, Some(q)) && !(row.text_content is Some && contains_query(row.text_content->Some_0, q))
        && !(row.file_paths_json is Some && contains_query(row.file_paths_json->Some_0, q)) {
        let m = choose|m: int| 0 <= m < tags.len() && #[trigger] contains_query(tags[m].name, q);
        let k = choose|k: int| #[trigger] occurs_at(tags[m].name, q, k);
        assert(occurs_at(tags[m].name, q, k));
    }
}

/// The query occurs in the name of one of the tags.
pub open spec fn some_tag_matches(tags: Seq<TagView>, q: Seq<char>) -> bool {
    exists|k: int| 0 <= k < tags.len() && #[trigger] contains_query(tags[k].name, q)
}

/// The text of the `NotFound` error for a clipboard entry id.
pub open spec fn entry_not_found_text(id: i64) -> Seq<char> {
    "clipboard entry id="@ + int_decimal(id as int)
}

/// The text of the `NotFound` error for a tag id.
pub open spec fn tag_not_found_text(id: i64) -> Seq<char> {
    "tag id="@ + int_decimal(id as int)
}

/// The text of the `Conflict` error for a tag name in use.
pub open spec fn tag_name_taken_text(name: Seq<char>) -> Seq<char> {
    "タグ名「"@ + name + "」は既に使用されています"@
}

/// The clipboard history.
pub struct ClipboardHistory {
    entries: Vec<HistoryRow>,
    last_entry_id: i64,
    tags: Vec<Tag>,
    last_tag_id: i64,
    links: Vec<(i64, i64)>,
}

pub open spec fn history_well_formed(
    rows: Seq<HistoryRowView>,
    last_entry_id: int,
    tags: Seq<TagView>,
    last_tag_id: int,
    links: Seq<(i64, i64)>,
) -> bool {
    &&& entries_well_formed(rows, last_entry_id)
    &&& tags_well_formed(tags, last_tag_id)
    &&& links_well_formed(links, rows, tags)
}

impl ClipboardHistory {
    /// The entries, in insertion order.
    pub closed spec fn entries(&self) -> Seq<HistoryRowView> {
        self.entries@.map_values(|r: HistoryRow| r@)
    }

    pub closed spec fn last_entry_id(&self) -> int {
        self.last_entry_id as int
    }

    /// The tags, in insertion order.
    pub closed spec fn tags(&self) -> Seq<TagView> {
        tags_view(self.tags@)
    }

    pub closed spec fn last_tag_id(&self) -> int {
        self.last_tag_id as int
    }

    /// The attachments `(entry id, tag id)`, in the order in which they were made.
    pub closed spec fn links(&self) -> Seq<(i64, i64)> {
        self.links@
    }

    #[verifier::type_invariant]
    closed spec fn inv(&self) -> bool {
        history_well_formed(self.entries(), self.last_entry_id as int, self.tags(), self.last_tag_id as int, self.links@)
    }

    /// The history keeps its rules: entry ids strictly increase and lie in
    /// `1 ..= last_entry_id`, no content hash occurs twice, likewise for the tags and
    /// their names, and every attachment joins an entry and a tag that exist, once.
    /// Every history that this module hands out keeps them.
    pub open spec fn well_formed(&self) -> bool {
        history_well_formed(self.entries(), self.last_entry_id(), self.tags(), self.last_tag_id(), self.links())
    }

    /// An empty history.
    pub fn new() -> (h: ClipboardHistory)
        ensures
            h.entries() == Seq::<HistoryRowView>::empty(),
            h.tags() == Seq::<TagView>::empty(),
            h.links() == Seq::<(i64, i64)>::empty(),
            h.last_entry_id() == 0,
            h.last_tag_id() == 0,
            h.well_formed(),
    {
        let h = ClipboardHistory {
            entries: Vec::new(),
            last_entry_id: 0,
            tags: Vec::new(),
            last_tag_id: 0,
            links: Vec::new(),
        };
        assert(h.entries() =~= Seq::<HistoryRowView>::empty());
        assert(h.tags() =~= Seq::<TagView>::empty());
        h
    }

    proof fn lemma_entry_index(&self, i: int)
        requires
            0 <= i < self.entries@.len(),
        ensures
            self.entries()[i] == self.entries@[i]@,
            self.entries().len() == self.entries@.len(),
    {
    }

    proof fn lemma_tag_index(&self, i: int)
        requires
            0 <= i < self.tags@.len(),
        ensures
            self.tags()[i] == self.tags@[i]@,
            self.tags().len() == self.tags@.len(),
    {
    }

    pub fn last_assigned_entry_id(&self) -> (r: i64)
        ensures
            r == self.last_entry_id(),
            self.well_formed(),
    {
        proof {
            use_type_invariant(self);
        }
        self.last_entry_id
    }

    pub fn last_assigned_tag_id(&self) -> (r: i64)
        ensures
            r == self.last_tag_id(),
    {
        self.last_tag_id
    }
}

} // verus!

verus! {

/// The rows whose flag in `keep` is set, in order.
pub open spec fn kept_rows(rows: Seq<HistoryRowView>, keep: Seq<bool>) -> Seq<HistoryRowView>
    decreases rows.len(),
{
    if rows.len() == 0 {
        Seq::empty()
    } else if keep[rows.len() - 1] {
        kept_rows(rows.drop_last(), keep).push(rows.last())
    } else {
        kept_rows(rows.drop_last(), keep)
    }
}

/// The rows whose flag in `keep` is clear, in order.
pub open spec fn dropped_rows(rows: Seq<HistoryRowView>, keep: Seq<bool>) -> Seq<HistoryRowView>
    decreases rows.len(),
{
    if rows.len() == 0 {
        Seq::empty()
    } else if !keep[rows.len() - 1] {
        dropped_rows(rows.drop_last(), keep).push(rows.last())
    } else {
        dropped_rows(rows.drop_last(), keep)
    }
}

/// `sub` picks the elements of `rows` at strictly increasing positions `src`.
pub open spec fn picks<T>(sub: Seq<T>, rows: Seq<T>, src: Seq<int>) -> bool {
    &&& src.len() == sub.len()
    &&& forall|a: int| 0 <= a < src.len() ==> 0 <= #[trigger] src[a] < rows.len()
    &&& forall|a: int| 0 <= a < src.len() ==> #[trigger] sub[a] == rows[src[a]]
    &&& forall|a: int, b: int| 0 <= a < b < src.len() ==> #[trigger] src[a] < #[trigger] src[b]
}

proof fn lemma_picks_entries_well_formed(sub: Seq<HistoryRowView>, rows: Seq<HistoryRowView>, src: Seq<int>, last_id: int)
    requires
        picks(sub, rows, src),
        entries_well_formed(rows, last_id),
    ensures
        entries_well_formed(sub, last_id),
{
    assert forall|a: int, b: int| 0 <= a < b < sub.len() implies #[trigger] sub[a].id < #[trigger] sub[b].id
        && sub[a].content_hash != sub[b].content_hash by {
        assert(src[a] < src[b]);
        assert(sub[a] == rows[src[a]] && sub[b] == rows[src[b]]);
    }
    assert forall|a: int, b: int| 0 <= a < b < sub.len() implies #[trigger] sub[a].content_hash
        != #[trigger] sub[b].content_hash by {
        assert(sub[a].id < sub[b].id && sub[a].content_hash != sub[b].content_hash);
    }
    assert forall|a: int| 0 <= a < sub.len() implies 1 <= #[trigger] sub[a].id <= last_id by {
        assert(sub[a] == rows[src[a]]);
    }
}

proof fn lemma_picks_links_distinct(sub: Seq<(i64, i64)>, links: Seq<(i64, i64)>, src: Seq<int>)
    requires
        picks(sub, links, src),
        forall|i: int, j: int| 0 <= i < j < links.len() ==> #[trigger] links[i] != #[trigger] links[j],
    ensures
        forall|i: int, j: int| 0 <= i < j < sub.len() ==> #[trigger] sub[i] != #[trigger] sub[j],
{
    assert forall|i: int, j: int| 0 <= i < j < sub.len() implies #[trigger] sub[i] != #[trigger] sub[j] by {
        assert(src[i] < src[j]);
        assert(sub[i] == links[src[i]] && sub[j] == links[src[j]]);
    }
}

impl ClipboardHistory {
    /// Replaces the whole state.
    fn put_all(
        &mut self,
        entries: Vec<HistoryRow>,
        last_entry_id: i64,
        tags: Vec<Tag>,
        last_tag_id: i64,
        links: Vec<(i64, i64)>,
    )
        requires
            history_well_formed(
                entries@.map_values(|r: HistoryRow| r@),
                last_entry_id as int,
                tags_view(tags@),
                last_tag_id as int,
                links@,
            ),
        ensures
            final(self).entries() == entries@.map_values(|r: HistoryRow| r@),
            final(self).last_entry_id() == last_entry_id,
            final(self).tags() == tags_view(tags@),
            final(self).last_tag_id() == last_tag_id,
            final(self).links() == links@,
    {
        *self = ClipboardHistory { entries, last_entry_id, tags, last_tag_id, links };
    }

    /// Moves the whole state out, leaving an empty history.
    fn take_all(&mut self) -> (r: (Vec<HistoryRow>, i64, Vec<Tag>, i64, Vec<(i64, i64)>))
        ensures
            r.0@ == old(self).entries@,
            r.1 == old(self).last_entry_id,
            r.2@ == old(self).tags@,
            r.3 == old(self).last_tag_id,
            r.4@ == old(self).links@,
            history_well_formed(old(self).entries(), old(self).last_entry_id as int, old(self).tags(),
                old(self).last_tag_id as int, old(self).links@),
    {
        proof {
            use_type_invariant(&*self);
        }
        let mut h = ClipboardHistory::new();
        std::mem::swap(&mut h, self);
        proof {
            use_type_invariant(&h);
        }
        let ClipboardHistory { entries, last_entry_id, tags, last_tag_id, links } = h;
        (entries, last_entry_id, tags, last_tag_id, links)
    }

    /// Keeps the entries whose flag in `keep` is set, deletes the others together with
    /// their attachments, and returns the image files of the deleted entries.
    fn retain_entries(&mut self, keep: &Vec<bool>) -> (r: Vec<String>)
        requires
            keep@.len() == old(self).entries().len(),
        ensures
            final(self).entries() == kept_rows(old(self).entries(), keep@),
            final(self).links() == links_of_entries(old(self).links(), final(self).entries()),
            final(self).tags() == old(self).tags(),
            final(self).last_entry_id() == old(self).last_entry_id(),
            final(self).last_tag_id() == old(self).last_tag_id(),
            strings_view(r@) == images_of(dropped_rows(old(self).entries(), keep@)),
    {
        let ghost old_rows = self.entries();
        let ghost old_links = self.links();
        let ghost old_tags = self.tags();
        let (entries, last_entry_id, tags, last_tag_id, links) = self.take_all();
        let mut kept: Vec<HistoryRow> = Vec::new();
        let mut images: Vec<String> = Vec::new();
        let ghost mut src: Seq<int> = Seq::empty();
        let mut i: usize = 0;
        while i < entries.len()
            invariant
                i <= entries@.len(),
                keep@.len() == entries@.len(),
                old_rows == entries@.map_values(|r: HistoryRow| r@),
                kept@.map_values(|r: HistoryRow| r@) == kept_rows(old_rows.take(i as int), keep@),
                strings_view(images@) == images_of(dropped_rows(old_rows.take(i as int), keep@)),
                picks(kept@.map_values(|r: HistoryRow| r@), old_rows, src),
                forall|a: int| 0 <= a < src.len() ==> #[trigger] src[a] < i,
            decreases entries@.len() - i,
        {
            proof {
                assert(old_rows.take(i + 1).drop_last() =~= old_rows.take(i as int));
                assert(old_rows.take(i + 1).last() == entries@[i as int]@);
            }
            let ghost kv = kept@.map_values(|r: HistoryRow| r@);
            let ghost iv = images@;
            let ghost t1 = old_rows.take(i + 1);
            proof {
                assert(t1.len() == i + 1);
                assert(t1.last() == old_rows[i as int]);
            }
            if keep[i] {
                kept.push(entries[i].duplicate());
                proof {
                    assert(kept@.map_values(|r: HistoryRow| r@) =~= kv.push(entries@[i as int]@));
                    assert(dropped_rows(t1, keep@) == dropped_rows(old_rows.take(i as int), keep@));
                    src = src.push(i as int);
                }
            } else {
                proof {
                    assert(dropped_rows(t1, keep@) == dropped_rows(old_rows.take(i as int), keep@).push(old_rows[i as int]));
                    assert(kept_rows(t1, keep@) == kept_rows(old_rows.take(i as int), keep@));
                    let d = dropped_rows(old_rows.take(i as int), keep@);
                    assert(d.push(old_rows[i as int]).drop_last() =~= d);
                }
                match &entries[i].image_path {
                    Some(p) => {
                        images.push(p.clone());
                        proof {
                            assert(old_rows[i as int].image_path == Some(p@));
                            assert(strings_view(images@) =~= strings_view(iv).push(p@));
                        }
                    },
                    None => {
                        proof {
                            assert(old_rows[i as int].image_path is None);
                        }
                    },
                }
            }
            i = i + 1;
        }
        proof {
            assert(old_rows.take(i as int) =~= old_rows);
            lemma_picks_entries_well_formed(kept@.map_values(|r: HistoryRow| r@), old_rows, src, last_entry_id as int);
        }
        let ghost kept_v = kept@.map_values(|r: HistoryRow| r@);
        // the attachments of the kept entries
        let mut new_links: Vec<(i64, i64)> = Vec::new();
        let ghost mut lsrc: Seq<int> = Seq::empty();
        let mut k: usize = 0;
        while k < links.len()
            invariant
                k <= links@.len(),
                links@ == old_links,
                kept_v == kept@.map_values(|r: HistoryRow| r@),
                history_well_formed(old_rows, last_entry_id as int, old_tags, last_tag_id as int, old_links),
                old_tags == tags_view(tags@),
                new_links@ == links_of_entries(old_links.take(k as int), kept_v),
                picks(new_links@, old_links, lsrc),
                forall|a: int| 0 <= a < lsrc.len() ==> #[trigger] lsrc[a] < k,
                forall|a: int| 0 <= a < new_links@.len() ==> entry_has_id(kept_v, (#[trigger] new_links@[a]).0),
            decreases links@.len() - k,
        {
            proof {
                assert(old_links.take(k + 1).drop_last() =~= old_links.take(k as int));
                assert(old_links.take(k + 1).last() == links@[k as int]);
            }
            let l = links[k];
            let mut found = false;
            let mut j: usize = 0;
            while j < kept.len()
                invariant
                    j <= kept@.len(),
                    kept_v == kept@.map_values(|r: HistoryRow| r@),
                    found == exists|b: int| 0 <= b < j && kept_v[b].id == l.0,
                decreases kept@.len() - j,
            {
                proof {
                    assert(kept_v[j as int].id == kept@[j as int].id);
                }
                if kept[j].id == l.0 {
                    found = true;
                }
                j = j + 1;
            }
            if found {
                let ghost before = new_links@;
                new_links.push(l);
                proof {
                    lsrc = lsrc.push(k as int);
                    assert(new_links@ == before.push(l));
                }
            }
            k = k + 1;
        }
        proof {
            assert(old_links.take(k as int) =~= old_links);
            lemma_picks_links_distinct(new_links@, old_links, lsrc);
            assert forall|a: int| 0 <= a < new_links@.len() implies entry_has_id(kept_v, (#[trigger] new_links@[a]).0)
                && tag_has_id(old_tags, new_links@[a].1) by {
                assert(new_links@[a] == old_links[lsrc[a]]);
            }
        }
        self.put_all(kept, last_entry_id, tags, last_tag_id, new_links);
        images
    }
}

} // verus!

verus! {

/// What recording a clipboard content does to the entries `(rows, last_id)`, giving
/// `(rows2, last_id2)` and `r`.
pub open spec fn record_outcome(
    rows: Seq<HistoryRowView>,
    last_id: int,
    rows2: Seq<HistoryRowView>,
    last_id2: int,
    r: Result<(), ShelfError>,
    snap: SnapshotView,
    hash: Seq<char>,
    image_path: Option<Seq<char>>,
    now: Seq<char>,
) -> bool {
    if has_hash(rows, hash) {
        let i = hash_index(rows, hash);
        &&& r is Ok
        &&& rows2 == rows.update(i, HistoryRowView { updated_at: now, ..rows[i] })
        &&& last_id2 == last_id
    } else if snap is Image && image_path is None {
        &&& r matches Err(e) && e is Internal && e.detail() == "画像キャッシュの書き込みに失敗しました"@
        &&& rows2 == rows && last_id2 == last_id
    } else if last_id == i64::MAX {
        &&& r matches Err(e) && e is Database && e.detail() == "database or disk is full"@
        &&& rows2 == rows && last_id2 == last_id
    } else {
        &&& r is Ok
        &&& rows2 == rows.push(recorded_row((last_id + 1) as i64, snap, hash, image_path, now))
        &&& last_id2 == last_id + 1
    }
}

impl ClipboardHistory {
    /// The position of the entry with the given id.
    fn entry_position(&self, id: i64) -> (r: Option<usize>)
        ensures
            r matches Some(i) ==> i < self.entries().len() && entry_index(self.entries(), id) == i
                && self.entries()[i as int].id == id,
            r is None ==> !entry_has_id(self.entries(), id),
    {
        proof {
            use_type_invariant(self);
        }
        let mut i: usize = 0;
        while i < self.entries.len()
            invariant
                entries_well_formed(self.entries(), self.last_entry_id as int),
                i <= self.entries@.len(),
                forall|k: int| 0 <= k < i ==> #[trigger] self.entries@[k].id != id,
            decreases self.entries@.len() - i,
        {
            if self.entries[i].id == id {
                proof {
                    self.lemma_entry_index(i as int);
                    let j = entry_index(self.entries(), id);
                    self.lemma_entry_index(j);
                    if j != i as int {
                        if j < i {
                            assert(self.entries()[j].id < self.entries()[i as int].id);
                        } else {
                            assert(self.entries()[i as int].id < self.entries()[j].id);
                        }
                    }
                }
                return Some(i);
            }
            i = i + 1;
        }
        proof {
            assert forall|k: int| 0 <= k < self.entries().len() implies self.entries()[k].id != id by {
                self.lemma_entry_index(k);
            }
        }
        None
    }

    /// The position of the entry with the given content hash.
    fn hash_position(&self, hash: &str) -> (r: Option<usize>)
        ensures
            r matches Some(i) ==> i < self.entries().len() && hash_index(self.entries(), hash@) == i
                && self.entries()[i as int].content_hash == hash@,
            r is None ==> !has_hash(self.entries(), hash@),
    {
        proof {
            use_type_invariant(self);
        }
        let mut i: usize = 0;
        while i < self.entries.len()
            invariant
                entries_well_formed(self.entries(), self.last_entry_id as int),
                i <= self.entries@.len(),
                forall|k: int| 0 <= k < i ==> #[trigger] self.entries@[k].content_hash@ != hash@,
            decreases self.entries@.len() - i,
        {
            if str_eq(self.entries[i].content_hash.as_str(), hash) {
                proof {
                    self.lemma_entry_index(i as int);
                    let j = hash_index(self.entries(), hash@);
                    self.lemma_entry_index(j);
                    if j != i as int {
                        if j < i {
                            assert(self.entries()[j].content_hash != self.entries()[i as int].content_hash);
                        } else {
                            assert(self.entries()[i as int].content_hash != self.entries()[j].content_hash);
                        }
                    }
                }
                return Some(i);
            }
            i = i + 1;
        }
        proof {
            assert forall|k: int| 0 <= k < self.entries().len() implies self.entries()[k].content_hash != hash@ by {
                self.lemma_entry_index(k);
            }
        }
        None
    }

    /// Whether some entry holds the content hash (the caller stores an image only for
    /// new content).
    pub fn contains_hash(&self, hash: &str) -> (r: bool)
        ensures
            r == has_hash(self.entries(), hash@),
    {
        self.hash_position(hash).is_some()
    }

    /// Records a clipboard change whose content hash is `hash`. Content seen before only
    /// has its `updated_at` set to `now` (it moves to the top, keeping its pin); new
    /// content is stored as a new unpinned entry created at `now`. For an image,
    /// `image_path` is where its bytes were stored, and the entry keeps it as both image
    /// and thumbnail; file paths are stored as a JSON array.
    pub fn record_entry(
        &mut self,
        snapshot: &ClipboardSnapshot,
        hash: &str,
        image_path: Option<String>,
        now: &str,
    ) -> (r: Result<(), ShelfError>)
        ensures
            record_outcome(
                old(self).entries(),
                old(self).last_entry_id(),
                final(self).entries(),
                final(self).last_entry_id(),
                r,
                snapshot@,
                hash@,
                ov(image_path),
                now@,
            ),
            final(self).tags() == old(self).tags(),
            final(self).last_tag_id() == old(self).last_tag_id(),
            final(self).links() == old(self).links(),
            final(self).well_formed(),
    {
        proof {
            use_type_invariant(&*self);
        }
        match self.hash_position(hash) {
            Some(i) => {
                let ghost old_rows = self.entries();
                let (mut entries, last_entry_id, tags, last_tag_id, links) = self.take_all();
                let mut row = entries[i].duplicate();
                row.updated_at = to_string(now);
                entries.set(i, row);
                proof {
                    let nv = entries@.map_values(|r: HistoryRow| r@);
                    assert(nv =~= old_rows.update(i as int, HistoryRowView { updated_at: now@, ..old_rows[i as int] }));
                    assert forall|a: int, b: int| 0 <= a < b < nv.len() implies #[trigger] nv[a].id < #[trigger] nv[b].id
                        && nv[a].content_hash != nv[b].content_hash by {
                        assert(nv[a].id == old_rows[a].id && nv[b].id == old_rows[b].id);
                        assert(nv[a].content_hash == old_rows[a].content_hash);
                        assert(nv[b].content_hash == old_rows[b].content_hash);
                    }
                    assert forall|a: int, b: int| 0 <= a < b < nv.len() implies #[trigger] nv[a].content_hash
                        != #[trigger] nv[b].content_hash by {
                        assert(nv[a].id < nv[b].id && nv[a].content_hash != nv[b].content_hash);
                    }
                    assert forall|a: int| 0 <= a < nv.len() implies 1 <= #[trigger] nv[a].id <= last_entry_id by {
                        assert(nv[a].id == old_rows[a].id);
                    }
                    assert forall|a: int| 0 <= a < links@.len() implies entry_has_id(nv, (#[trigger] links@[a]).0) by {
                        assert(entry_has_id(old_rows, links@[a].0));
                        let b = choose|b: int| 0 <= b < old_rows.len() && old_rows[b].id == links@[a].0;
                        assert(nv[b].id == old_rows[b].id);
                    }
                }
                self.put_all(entries, last_entry_id, tags, last_tag_id, links);
                proof {
                    use_type_invariant(&*self);
                }
                Ok(())
            },
            None => {
                let is_image = match snapshot {
                    ClipboardSnapshot::Image(_) => true,
                    _ => false,
                };
                if is_image && image_path.is_none() {
                    return Err(ShelfError::Internal(to_string("画像キャッシュの書き込みに失敗しました")));
                }
                if self.last_entry_id == i64::MAX {
                    return Err(ShelfError::Database(to_string("database or disk is full")));
                }
                let (content_type, text_content, image, json): (ClipboardContentType, Option<String>, Option<String>, Option<String>) =
                    match snapshot {
                    ClipboardSnapshot::Text(t) => (ClipboardContentType::Text, Some(t.clone()), None, None),
                    ClipboardSnapshot::Image(_) => (ClipboardContentType::Image, None, image_path, None),
                    ClipboardSnapshot::FilePaths(p) => {
                        let json = match string_array_to_json(p) {
                            Ok(j) => j,
                            Err(e) => {
                                return Err(ShelfError::Database(e));
                            },
                        };
                        (ClipboardContentType::FilePaths, None, None, Some(json))
                    },
                };
                let ghost old_rows = self.entries();
                let thumbnail = clone_opt(&image);
                let (mut entries, last_entry_id, tags, last_tag_id, links) = self.take_all();
                let id = last_entry_id + 1;
                let row = HistoryRow {
                    id,
                    content_type: to_string(content_type.as_db_str()),
                    text_content,
                    image_path: image,
                    thumbnail_path: thumbnail,
                    file_paths_json: json,
                    content_hash: to_string(hash),
                    pinned: false,
                    created_at: to_string(now),
                    updated_at: to_string(now),
                };
                proof {
                    assert(row@ == recorded_row(id, snapshot@, hash@, ov(image_path), now@));
                }
                entries.push(row);
                proof {
                    let nv = entries@.map_values(|r: HistoryRow| r@);
                    assert(nv =~= old_rows.push(row@));
                    assert forall|a: int, b: int| 0 <= a < b < nv.len() implies #[trigger] nv[a].id < #[trigger] nv[b].id
                        && nv[a].content_hash != nv[b].content_hash by {
                        if b == nv.len() - 1 {
                            assert(nv[a] == old_rows[a]);
                        }
                    }
                    assert forall|a: int, b: int| 0 <= a < b < nv.len() implies #[trigger] nv[a].content_hash
                        != #[trigger] nv[b].content_hash by {
                        assert(nv[a].id < nv[b].id && nv[a].content_hash != nv[b].content_hash);
                    }
                    assert forall|a: int| 0 <= a < links@.len() implies entry_has_id(nv, (#[trigger] links@[a]).0) by {
                        assert(entry_has_id(old_rows, links@[a].0));
                        let b = choose|b: int| 0 <= b < old_rows.len() && old_rows[b].id == links@[a].0;
                        assert(nv[b] == old_rows[b]);
                    }
                }
                self.put_all(entries, id, tags, last_tag_id, links);
                proof {
                    use_type_invariant(&*self);
                }
                Ok(())
            },
        }
    }
}

} // verus!

verus! {

/// Which entries `delete_entry(id)` keeps.
pub open spec fn keep_except(rows: Seq<HistoryRowView>, id: i64) -> Seq<bool> {
    Seq::new(rows.len(), |k: int| rows[k].id != id)
}

/// Which entries `clear(exclude_pinned)` keeps.
pub open spec fn keep_on_clear(rows: Seq<HistoryRowView>, exclude_pinned: bool) -> Seq<bool> {
    Seq::new(rows.len(), |k: int| exclude_pinned && rows[k].pinned)
}

/// Which entries survive the age limit: pinned ones, and those created at or after
/// `cutoff`.
pub open spec fn keep_by_age(rows: Seq<HistoryRowView>, cutoff: Seq<char>) -> Seq<bool> {
    Seq::new(rows.len(), |k: int| rows[k].pinned || !seq_less(rows[k].created_at, cutoff))
}

/// The order in which unpinned entries are given up: older `updated_at` first, then
/// smaller id.
pub open spec fn retention_before(a: HistoryRowView, b: HistoryRowView) -> bool {
    seq_less(a.updated_at, b.updated_at) || (a.updated_at == b.updated_at && a.id < b.id)
}

/// How many unpinned rows are given up before `x`.
pub open spec fn older_unpinned(rows: Seq<HistoryRowView>, x: HistoryRowView) -> nat
    decreases rows.len(),
{
    if rows.len() == 0 {
        0
    } else {
        older_unpinned(rows.drop_last(), x) + if !rows.last().pinned && retention_before(rows.last(), x) {
            1nat
        } else {
            0nat
        }
    }
}

/// Which entries survive the count limit `max`: all when there are at most `max`;
/// otherwise the pinned ones and the unpinned ones that are not among the
/// `len - max` first given up.
pub open spec fn keep_by_count(rows: Seq<HistoryRowView>, max: int) -> Seq<bool> {
    if rows.len() <= max {
        Seq::new(rows.len(), |k: int| true)
    } else {
        Seq::new(rows.len(), |k: int| rows[k].pinned || older_unpinned(rows, rows[k]) >= rows.len() - max)
    }
}

impl ClipboardHistory {
    /// Sets the pin flag of the entry with the given id.
    pub fn set_pinned(&mut self, id: i64, pinned: bool) -> (r: Result<(), ShelfError>)
        ensures
            r is Ok <==> entry_has_id(old(self).entries(), id),
            r is Ok ==> final(self).entries() == old(self).entries().update(
                entry_index(old(self).entries(), id),
                HistoryRowView { pinned, ..old(self).entries()[entry_index(old(self).entries(), id)] },
            ),
            r matches Err(e) ==> e is NotFound && e.detail() == entry_not_found_text(id)
                && final(self).entries() == old(self).entries(),
            final(self).last_entry_id() == old(self).last_entry_id(),
            final(self).tags() == old(self).tags(),
            final(self).links() == old(self).links(),
            final(self).well_formed(),
    {
        proof {
            use_type_invariant(&*self);
        }
        match self.entry_position(id) {
            None => Err(ShelfError::NotFound(entry_not_found_message(id))),
            Some(i) => {
                let ghost old_rows = self.entries();
                let (mut entries, last_entry_id, tags, last_tag_id, links) = self.take_all();
                let mut row = entries[i].duplicate();
                row.pinned = pinned;
                entries.set(i, row);
                proof {
                    let nv = entries@.map_values(|r: HistoryRow| r@);
                    assert(nv =~= old_rows.update(i as int, HistoryRowView { pinned, ..old_rows[i as int] }));
                    assert forall|a: int, b: int| 0 <= a < b < nv.len() implies #[trigger] nv[a].id < #[trigger] nv[b].id
                        && nv[a].content_hash != nv[b].content_hash by {
                        assert(nv[a].id == old_rows[a].id && nv[b].id == old_rows[b].id);
                        assert(nv[a].content_hash == old_rows[a].content_hash);
                        assert(nv[b].content_hash == old_rows[b].content_hash);
                    }
                    assert forall|a: int, b: int| 0 <= a < b < nv.len() implies #[trigger] nv[a].content_hash
                        != #[trigger] nv[b].content_hash by {
                        assert(nv[a].id < nv[b].id && nv[a].content_hash != nv[b].content_hash);
                    }
                    assert forall|a: int| 0 <= a < nv.len() implies 1 <= #[trigger] nv[a].id <= last_entry_id by {
                        assert(nv[a].id == old_rows[a].id);
                    }
                    assert forall|a: int| 0 <= a < links@.len() implies entry_has_id(nv, (#[trigger] links@[a]).0) by {
                        assert(entry_has_id(old_rows, links@[a].0));
                        let b = choose|b: int| 0 <= b < old_rows.len() && old_rows[b].id == links@[a].0;
                        assert(nv[b].id == old_rows[b].id);
                    }
                }
                self.put_all(entries, last_entry_id, tags, last_tag_id, links);
                proof {
                    use_type_invariant(&*self);
                }
                Ok(())
            },
        }
    }

    /// Deletes the entry with the given id together with its attachments; returns the
    /// image file it kept, if any, for the caller to remove.
    pub fn delete_entry(&mut self, id: i64) -> (r: Result<Vec<String>, ShelfError>)
        ensures
            r is Ok <==> entry_has_id(old(self).entries(), id),
            r matches Ok(images) ==> {
                let keep = keep_except(old(self).entries(), id);
                &&& final(self).entries() == kept_rows(old(self).entries(), keep)
                &&& final(self).links() == links_of_entries(old(self).links(), final(self).entries())
                &&& strings_view(images@) == images_of(dropped_rows(old(self).entries(), keep))
            },
            r matches Err(e) ==> e is NotFound && e.detail() == entry_not_found_text(id)
                && final(self).entries() == old(self).entries() && final(self).links() == old(self).links(),
            final(self).last_entry_id() == old(self).last_entry_id(),
            final(self).tags() == old(self).tags(),
            final(self).well_formed(),
    {
        proof {
            use_type_invariant(&*self);
        }
        if self.entry_position(id).is_none() {
            return Err(ShelfError::NotFound(entry_not_found_message(id)));
        }
        let ghost rows = self.entries();
        let mut keep: Vec<bool> = Vec::new();
        let mut k: usize = 0;
        while k < self.entries.len()
            invariant
                k <= self.entries@.len(),
                rows == self.entries(),
                keep@ == keep_except(rows, id).take(k as int),
            decreases self.entries@.len() - k,
        {
            proof {
                self.lemma_entry_index(k as int);
            }
            keep.push(self.entries[k].id != id);
            proof {
                assert(keep@ =~= keep_except(rows, id).take(k + 1));
            }
            k = k + 1;
        }
        proof {
            assert(keep@ =~= keep_except(rows, id));
        }
        let images = self.retain_entries(&keep);
        proof {
            use_type_invariant(&*self);
        }
        Ok(images)
    }

    /// Deletes every entry, or with `exclude_pinned` every unpinned entry, together with
    /// their attachments; returns the image files they kept, for the caller to remove.
    pub fn clear(&mut self, exclude_pinned: bool) -> (r: Result<Vec<String>, ShelfError>)
        ensures
            r matches Ok(images) && {
                let keep = keep_on_clear(old(self).entries(), exclude_pinned);
                &&& final(self).entries() == kept_rows(old(self).entries(), keep)
                &&& final(self).links() == links_of_entries(old(self).links(), final(self).entries())
                &&& strings_view(images@) == images_of(dropped_rows(old(self).entries(), keep))
            },
            final(self).last_entry_id() == old(self).last_entry_id(),
            final(self).tags() == old(self).tags(),
            final(self).well_formed(),
    {
        proof {
            use_type_invariant(&*self);
        }
        let ghost rows = self.entries();
        let ghost last_id = self.last_entry_id as int;
        let mut keep: Vec<bool> = Vec::new();
        let mut k: usize = 0;
        while k < self.entries.len()
            invariant
                k <= self.entries@.len(),
                rows == self.entries(),
                keep@ == keep_on_clear(rows, exclude_pinned).take(k as int),
            decreases self.entries@.len() - k,
        {
            proof {
                self.lemma_entry_index(k as int);
            }
            keep.push(exclude_pinned && self.entries[k].pinned);
            proof {
                assert(keep@ =~= keep_on_clear(rows, exclude_pinned).take(k + 1));
            }
            k = k + 1;
        }
        proof {
            assert(keep@ =~= keep_on_clear(rows, exclude_pinned));
        }
        let images = self.retain_entries(&keep);
        proof {
            use_type_invariant(&*self);
        }
        Ok(images)
    }

    /// Number of unpinned entries given up before the entry at `i`.
    fn count_older_unpinned(&self, i: usize) -> (r: usize)
        requires
            i < self.entries().len(),
        ensures
            r == older_unpinned(self.entries(), self.entries()[i as int]),
    {
        proof {
            self.lemma_entry_index(i as int);
        }
        let ghost rows = self.entries();
        let x = &self.entries[i];
        let mut count: usize = 0;
        let mut j: usize = 0;
        while j < self.entries.len()
            invariant
                j <= self.entries@.len(),
                rows == self.entries(),
                x@ == rows[i as int],
                count == older_unpinned(rows.take(j as int), rows[i as int]),
                count <= j,
            decreases self.entries@.len() - j,
        {
            proof {
                self.lemma_entry_index(j as int);
                assert(rows.take(j + 1).drop_last() =~= rows.take(j as int));
                assert(rows.take(j + 1).last() == rows[j as int]);
            }
            let y = &self.entries[j];
            let before = str_less(y.updated_at.as_str(), x.updated_at.as_str())
                || (str_eq(y.updated_at.as_str(), x.updated_at.as_str()) && y.id < x.id);
            if !y.pinned && before {
                count = count + 1;
            }
            j = j + 1;
        }
        proof {
            assert(rows.take(j as int) =~= rows);
        }
        count
    }

    /// Applies the automatic clean-up: first deletes the unpinned entries created before
    /// `cutoff`, then, where more than `max_entries` entries remain, deletes as many of
    /// the unpinned ones as are over the limit, least recently updated first. Pinned
    /// entries are never deleted. Returns the image files of the deleted entries (those
    /// deleted by age first), for the caller to remove.
    pub fn enforce_retention(&mut self, max_entries: u32, cutoff: &str) -> (r: Result<Vec<String>, ShelfError>)
        ensures
            r matches Ok(images) && {
                let keep1 = keep_by_age(old(self).entries(), cutoff@);
                let rows1 = kept_rows(old(self).entries(), keep1);
                let keep2 = keep_by_count(rows1, max_entries as int);
                &&& final(self).entries() == kept_rows(rows1, keep2)
                &&& final(self).links() == links_of_entries(
                    links_of_entries(old(self).links(), rows1),
                    final(self).entries(),
                )
                &&& strings_view(images@) == images_of(dropped_rows(old(self).entries(), keep1))
                    + images_of(dropped_rows(rows1, keep2))
                &&& final(self).entries().len() == if rows1.len() <= max_entries {
                    rows1.len() as int
                } else if rows1.len() - unpinned_count(rows1) >= max_entries {
                    rows1.len() - unpinned_count(rows1)
                } else {
                    max_entries as int
                }
                &&& forall|k: int| 0 <= k < old(self).entries().len() && (#[trigger] old(self).entries()[k]).pinned
                    ==> final(self).entries().contains(old(self).entries()[k])
            },
            final(self).last_entry_id() == old(self).last_entry_id(),
            final(self).tags() == old(self).tags(),
            final(self).well_formed(),
    {
        proof {
            use_type_invariant(&*self);
        }
        let ghost rows = self.entries();
        let ghost last_id = self.last_entry_id as int;
        let mut keep: Vec<bool> = Vec::new();
        let mut k: usize = 0;
        while k < self.entries.len()
            invariant
                k <= self.entries@.len(),
                rows == self.entries(),
                keep@ == keep_by_age(rows, cutoff@).take(k as int),
            decreases self.entries@.len() - k,
        {
            proof {
                self.lemma_entry_index(k as int);
            }
            let e = &self.entries[k];
            keep.push(e.pinned || !str_less(e.created_at.as_str(), cutoff));
            proof {
                assert(keep@ =~= keep_by_age(rows, cutoff@).take(k + 1));
            }
            k = k + 1;
        }
        proof {
            assert(keep@ =~= keep_by_age(rows, cutoff@));
        }
        let mut images = self.retain_entries(&keep);
        let ghost rows1 = self.entries();
        let ghost images1 = images@;
        let total = self.entries.len();
        let mut keep2: Vec<bool> = Vec::new();
        let mut k2: usize = 0;
        while k2 < total
            invariant
                total == self.entries@.len(),
                k2 <= total,
                rows1 == self.entries(),
                keep2@ == keep_by_count(rows1, max_entries as int).take(k2 as int),
            decreases total - k2,
        {
            proof {
                self.lemma_entry_index(k2 as int);
            }
            let keep_it = if total <= max_entries as usize {
                true
            } else {
                self.entries[k2].pinned || self.count_older_unpinned(k2) >= total - max_entries as usize
            };
            keep2.push(keep_it);
            proof {
                assert(keep2@ =~= keep_by_count(rows1, max_entries as int).take(k2 + 1));
            }
            k2 = k2 + 1;
        }
        proof {
            assert(keep2@ =~= keep_by_count(rows1, max_entries as int));
        }
        let more = self.retain_entries(&keep2);
        let mut m: usize = 0;
        while m < more.len()
            invariant
                m <= more@.len(),
                strings_view(images@) == strings_view(images1) + strings_view(more@).take(m as int),
            decreases more@.len() - m,
        {
            let ghost before = images@;
            images.push(more[m].clone());
            proof {
                assert(strings_view(images@) =~= strings_view(before).push(more@[m as int]@));
                assert(strings_view(more@).take(m + 1) =~= strings_view(more@).take(m as int).push(more@[m as int]@));
            }
            m = m + 1;
        }
        proof {
            assert(strings_view(more@).take(m as int) =~= strings_view(more@));
            lemma_retention_leaves(rows, last_id, max_entries as int, cutoff@);
            assert forall|k: int| 0 <= k < rows.len() && (#[trigger] rows[k]).pinned implies self.entries().contains(rows[k]) by {
                lemma_retention_keeps_pinned(rows, max_entries as int, cutoff@, k);
            }
        }
        proof {
            use_type_invariant(&*self);
        }
        Ok(images)
    }
}

fn entry_not_found_message(id: i64) -> (r: String)
    ensures
        r@ == entry_not_found_text(id),
{
    let mut s = to_string("clipboard entry id=");
    append_i64(&mut s, id);
    s
}

} // verus!

verus! {

impl ClipboardHistory {
    /// The position of the tag with the given id.
    fn tag_position(&self, id: i64) -> (r: Option<usize>)
        ensures
            r matches Some(i) ==> i < self.tags().len() && tag_index(self.tags(), id) == i
                && self.tags()[i as int].id == id,
            r is None ==> !tag_has_id(self.tags(), id),
    {
        proof {
            use_type_invariant(self);
        }
        let mut i: usize = 0;
        while i < self.tags.len()
            invariant
                tags_well_formed(self.tags(), self.last_tag_id as int),
                i <= self.tags@.len(),
                forall|k: int| 0 <= k < i ==> #[trigger] self.tags@[k].id != id,
            decreases self.tags@.len() - i,
        {
            if self.tags[i].id == id {
                proof {
                    self.lemma_tag_index(i as int);
                    let j = tag_index(self.tags(), id);
                    self.lemma_tag_index(j);
                    if j != i as int {
                        if j < i {
                            assert(self.tags()[j].id < self.tags()[i as int].id);
                        } else {
                            assert(self.tags()[i as int].id < self.tags()[j].id);
                        }
                    }
                }
                return Some(i);
            }
            i = i + 1;
        }
        proof {
            assert forall|k: int| 0 <= k < self.tags().len() implies self.tags()[k].id != id by {
                self.lemma_tag_index(k);
            }
        }
        None
    }

    /// Whether some tag has the given name.
    fn tag_name_taken(&self, name: &str) -> (r: bool)
        ensures
            r == has_tag_name(self.tags(), name@),
    {
        let mut i: usize = 0;
        while i < self.tags.len()
            invariant
                i <= self.tags@.len(),
                forall|k: int| 0 <= k < i ==> #[trigger] self.tags@[k].name@ != name@,
            decreases self.tags@.len() - i,
        {
            if str_eq(self.tags[i].name.as_str(), name) {
                proof {
                    self.lemma_tag_index(i as int);
                }
                return true;
            }
            i = i + 1;
        }
        proof {
            assert forall|k: int| 0 <= k < self.tags().len() implies self.tags()[k].name != name@ by {
                self.lemma_tag_index(k);
            }
        }
        false
    }

    /// The tags attached to the entry `id`, in the order in which they were attached.
    fn tags_for(&self, id: i64) -> (r: Vec<Tag>)
        ensures
            tags_view(r@) == entry_tags(self.links(), self.tags(), id),
    {
        let ghost links = self.links();
        let mut out: Vec<Tag> = Vec::new();
        let mut k: usize = 0;
        while k < self.links.len()
            invariant
                k <= self.links@.len(),
                links == self.links(),
                tags_view(out@) == entry_tags(links.take(k as int), self.tags(), id),
            decreases self.links@.len() - k,
        {
            proof {
                assert(links.take(k + 1).drop_last() =~= links.take(k as int));
                assert(links.take(k + 1).last() == links[k as int]);
            }
            let l = self.links[k];
            if l.0 == id {
                match self.tag_position(l.1) {
                    Some(p) => {
                        let ghost before = out@;
                        proof {
                            self.lemma_tag_index(p as int);
                        }
                        out.push(copy_tag(&self.tags[p]));
                        proof {
                            assert(tags_view(out@) =~= tags_view(before).push(self.tags()[p as int]));
                        }
                    },
                    None => {},
                }
            }
            k = k + 1;
        }
        proof {
            assert(links.take(k as int) =~= links);
        }
        out
    }
}

} // verus!

verus! {

/// `r` is the reading `m` of a stored row: the entry where it was read, a `Database`
/// error with the parser's text where it was not.
pub open spec fn read_matches(r: Result<ClipboardEntry, ShelfError>, m: Result<ClipboardEntryView, Seq<char>>) -> bool {
    match r {
        Ok(e) => m == Ok::<ClipboardEntryView, Seq<char>>(e@),
        Err(e) => e is Database && m == Err::<ClipboardEntryView, Seq<char>>(e.detail()),
    }
}

/// The entries read from `sorted` in order, or the first read error.
pub open spec fn read_all(sorted: Seq<HistoryRowView>, links: Seq<(i64, i64)>, tags: Seq<TagView>) -> Result<
    Seq<ClipboardEntryView>,
    Seq<char>,
>
    decreases sorted.len(),
{
    if sorted.len() == 0 {
        Ok(Seq::empty())
    } else {
        match read_all(sorted.drop_last(), links, tags) {
            Err(e) => Err(e),
            Ok(v) => match read_row(sorted.last(), entry_tags(links, tags, sorted.last().id)) {
                Ok(x) => Ok(v.push(x)),
                Err(e) => Err(e),
            },
        }
    }
}

/// `r` is the listing `m`: the entries where all rows were read, a `Database` error
/// with the first parser's text where one was not.
pub open spec fn listing_matches(r: Result<Vec<ClipboardEntry>, ShelfError>, m: Result<Seq<ClipboardEntryView>, Seq<char>>) -> bool {
    match r {
        Ok(v) => m == Ok::<Seq<ClipboardEntryView>, Seq<char>>(v@.map_values(|e: ClipboardEntry| e@)),
        Err(e) => e is Database && m == Err::<Seq<ClipboardEntryView>, Seq<char>>(e.detail()),
    }
}

/// The search query as text.
pub open spec fn query_view(query: Option<&str>) -> Option<Seq<char>> {
    match query {
        Some(q) => Some(q@),
        None => None,
    }
}

/// Which entries pass the search filter, given the attachments and the tags.
pub open spec fn filter_keep(
    rows: Seq<HistoryRowView>,
    links: Seq<(i64, i64)>,
    tags: Seq<TagView>,
    query: Option<Seq<char>>,
) -> Seq<bool> {
    Seq::new(rows.len(), |k: int| passes_filter(rows[k], entry_tags(links, tags, rows[k].id), query))
}

/// `sorted` holds the rows of `sel`, each once, in listing order.
pub open spec fn is_history_order(sorted: Seq<HistoryRowView>, sel: Seq<HistoryRowView>) -> bool {
    &&& sorted.len() == sel.len()
    &&& forall|k: int| 0 <= k < sorted.len() ==> sel.contains(#[trigger] sorted[k])
    &&& forall|i: int| 0 <= i < sel.len() ==> sorted.contains(#[trigger] sel[i])
    &&& forall|a: int, b: int| 0 <= a < b < sorted.len() ==> history_before(#[trigger] sorted[a], #[trigger] sorted[b])
}

proof fn lemma_read_all_prefix_err(s: Seq<HistoryRowView>, k: int, links: Seq<(i64, i64)>, tags: Seq<TagView>)
    requires
        0 <= k <= s.len(),
        read_all(s.take(k), links, tags) is Err,
    ensures
        read_all(s, links, tags) == read_all(s.take(k), links, tags),
    decreases s.len() - k,
{
    if k == s.len() {
        assert(s.take(k) =~= s);
    } else {
        assert(s.take(k + 1).drop_last() =~= s.take(k));
        lemma_read_all_prefix_err(s, k + 1, links, tags);
    }
}

/// Whether a row with the tags `tags` passes the search filter.
fn passes(row: &HistoryRow, tags: &Vec<Tag>, query: Option<&str>) -> (r: bool)
    ensures
        r == passes_filter(row@, tags_view(tags@), query_view(query)),
{
    match query {
        None => true,
        Some(q) => {
            let in_text = match &row.text_content {
                Some(t) => contains_query_str(t.as_str(), q),
                None => false,
            };
            let in_paths = match &row.file_paths_json {
                Some(j) => contains_query_str(j.as_str(), q),
                None => false,
            };
            if in_text || in_paths {
                return true;
            }
            let ghost tv = tags_view(tags@);
            let mut k: usize = 0;
            while k < tags.len()
                invariant
                    k <= tags@.len(),
                    tv == tags_view(tags@),
                    query_view(query) == Some(q@),
                    forall|m: int| 0 <= m < k ==> !#[trigger] contains_query(tv[m].name, q@),
                decreases tags@.len() - k,
            {
                if contains_query_str(tags[k].name.as_str(), q) {
                    proof {
                        assert(tv[k as int].name == tags@[k as int].name@);
                        assert(0 <= k < tv.len() && contains_query(tv[k as int].name, q@));
                        assert(some_tag_matches(tv, q@));
                    }
                    return true;
                }
                proof {
                    assert(tv[k as int].name == tags@[k as int].name@);
                }
                k = k + 1;
            }
            false
        },
    }
}

impl ClipboardHistory {
    /// Reads the entry at position `i`: parses its file-path JSON and attaches its tags.
    fn read_entry(&self, i: usize) -> (r: Result<ClipboardEntry, ShelfError>)
        requires
            i < self.entries().len(),
        ensures
            read_matches(r, read_row(self.entries()[i as int], entry_tags(self.links(), self.tags(), self.entries()[i as int].id))),
    {
        proof {
            self.lemma_entry_index(i as int);
        }
        let row = &self.entries[i];
        let file_paths = match &row.file_paths_json {
            None => None,
            Some(j) => match parse_string_array(j.as_str()) {
                Ok(v) => Some(v),
                Err(e) => {
                    return Err(ShelfError::Database(e));
                },
            },
        };
        let tags = self.tags_for(row.id);
        let e = ClipboardEntry {
            id: row.id,
            content_type: ClipboardContentType::from_db_str(row.content_type.as_str()),
            text_content: clone_opt(&row.text_content),
            image_path: clone_opt(&row.image_path),
            thumbnail_path: clone_opt(&row.thumbnail_path),
            file_paths,
            pinned: row.pinned,
            created_at: row.created_at.clone(),
            updated_at: row.updated_at.clone(),
            content_hash: row.content_hash.clone(),
            tags,
        };
        Ok(e)
    }

    /// The entry with the given id, with its file paths parsed and its tags attached.
    pub fn get_entry(&self, id: i64) -> (r: Result<ClipboardEntry, ShelfError>)
        ensures
            !entry_has_id(self.entries(), id) ==> (r matches Err(e) && e is NotFound
                && e.detail() == entry_not_found_text(id)),
            entry_has_id(self.entries(), id) ==> read_matches(
                r,
                read_row(self.entries()[entry_index(self.entries(), id)], entry_tags(self.links(), self.tags(), id)),
            ),
    {
        match self.entry_position(id) {
            None => Err(ShelfError::NotFound(entry_not_found_message(id))),
            Some(i) => self.read_entry(i),
        }
    }
}

} // verus!

verus! {

/// The listing order over the selected positions `sel` of the entries.
struct HistoryListing<'a> {
    rows: &'a Vec<HistoryRow>,
    sel: &'a Vec<usize>,
}

impl<'a> HistoryListing<'a> {
    spec fn row(&self, i: int) -> HistoryRowView {
        self.rows@[self.sel@[i] as int]@
    }
}

impl<'a> RowOrder for HistoryListing<'a> {
    closed spec fn size(&self) -> nat {
        self.sel@.len()
    }

    closed spec fn valid(&self) -> bool {
        &&& forall|a: int| 0 <= a < self.sel@.len() ==> #[trigger] self.sel@[a] < self.rows@.len()
        &&& forall|a: int, b: int| 0 <= a < b < self.sel@.len() ==> #[trigger] self.sel@[a] < #[trigger] self.sel@[b]
        &&& forall|i: int, j: int| 0 <= i < j < self.rows@.len() ==> #[trigger] self.rows@[i].id < #[trigger] self.rows@[j].id
    }

    closed spec fn before(&self, i: int, j: int) -> bool {
        history_before(self.row(i), self.row(j))
    }

    proof fn lemma_irreflexive(&self, i: int) {
        lemma_seq_less_irreflexive(self.row(i).updated_at);
    }

    proof fn lemma_transitive(&self, i: int, j: int, k: int) {
        let a = self.row(i);
        let b = self.row(j);
        let c = self.row(k);
        if a.pinned == b.pinned && b.pinned == c.pinned {
            if seq_less(b.updated_at, a.updated_at) && seq_less(c.updated_at, b.updated_at) {
                lemma_seq_less_transitive(c.updated_at, b.updated_at, a.updated_at);
            }
        }
    }

    proof fn lemma_total(&self, i: int, j: int) {
        let a = self.row(i);
        let b = self.row(j);
        if a.updated_at != b.updated_at {
            lemma_seq_less_total(a.updated_at, b.updated_at);
        } else {
            let p = self.sel@[i] as int;
            let q = self.sel@[j] as int;
            if i < j {
                assert(p < q);
                assert(self.rows@[p].id < self.rows@[q].id);
            } else {
                assert(q < p);
                assert(self.rows@[q].id < self.rows@[p].id);
            }
        }
    }

    fn count(&self) -> (n: usize) {
        self.sel.len()
    }

    fn is_before(&self, i: usize, j: usize) -> (r: bool) {
        let a = &self.rows[self.sel[i]];
        let b = &self.rows[self.sel[j]];
        if a.pinned != b.pinned {
            a.pinned
        } else if str_less(b.updated_at.as_str(), a.updated_at.as_str()) {
            true
        } else if str_eq(a.updated_at.as_str(), b.updated_at.as_str()) {
            a.id > b.id
        } else {
            false
        }
    }
}

} // verus!

verus! {

impl ClipboardHistory {
    /// Lists the history: the entries that pass the search filter (`query` contained,
    /// in the sense of `LIKE '%query%'`, in their text or their file-path JSON; all
    /// entries without a query), pinned ones first, then most recently updated first,
    /// then larger id first, each with its file paths parsed and its tags attached. Where
    /// a file-path JSON does not parse, the first such failure in that order is returned
    /// as a `Database` error.
    pub fn list_history(&self, query: Option<&str>) -> (r: Result<Vec<ClipboardEntry>, ShelfError>)
        ensures
            exists|sorted: Seq<HistoryRowView>|
                is_history_order(
                    sorted,
                    kept_rows(self.entries(), filter_keep(self.entries(), self.links(), self.tags(), query_view(query))),
                ) && listing_matches(r, read_all(sorted, self.links(), self.tags())),
    {
        proof {
            use_type_invariant(self);
        }
        let ghost rows = self.entries();
        let ghost fk = filter_keep(rows, self.links(), self.tags(), query_view(query));
        let mut sel: Vec<usize> = Vec::new();
        let mut i: usize = 0;
        while i < self.entries.len()
            invariant
                i <= self.entries@.len(),
                rows == self.entries(),
                fk == filter_keep(rows, self.links(), self.tags(), query_view(query)),
                sel@.len() == kept_rows(rows.take(i as int), fk).len(),
                forall|a: int| 0 <= a < sel@.len() ==> #[trigger] sel@[a] < i,
                forall|a: int, b: int| 0 <= a < b < sel@.len() ==> #[trigger] sel@[a] < #[trigger] sel@[b],
                forall|a: int| 0 <= a < sel@.len() ==> kept_rows(rows.take(i as int), fk)[a] == rows[#[trigger] sel@[a] as int],
            decreases self.entries@.len() - i,
        {
            proof {
                self.lemma_entry_index(i as int);
                assert(rows.take(i + 1).drop_last() =~= rows.take(i as int));
                assert(rows.take(i + 1).last() == rows[i as int]);
            }
            let row_tags = self.tags_for(self.entries[i].id);
            if passes(&self.entries[i], &row_tags, query) {
                sel.push(i);
            }
            i = i + 1;
        }
        proof {
            assert(rows.take(i as int) =~= rows);
        }
        let ghost sel_rows = kept_rows(rows, fk);
        let order = HistoryListing { rows: &self.entries, sel: &sel };
        proof {
            assert forall|p: int, q: int| 0 <= p < q < self.entries@.len() implies #[trigger] self.entries@[p].id
                < #[trigger] self.entries@[q].id by {
                self.lemma_entry_index(p);
                self.lemma_entry_index(q);
                assert(self.entries()[p].id < self.entries()[q].id);
            }
            assert forall|a: int| 0 <= a < sel@.len() implies #[trigger] order.row(a) == sel_rows[a] by {
                self.lemma_entry_index(sel@[a] as int);
            }
        }
        let perm = sorted_positions(&order);
        let ghost sorted = Seq::new(perm@.len(), |a: int| sel_rows[perm@[a] as int]);
        proof {
            assert forall|a: int, b: int| 0 <= a < b < sorted.len() implies history_before(
                #[trigger] sorted[a],
                #[trigger] sorted[b],
            ) by {
                assert(order.before(perm@[a] as int, perm@[b] as int));
                assert(order.row(perm@[a] as int) == sel_rows[perm@[a] as int]);
                assert(order.row(perm@[b] as int) == sel_rows[perm@[b] as int]);
            }
            assert forall|k: int| 0 <= k < sorted.len() implies sel_rows.contains(#[trigger] sorted[k]) by {
                assert(perm@[k] < sel_rows.len());
            }
            assert forall|j: int| 0 <= j < sel_rows.len() implies sorted.contains(#[trigger] sel_rows[j]) by {
                assert(occurs(perm@, j));
                let a = choose|a: int| 0 <= a < perm@.len() && perm@[a] == j;
                assert(sorted[a] == sel_rows[j]);
            }
            assert(is_history_order(sorted, sel_rows));
        }
        let mut out: Vec<ClipboardEntry> = Vec::new();
        proof {
            assert(sorted.take(0) =~= Seq::<HistoryRowView>::empty());
            assert(out@.map_values(|e: ClipboardEntry| e@) =~= Seq::<ClipboardEntryView>::empty());
        }
        let mut k: usize = 0;
        while k < perm.len()
            invariant
                k <= perm@.len(),
                rows == self.entries(),
                is_history_order(sorted, sel_rows),
                sel_rows == kept_rows(self.entries(), filter_keep(self.entries(), self.links(), self.tags(), query_view(query))),
                sorted.len() == perm@.len(),
                is_permutation(perm@, sel@.len() as nat),
                sel@.len() == sel_rows.len(),
                forall|a: int| 0 <= a < sel@.len() ==> #[trigger] sel@[a] < rows.len(),
                forall|a: int| 0 <= a < sel@.len() ==> sel_rows[a] == rows[#[trigger] sel@[a] as int],
                forall|a: int| 0 <= a < sorted.len() ==> #[trigger] sorted[a] == sel_rows[perm@[a] as int],
                read_all(sorted.take(k as int), self.links(), self.tags())
                    == Ok::<Seq<ClipboardEntryView>, Seq<char>>(out@.map_values(|e: ClipboardEntry| e@)),
            decreases perm@.len() - k,
        {
            let p = sel[perm[k]];
            proof {
                assert(sorted.take(k + 1).drop_last() =~= sorted.take(k as int));
                assert(sorted.take(k + 1).last() == sorted[k as int]);
                assert(sorted[k as int] == rows[p as int]);
            }
            let e = self.read_entry(p);
            match e {
                Ok(x) => {
                    let ghost before = out@.map_values(|e: ClipboardEntry| e@);
                    out.push(x);
                    proof {
                        assert(out@.map_values(|e: ClipboardEntry| e@) =~= before.push(x@));
                    }
                },
                Err(err) => {
                    proof {
                        let t1 = sorted.take(k + 1);
                        assert(t1.last() == rows[p as int]);
                        assert(read_row(rows[p as int], entry_tags(self.links(), self.tags(), rows[p as int].id))
                            == Err::<ClipboardEntryView, Seq<char>>(err.detail()));
                        assert(read_all(t1.drop_last(), self.links(), self.tags()) is Ok);
                        assert(read_all(t1, self.links(), self.tags()) == Err::<Seq<ClipboardEntryView>, Seq<char>>(err.detail()));
                        lemma_read_all_prefix_err(sorted, k + 1, self.links(), self.tags());
                    }
                    let res = Err(err);
                    proof {
                        assert(is_history_order(sorted, sel_rows) && listing_matches(
                            res,
                            read_all(sorted, self.links(), self.tags()),
                        ));
                    }
                    return res;
                },
            }
            k = k + 1;
        }
        proof {
            assert(sorted.take(k as int) =~= sorted);
        }
        let res = Ok(out);
        proof {
            assert(is_history_order(sorted, sel_rows) && listing_matches(res, read_all(sorted, self.links(), self.tags())));
        }
        res
    }
}

} // verus!

verus! {

/// `sorted` holds the tags of `tags`, each once, in ascending name order.
pub open spec fn is_name_order(sorted: Seq<TagView>, tags: Seq<TagView>) -> bool {
    &&& sorted.len() == tags.len()
    &&& forall|k: int| 0 <= k < sorted.len() ==> tags.contains(#[trigger] sorted[k])
    &&& forall|i: int| 0 <= i < tags.len() ==> sorted.contains(#[trigger] tags[i])
    &&& forall|a: int, b: int| 0 <= a < b < sorted.len() ==> seq_less(#[trigger] sorted[a].name, #[trigger] sorted[b].name)
}

/// The name order over the tags.
struct TagListing<'a> {
    tags: &'a Vec<Tag>,
}

impl<'a> RowOrder for TagListing<'a> {
    closed spec fn size(&self) -> nat {
        self.tags@.len()
    }

    closed spec fn valid(&self) -> bool {
        forall|i: int, j: int|
            0 <= i < self.tags@.len() && 0 <= j < self.tags@.len() && i != j
                ==> #[trigger] self.tags@[i].name@ != #[trigger] self.tags@[j].name@
    }

    closed spec fn before(&self, i: int, j: int) -> bool {
        seq_less(self.tags@[i].name@, self.tags@[j].name@)
    }

    proof fn lemma_irreflexive(&self, i: int) {
        lemma_seq_less_irreflexive(self.tags@[i].name@);
    }

    proof fn lemma_transitive(&self, i: int, j: int, k: int) {
        lemma_seq_less_transitive(self.tags@[i].name@, self.tags@[j].name@, self.tags@[k].name@);
    }

    proof fn lemma_total(&self, i: int, j: int) {
        lemma_seq_less_total(self.tags@[i].name@, self.tags@[j].name@);
    }

    fn count(&self) -> (n: usize) {
        self.tags.len()
    }

    fn is_before(&self, i: usize, j: usize) -> (r: bool) {
        str_less(self.tags[i].name.as_str(), self.tags[j].name.as_str())
    }
}

fn tag_name_taken_message(name: &str) -> (r: String)
    ensures
        r@ == tag_name_taken_text(name@),
{
    let mut s = to_string("タグ名「");
    append_str(&mut s, name);
    append_str(&mut s, "」は既に使用されています");
    s
}

fn tag_not_found_message(id: i64) -> (r: String)
    ensures
        r@ == tag_not_found_text(id),
{
    let mut s = to_string("tag id=");
    append_i64(&mut s, id);
    s
}

fn clone_opt_str(o: Option<&str>) -> (r: Option<String>)
    ensures
        ov(r) == query_view(o),
{
    match o {
        Some(s) => Some(to_string(s)),
        None => None,
    }
}

impl ClipboardHistory {
    /// All tags, in ascending name order.
    pub fn list_tags(&self) -> (r: Result<Vec<Tag>, ShelfError>)
        ensures
            r matches Ok(v) && is_name_order(tags_view(v@), self.tags()),
    {
        proof {
            use_type_invariant(self);
        }
        let order = TagListing { tags: &self.tags };
        proof {
            assert forall|i: int, j: int|
                0 <= i < self.tags@.len() && 0 <= j < self.tags@.len() && i != j
                    implies #[trigger] self.tags@[i].name@ != #[trigger] self.tags@[j].name@ by {
                self.lemma_tag_index(i);
                self.lemma_tag_index(j);
                if i < j {
                    assert(self.tags()[i].name != self.tags()[j].name);
                } else {
                    assert(self.tags()[j].name != self.tags()[i].name);
                }
            }
        }
        let perm = sorted_positions(&order);
        let mut out: Vec<Tag> = Vec::new();
        let mut k: usize = 0;
        while k < perm.len()
            invariant
                k <= perm@.len(),
                is_permutation(perm@, self.tags@.len() as nat),
                out@.len() == k,
                forall|a: int| 0 <= a < k ==> #[trigger] out@[a] == self.tags@[perm@[a] as int],
            decreases perm@.len() - k,
        {
            out.push(copy_tag(&self.tags[perm[k]]));
            k = k + 1;
        }
        proof {
            let sv = tags_view(out@);
            let tv = self.tags();
            assert forall|a: int| 0 <= a < sv.len() implies #[trigger] sv[a] == tv[perm@[a] as int] by {
                self.lemma_tag_index(perm@[a] as int);
            }
            assert forall|a: int, b: int| 0 <= a < b < sv.len() implies seq_less(#[trigger] sv[a].name, #[trigger] sv[b].name) by {
                assert(order.before(perm@[a] as int, perm@[b] as int));
                assert(sv[a] == tv[perm@[a] as int]);
                assert(sv[b] == tv[perm@[b] as int]);
                self.lemma_tag_index(perm@[a] as int);
                self.lemma_tag_index(perm@[b] as int);
            }
            assert forall|k: int| 0 <= k < sv.len() implies tv.contains(#[trigger] sv[k]) by {
                assert(sv[k] == tv[perm@[k] as int]);
            }
            assert forall|i: int| 0 <= i < tv.len() implies sv.contains(#[trigger] tv[i]) by {
                assert(occurs(perm@, i));
                let a = choose|a: int| 0 <= a < perm@.len() && perm@[a] == i;
                assert(sv[a] == tv[i]);
            }
        }
        Ok(out)
    }

    /// Creates a tag. A name already in use gives `Conflict`; otherwise the tag gets
    /// the next id.
    pub fn create_tag(&mut self, name: &str, color: Option<&str>) -> (r: Result<Tag, ShelfError>)
        ensures
            has_tag_name(old(self).tags(), name@) ==> (r matches Err(e) && e is Conflict
                && e.detail() == tag_name_taken_text(name@)),
            !has_tag_name(old(self).tags(), name@) && old(self).last_tag_id() == i64::MAX ==> (r matches Err(e)
                && e is Database && e.detail() == "database or disk is full"@),
            r is Err ==> final(self).tags() == old(self).tags() && final(self).last_tag_id() == old(self).last_tag_id(),
            !has_tag_name(old(self).tags(), name@) && old(self).last_tag_id() < i64::MAX ==> (r matches Ok(t) && {
                &&& t@ == TagView { id: (old(self).last_tag_id() + 1) as i64, name: name@, color: query_view(color) }
                &&& final(self).tags() == old(self).tags().push(t@)
                &&& final(self).last_tag_id() == old(self).last_tag_id() + 1
            }),
            final(self).entries() == old(self).entries(),
            final(self).last_entry_id() == old(self).last_entry_id(),
            final(self).links() == old(self).links(),
            final(self).well_formed(),
    {
        proof {
            use_type_invariant(&*self);
        }
        if self.tag_name_taken(name) {
            return Err(ShelfError::Conflict(tag_name_taken_message(name)));
        }
        if self.last_tag_id == i64::MAX {
            return Err(ShelfError::Database(to_string("database or disk is full")));
        }
        let ghost old_tags = self.tags();
        let (entries, last_entry_id, mut tags, last_tag_id, links) = self.take_all();
        let id = last_tag_id + 1;
        let t = Tag { id, name: to_string(name), color: clone_opt_str(color) };
        tags.push(copy_tag(&t));
        proof {
            let nv = tags_view(tags@);
            assert(nv =~= old_tags.push(t@));
            assert forall|a: int, b: int| 0 <= a < b < nv.len() implies #[trigger] nv[a].id < #[trigger] nv[b].id
                && nv[a].name != nv[b].name by {
                if b == nv.len() - 1 {
                    assert(nv[a] == old_tags[a]);
                }
            }
            assert forall|a: int, b: int| 0 <= a < b < nv.len() implies #[trigger] nv[a].name != #[trigger] nv[b].name by {
                assert(nv[a].id < nv[b].id && nv[a].name != nv[b].name);
            }
            assert forall|a: int| 0 <= a < links@.len() implies tag_has_id(nv, (#[trigger] links@[a]).1) by {
                assert(tag_has_id(old_tags, links@[a].1));
                let b = choose|b: int| 0 <= b < old_tags.len() && old_tags[b].id == links@[a].1;
                assert(nv[b] == old_tags[b]);
            }
        }
        self.put_all(entries, last_entry_id, tags, id, links);
        proof {
            use_type_invariant(&*self);
        }
        Ok(t)
    }
}

} // verus!

verus! {

/// The text SQLite gives for an attachment to a tag that does not exist.
pub open spec fn missing_tag_text() -> Seq<char> {
    "FOREIGN KEY constraint failed"@
}

/// The text SQLite gives for an attachment made twice.
pub open spec fn duplicate_link_text() -> Seq<char> {
    "UNIQUE constraint failed: clipboard_tags.clipboard_id, clipboard_tags.tag_id"@
}

/// Attaching the tags `ids`, one after the other, to entry `cid` on top of the
/// attachments `base`: the attachments made up to the first failure, and that failure's
/// text (an unknown tag, or a tag attached twice).
pub open spec fn attach_tags(base: Seq<(i64, i64)>, tags: Seq<TagView>, cid: i64, ids: Seq<i64>) -> (
    Seq<(i64, i64)>,
    Option<Seq<char>>,
)
    decreases ids.len(),
{
    if ids.len() == 0 {
        (base, None)
    } else {
        let (l, err) = attach_tags(base, tags, cid, ids.drop_last());
        if err is Some {
            (l, err)
        } else if !tag_has_id(tags, ids.last()) {
            (l, Some(missing_tag_text()))
        } else if l.contains((cid, ids.last())) {
            (l, Some(duplicate_link_text()))
        } else {
            (l.push((cid, ids.last())), None)
        }
    }
}

proof fn lemma_attach_prefix_err(base: Seq<(i64, i64)>, tags: Seq<TagView>, cid: i64, ids: Seq<i64>, k: int)
    requires
        0 <= k <= ids.len(),
        attach_tags(base, tags, cid, ids.take(k)).1 is Some,
    ensures
        attach_tags(base, tags, cid, ids) == attach_tags(base, tags, cid, ids.take(k)),
    decreases ids.len() - k,
{
    if k == ids.len() {
        assert(ids.take(k) =~= ids);
    } else {
        assert(ids.take(k + 1).drop_last() =~= ids.take(k));
        lemma_attach_prefix_err(base, tags, cid, ids, k + 1);
    }
}

/// The attachments of `links` that satisfy `keep`, in order, with their source
/// positions.
fn filter_links(links: &Vec<(i64, i64)>, entry: bool, id: i64) -> (r: (Vec<(i64, i64)>, Ghost<Seq<int>>))
    ensures
        entry ==> r.0@ == links_without_entry(links@, id),
        !entry ==> r.0@ == links_without_tag(links@, id),
        picks(r.0@, links@, r.1@),
{
    let mut out: Vec<(i64, i64)> = Vec::new();
    let ghost mut src: Seq<int> = Seq::empty();
    let mut k: usize = 0;
    while k < links.len()
        invariant
            k <= links@.len(),
            entry ==> out@ == links_without_entry(links@.take(k as int), id),
            !entry ==> out@ == links_without_tag(links@.take(k as int), id),
            picks(out@, links@, src),
            forall|a: int| 0 <= a < src.len() ==> #[trigger] src[a] < k,
        decreases links@.len() - k,
    {
        proof {
            assert(links@.take(k + 1).drop_last() =~= links@.take(k as int));
            assert(links@.take(k + 1).last() == links@[k as int]);
        }
        let l = links[k];
        let stays = if entry { l.0 != id } else { l.1 != id };
        if stays {
            let ghost before = out@;
            out.push(l);
            proof {
                src = src.push(k as int);
                assert(out@ == before.push(l));
            }
        }
        k = k + 1;
    }
    proof {
        assert(links@.take(k as int) =~= links@);
    }
    (out, Ghost(src))
}

impl ClipboardHistory {
    /// Deletes the tag with the given id together with its attachments.
    pub fn delete_tag(&mut self, id: i64) -> (r: Result<(), ShelfError>)
        ensures
            r is Ok <==> tag_has_id(old(self).tags(), id),
            r is Ok ==> final(self).tags() == old(self).tags().remove(tag_index(old(self).tags(), id))
                && final(self).links() == links_without_tag(old(self).links(), id),
            r matches Err(e) ==> e is NotFound && e.detail() == tag_not_found_text(id)
                && final(self).tags() == old(self).tags() && final(self).links() == old(self).links(),
            final(self).entries() == old(self).entries(),
            final(self).last_entry_id() == old(self).last_entry_id(),
            final(self).last_tag_id() == old(self).last_tag_id(),
            final(self).well_formed(),
    {
        proof {
            use_type_invariant(&*self);
        }
        let pos = match self.tag_position(id) {
            None => {
                return Err(ShelfError::NotFound(tag_not_found_message(id)));
            },
            Some(p) => p,
        };
        let ghost old_tags = self.tags();
        let ghost old_rows = self.entries();
        let (entries, last_entry_id, mut tags, last_tag_id, links) = self.take_all();
        let _removed = tags.remove(pos);
        let (new_links, Ghost(src)) = filter_links(&links, false, id);
        proof {
            let nv = tags_view(tags@);
            assert(nv =~= old_tags.remove(pos as int));
            assert forall|a: int, b: int| 0 <= a < b < nv.len() implies #[trigger] nv[a].id < #[trigger] nv[b].id
                && nv[a].name != nv[b].name by {
                let a0 = if a < pos { a } else { a + 1 };
                let b0 = if b < pos { b } else { b + 1 };
                assert(nv[a] == old_tags[a0] && nv[b] == old_tags[b0]);
            }
            assert forall|a: int, b: int| 0 <= a < b < nv.len() implies #[trigger] nv[a].name != #[trigger] nv[b].name by {
                assert(nv[a].id < nv[b].id && nv[a].name != nv[b].name);
            }
            assert forall|a: int| 0 <= a < nv.len() implies 1 <= #[trigger] nv[a].id <= last_tag_id by {
                let a0 = if a < pos { a } else { a + 1 };
                assert(nv[a] == old_tags[a0]);
            }
            lemma_picks_links_distinct(new_links@, links@, src);
            assert forall|a: int| 0 <= a < new_links@.len() implies entry_has_id(old_rows, (#[trigger] new_links@[a]).0)
                && tag_has_id(nv, new_links@[a].1) by {
                let l = new_links@[a];
                assert(l == links@[src[a]]);
                lemma_links_without_tag_excludes(links@, id, a);
                assert(tag_has_id(old_tags, l.1));
                let b = choose|b: int| 0 <= b < old_tags.len() && old_tags[b].id == l.1;
                assert(b != pos);
                let b1 = if b < pos { b } else { b - 1 };
                assert(nv[b1] == old_tags[b]);
            }
        }
        self.put_all(entries, last_entry_id, tags, last_tag_id, new_links);
        proof {
            use_type_invariant(&*self);
        }
        Ok(())
    }
}

proof fn lemma_links_without_tag_excludes(links: Seq<(i64, i64)>, id: i64, a: int)
    requires
        0 <= a < links_without_tag(links, id).len(),
    ensures
        links_without_tag(links, id)[a].1 != id,
    decreases links.len(),
{
    if links.len() > 0 {
        let rest = links_without_tag(links.drop_last(), id);
        if links.last().1 != id {
            if a < rest.len() {
                lemma_links_without_tag_excludes(links.drop_last(), id, a);
            }
        } else {
            lemma_links_without_tag_excludes(links.drop_last(), id, a);
        }
    }
}

proof fn lemma_links_without_entry_excludes(links: Seq<(i64, i64)>, id: i64, a: int)
    requires
        0 <= a < links_without_entry(links, id).len(),
    ensures
        links_without_entry(links, id)[a].0 != id,
    decreases links.len(),
{
    if links.len() > 0 {
        let rest = links_without_entry(links.drop_last(), id);
        if links.last().0 != id {
            if a < rest.len() {
                lemma_links_without_entry_excludes(links.drop_last(), id, a);
            }
        } else {
            lemma_links_without_entry_excludes(links.drop_last(), id, a);
        }
    }
}

} // verus!

verus! {

fn contains_link(links: &Vec<(i64, i64)>, l: (i64, i64)) -> (r: bool)
    ensures
        r == links@.contains(l),
{
    let mut j: usize = 0;
    while j < links.len()
        invariant
            j <= links@.len(),
            forall|a: int| 0 <= a < j ==> #[trigger] links@[a] != l,
        decreases links@.len() - j,
    {
        if links[j].0 == l.0 && links[j].1 == l.1 {
            proof {
                assert(links@[j as int] == l);
            }
            return true;
        }
        j = j + 1;
    }
    false
}

impl ClipboardHistory {
    /// Replaces the tags attached to entry `clipboard_id` by `tag_ids`: its attachments
    /// are removed, then the tags are attached one after the other. An unknown entry
    /// gives `NotFound`, with nothing changed. An unknown tag, or a tag given twice,
    /// gives a `Database` error; the attachments made before it stay.
    pub fn set_clipboard_tags(&mut self, clipboard_id: i64, tag_ids: &[i64]) -> (r: Result<(), ShelfError>)
        ensures
            !entry_has_id(old(self).entries(), clipboard_id) ==> (r matches Err(e) && e is NotFound
                && e.detail() == entry_not_found_text(clipboard_id) && final(self).links() == old(self).links()),
            entry_has_id(old(self).entries(), clipboard_id) ==> {
                let (l, err) = attach_tags(
                    links_without_entry(old(self).links(), clipboard_id),
                    old(self).tags(),
                    clipboard_id,
                    tag_ids@,
                );
                &&& final(self).links() == l
                &&& (r is Ok <==> err is None)
                &&& (r matches Err(e) ==> e is Database && err == Some(e.detail()))
            },
            final(self).entries() == old(self).entries(),
            final(self).last_entry_id() == old(self).last_entry_id(),
            final(self).tags() == old(self).tags(),
            final(self).last_tag_id() == old(self).last_tag_id(),
            final(self).well_formed(),
    {
        proof {
            use_type_invariant(&*self);
        }
        if self.entry_position(clipboard_id).is_none() {
            return Err(ShelfError::NotFound(entry_not_found_message(clipboard_id)));
        }
        proof {
            use_type_invariant(&*self);
        }
        let ghost rows = self.entries();
        let ghost tv = self.tags();
        let ghost ids = tag_ids@;
        let (mut new_links, Ghost(src)) = filter_links(&self.links, true, clipboard_id);
        let ghost base = new_links@;
        proof {
            lemma_picks_links_distinct(new_links@, self.links@, src);
            assert forall|a: int| 0 <= a < new_links@.len() implies entry_has_id(rows, (#[trigger] new_links@[a]).0)
                && tag_has_id(tv, new_links@[a].1) by {
                assert(new_links@[a] == self.links@[src[a]]);
            }
            assert(ids.take(0) =~= Seq::<i64>::empty());
        }
        let mut failure: Option<String> = None;
        let mut m: usize = 0;
        while m < tag_ids.len()
            invariant_except_break
                failure is None,
                attach_tags(base, tv, clipboard_id, ids.take(m as int)) == (new_links@, None::<Seq<char>>),
            invariant
                m <= tag_ids@.len(),
                ids == tag_ids@,
                rows == self.entries(),
                tv == self.tags(),
                entry_has_id(rows, clipboard_id),
                forall|i: int, j: int| 0 <= i < j < new_links@.len() ==> #[trigger] new_links@[i] != #[trigger] new_links@[j],
                forall|a: int| 0 <= a < new_links@.len() ==> entry_has_id(rows, (#[trigger] new_links@[a]).0)
                    && tag_has_id(tv, new_links@[a].1),
            ensures
                failure is None ==> m == tag_ids@.len()
                    && attach_tags(base, tv, clipboard_id, ids.take(m as int)) == (new_links@, None::<Seq<char>>),
                failure matches Some(f) ==> m < tag_ids@.len()
                    && attach_tags(base, tv, clipboard_id, ids.take(m + 1)) == (new_links@, Some(f@)),
            decreases tag_ids@.len() - m,
        {
            let t = tag_ids[m];
            proof {
                assert(ids.take(m + 1).drop_last() =~= ids.take(m as int));
                assert(ids.take(m + 1).last() == t);
            }
            if self.tag_position(t).is_none() {
                failure = Some(to_string("FOREIGN KEY constraint failed"));
                break;
            }
            if contains_link(&new_links, (clipboard_id, t)) {
                failure = Some(to_string("UNIQUE constraint failed: clipboard_tags.clipboard_id, clipboard_tags.tag_id"));
                break;
            }
            let ghost before = new_links@;
            new_links.push((clipboard_id, t));
            proof {
                assert(new_links@ == before.push((clipboard_id, t)));
                assert forall|i: int, j: int| 0 <= i < j < new_links@.len() implies #[trigger] new_links@[i]
                    != #[trigger] new_links@[j] by {
                    if j == new_links@.len() - 1 {
                        assert(new_links@[i] == before[i]);
                        assert(before.contains(before[i]));
                    }
                }
            }
            m = m + 1;
        }
        let ghost final_links = new_links@;
        proof {
            if failure is None {
                assert(ids.take(m as int) =~= ids);
            } else {
                lemma_attach_prefix_err(base, tv, clipboard_id, ids, m + 1);
            }
        }
        let (entries, last_entry_id, tags, last_tag_id, _links) = self.take_all();
        self.put_all(entries, last_entry_id, tags, last_tag_id, new_links);
        match failure {
            None => Ok(()),
            Some(f) => Err(ShelfError::Database(f)),
        }
    }
}

} // verus!

verus! {

/// Whether stored entries keep the rules of the history.
fn entries_ok(rows: &Vec<HistoryRow>, last_id: i64) -> (r: bool)
    ensures
        r == entries_well_formed(rows@.map_values(|x: HistoryRow| x@), last_id as int),
{
    let ghost v = rows@.map_values(|x: HistoryRow| x@);
    if last_id < 0 {
        return false;
    }
    let mut i: usize = 0;
    while i < rows.len()
        invariant
            0 <= last_id,
            v == rows@.map_values(|x: HistoryRow| x@),
            i <= rows@.len(),
            forall|k: int| 0 <= k < i ==> 1 <= #[trigger] v[k].id <= last_id,
            forall|k: int, l: int| 0 <= k < l < i ==> #[trigger] v[k].id < #[trigger] v[l].id,
            forall|k: int, l: int| 0 <= k < l < i ==> #[trigger] v[k].content_hash != #[trigger] v[l].content_hash,
        decreases rows@.len() - i,
    {
        let id = rows[i].id;
        proof {
            assert(v[i as int].id == id);
            if i > 0 {
                assert(v[i - 1].id == rows@[i - 1].id);
            }
        }
        if id < 1 || id > last_id || (i > 0 && rows[i - 1].id >= id) {
            return false;
        }
        let mut j: usize = 0;
        while j < i
            invariant
                j <= i < rows@.len(),
                v == rows@.map_values(|x: HistoryRow| x@),
                forall|k: int| 0 <= k < j ==> #[trigger] v[k].content_hash != v[i as int].content_hash,
            decreases i - j,
        {
            if str_eq(rows[j].content_hash.as_str(), rows[i].content_hash.as_str()) {
                proof {
                    assert(v[j as int].content_hash == v[i as int].content_hash);
                }
                return false;
            }
            j = j + 1;
        }
        proof {
            assert forall|k: int, l: int| 0 <= k < l < i + 1 implies #[trigger] v[k].id < #[trigger] v[l].id by {
                if l == i && k < i - 1 {
                    assert(v[k].id < v[i - 1].id);
                }
            }
        }
        i = i + 1;
    }
    true
}

/// Whether stored tags keep the rules of the history.
fn tags_ok(tags: &Vec<Tag>, last_id: i64) -> (r: bool)
    ensures
        r == tags_well_formed(tags_view(tags@), last_id as int),
{
    let ghost v = tags_view(tags@);
    if last_id < 0 {
        return false;
    }
    let mut i: usize = 0;
    while i < tags.len()
        invariant
            0 <= last_id,
            v == tags_view(tags@),
            i <= tags@.len(),
            forall|k: int| 0 <= k < i ==> 1 <= #[trigger] v[k].id <= last_id,
            forall|k: int, l: int| 0 <= k < l < i ==> #[trigger] v[k].id < #[trigger] v[l].id,
            forall|k: int, l: int| 0 <= k < l < i ==> #[trigger] v[k].name != #[trigger] v[l].name,
        decreases tags@.len() - i,
    {
        let id = tags[i].id;
        proof {
            assert(v[i as int].id == id);
            if i > 0 {
                assert(v[i - 1].id == tags@[i - 1].id);
            }
        }
        if id < 1 || id > last_id || (i > 0 && tags[i - 1].id >= id) {
            return false;
        }
        let mut j: usize = 0;
        while j < i
            invariant
                j <= i < tags@.len(),
                v == tags_view(tags@),
                forall|k: int| 0 <= k < j ==> #[trigger] v[k].name != v[i as int].name,
            decreases i - j,
        {
            if str_eq(tags[j].name.as_str(), tags[i].name.as_str()) {
                proof {
                    assert(v[j as int].name == v[i as int].name);
                }
                return false;
            }
            j = j + 1;
        }
        proof {
            assert forall|k: int, l: int| 0 <= k < l < i + 1 implies #[trigger] v[k].id < #[trigger] v[l].id by {
                if l == i && k < i - 1 {
                    assert(v[k].id < v[i - 1].id);
                }
            }
        }
        i = i + 1;
    }
    true
}

/// Whether stored attachments keep the rules of the history.
fn links_ok(links: &Vec<(i64, i64)>, rows: &Vec<HistoryRow>, tags: &Vec<Tag>) -> (r: bool)
    ensures
        r == links_well_formed(links@, rows@.map_values(|x: HistoryRow| x@), tags_view(tags@)),
{
    let ghost rv = rows@.map_values(|x: HistoryRow| x@);
    let ghost tv = tags_view(tags@);
    let mut i: usize = 0;
    while i < links.len()
        invariant
            i <= links@.len(),
            rv == rows@.map_values(|x: HistoryRow| x@),
            tv == tags_view(tags@),
            forall|k: int| 0 <= k < i ==> entry_has_id(rv, (#[trigger] links@[k]).0) && tag_has_id(tv, links@[k].1),
            forall|k: int, l: int| 0 <= k < l < i ==> #[trigger] links@[k] != #[trigger] links@[l],
        decreases links@.len() - i,
    {
        let l = links[i];
        let mut has_entry = false;
        let mut j: usize = 0;
        while j < rows.len()
            invariant
                j <= rows@.len(),
                rv == rows@.map_values(|x: HistoryRow| x@),
                has_entry == exists|b: int| 0 <= b < j && rv[b].id == l.0,
            decreases rows@.len() - j,
        {
            proof {
                assert(rv[j as int].id == rows@[j as int].id);
            }
            if rows[j].id == l.0 {
                has_entry = true;
            }
            j = j + 1;
        }
        let mut has_tag = false;
        let mut t: usize = 0;
        while t < tags.len()
            invariant
                t <= tags@.len(),
                tv == tags_view(tags@),
                has_tag == exists|b: int| 0 <= b < t && tv[b].id == l.1,
            decreases tags@.len() - t,
        {
            proof {
                assert(tv[t as int].id == tags@[t as int].id);
            }
            if tags[t].id == l.1 {
                has_tag = true;
            }
            t = t + 1;
        }
        if !has_entry || !has_tag {
            return false;
        }
        let mut j2: usize = 0;
        while j2 < i
            invariant
                j2 <= i < links@.len(),
                l == links@[i as int],
                forall|k: int| 0 <= k < j2 ==> #[trigger] links@[k] != l,
            decreases i - j2,
        {
            if links[j2].0 == l.0 && links[j2].1 == l.1 {
                proof {
                    assert(links@[j2 as int] == l);
                }
                return false;
            }
            j2 = j2 + 1;
        }
        i = i + 1;
    }
    true
}

impl ClipboardHistory {
    /// Builds a history from stored entries and tags (each in ascending id order), the
    /// largest ids ever handed out, and the stored attachments; refuses data that breaks
    /// the history's rules.
    pub fn from_parts(
        entries: Vec<HistoryRow>,
        last_entry_id: i64,
        tags: Vec<Tag>,
        last_tag_id: i64,
        links: Vec<(i64, i64)>,
    ) -> (r: Result<ClipboardHistory, ShelfError>)
        ensures
            r is Ok <==> history_well_formed(
                entries@.map_values(|x: HistoryRow| x@),
                last_entry_id as int,
                tags_view(tags@),
                last_tag_id as int,
                links@,
            ),
            r matches Ok(h) ==> h.entries() == entries@.map_values(|x: HistoryRow| x@)
                && h.last_entry_id() == last_entry_id && h.tags() == tags_view(tags@)
                && h.last_tag_id() == last_tag_id && h.links() == links@,
            r matches Err(e) ==> e is Database,
    {
        if !entries_ok(&entries, last_entry_id) || !tags_ok(&tags, last_tag_id) || !links_ok(&links, &entries, &tags) {
            return Err(ShelfError::Database(to_string("clipboard history: malformed stored data")));
        }
        let h = ClipboardHistory { entries, last_entry_id, tags, last_tag_id, links };
        Ok(h)
    }

    /// A copy of every entry, in insertion order (what is written back to storage).
    pub fn stored_entries(&self) -> (r: Vec<HistoryRow>)
        ensures
            r@.map_values(|x: HistoryRow| x@) == self.entries(),
            forall|i: int, j: int|
                0 <= i < j < self.entries().len() ==> #[trigger] self.entries()[i].content_hash
                    != #[trigger] self.entries()[j].content_hash,
    {
        proof {
            use_type_invariant(self);
        }
        let mut out: Vec<HistoryRow> = Vec::new();
        let mut i: usize = 0;
        while i < self.entries.len()
            invariant
                i <= self.entries@.len(),
                out@.len() == i,
                forall|k: int| 0 <= k < i ==> #[trigger] out@[k] == self.entries@[k],
            decreases self.entries@.len() - i,
        {
            out.push(self.entries[i].duplicate());
            i = i + 1;
        }
        proof {
            assert(out@.map_values(|x: HistoryRow| x@) =~= self.entries());
        }
        out
    }

    /// A copy of every tag, in insertion order.
    pub fn stored_tags(&self) -> (r: Vec<Tag>)
        ensures
            tags_view(r@) == self.tags(),
            forall|i: int, j: int|
                0 <= i < j < self.tags().len() ==> #[trigger] self.tags()[i].name != #[trigger] self.tags()[j].name,
    {
        proof {
            use_type_invariant(self);
        }
        let mut out: Vec<Tag> = Vec::new();
        let mut i: usize = 0;
        while i < self.tags.len()
            invariant
                i <= self.tags@.len(),
                out@.len() == i,
                forall|k: int| 0 <= k < i ==> #[trigger] out@[k] == self.tags@[k],
            decreases self.tags@.len() - i,
        {
            out.push(copy_tag(&self.tags[i]));
            i = i + 1;
        }
        proof {
            assert(tags_view(out@) =~= self.tags());
        }
        out
    }

    /// A copy of every attachment, in the order in which they were made.
    pub fn stored_links(&self) -> (r: Vec<(i64, i64)>)
        ensures
            r@ == self.links(),
    {
        let mut out: Vec<(i64, i64)> = Vec::new();
        let mut i: usize = 0;
        while i < self.links.len()
            invariant
                i <= self.links@.len(),
                out@ == self.links@.take(i as int),
            decreases self.links@.len() - i,
        {
            out.push(self.links[i]);
            proof {
                assert(out@ =~= self.links@.take(i + 1));
            }
            i = i + 1;
        }
        proof {
            assert(self.links@.take(i as int) =~= self.links@);
        }
        out
    }
}

} // verus!

verus! {

pub(crate) proof fn lemma_kept_rows_contains(rows: Seq<HistoryRowView>, keep: Seq<bool>, k: int)
    requires
        keep.len() >= rows.len(),
        0 <= k < rows.len(),
        keep[k],
    ensures
        kept_rows(rows, keep).contains(rows[k]),
    decreases rows.len(),
{
    let n = rows.len() as int;
    if k == n - 1 {
        assert(kept_rows(rows, keep).last() == rows[k]);
        assert(kept_rows(rows, keep)[kept_rows(rows, keep).len() - 1] == rows[k]);
    } else {
        assert(rows.drop_last()[k] == rows[k]);
        lemma_kept_rows_contains(rows.drop_last(), keep, k);
        let sub = kept_rows(rows.drop_last(), keep);
        let j = choose|j: int| 0 <= j < sub.len() && sub[j] == rows[k];
        if keep[n - 1] {
            assert(kept_rows(rows, keep)[j] == rows[k]);
        }
    }
}

pub(crate) proof fn lemma_kept_rows_from(rows: Seq<HistoryRowView>, keep: Seq<bool>, a: int)
    requires
        keep.len() >= rows.len(),
        0 <= a < kept_rows(rows, keep).len(),
    ensures
        exists|k: int| 0 <= k < rows.len() && keep[k] && rows[k] == kept_rows(rows, keep)[a],
    decreases rows.len(),
{
    let n = rows.len() as int;
    let sub = kept_rows(rows.drop_last(), keep);
    if keep[n - 1] && a == sub.len() {
        assert(kept_rows(rows, keep)[a] == rows[n - 1]);
    } else {
        assert(kept_rows(rows, keep)[a] == sub[a]);
        lemma_kept_rows_from(rows.drop_last(), keep, a);
        let k = choose|k: int| 0 <= k < rows.drop_last().len() && keep[k] && rows.drop_last()[k] == sub[a];
        assert(rows[k] == rows.drop_last()[k]);
    }
}

/// Recording content that is already in the history adds no entry: the entries keep
/// their number, order, ids and pins, and only the matching entry's `updated_at`
/// changes. Recording new content adds exactly one unpinned entry holding its hash.
pub proof fn lemma_record_deduplicates(
    rows: Seq<HistoryRowView>,
    last_id: int,
    rows2: Seq<HistoryRowView>,
    last_id2: int,
    r: Result<(), ShelfError>,
    snap: SnapshotView,
    hash: Seq<char>,
    image_path: Option<Seq<char>>,
    now: Seq<char>,
)
    requires
        record_outcome(rows, last_id, rows2, last_id2, r, snap, hash, image_path, now),
    ensures
        has_hash(rows, hash) ==> {
            &&& rows2.len() == rows.len()
            &&& forall|i: int|
                0 <= i < rows.len() ==> (#[trigger] rows2[i]).pinned == rows[i].pinned && rows2[i].id == rows[i].id
                    && rows2[i].content_hash == rows[i].content_hash
            &&& rows2[hash_index(rows, hash)].updated_at == now
        },
        !has_hash(rows, hash) && r is Ok ==> {
            &&& rows2.len() == rows.len() + 1
            &&& rows2.last().content_hash == hash
            &&& !rows2.last().pinned
            &&& rows2.drop_last() == rows
        },
{
    if !has_hash(rows, hash) && r is Ok {
        assert(rows2.drop_last() =~= rows);
    }
}

/// Clearing with `exclude_pinned` keeps exactly the pinned entries; clearing without it
/// keeps none.
pub proof fn lemma_clear_keeps_pinned(rows: Seq<HistoryRowView>, exclude_pinned: bool)
    ensures
        forall|a: int|
            0 <= a < kept_rows(rows, keep_on_clear(rows, exclude_pinned)).len() ==> exclude_pinned
                && (#[trigger] kept_rows(rows, keep_on_clear(rows, exclude_pinned))[a]).pinned,
        forall|k: int|
            0 <= k < rows.len() && exclude_pinned && (#[trigger] rows[k]).pinned ==> kept_rows(
                rows,
                keep_on_clear(rows, exclude_pinned),
            ).contains(rows[k]),
{
    let keep = keep_on_clear(rows, exclude_pinned);
    assert forall|a: int| 0 <= a < kept_rows(rows, keep).len() implies exclude_pinned && (#[trigger] kept_rows(
        rows,
        keep,
    )[a]).pinned by {
        lemma_kept_rows_from(rows, keep, a);
    }
    assert forall|k: int| 0 <= k < rows.len() && exclude_pinned && (#[trigger] rows[k]).pinned implies kept_rows(
        rows,
        keep,
    ).contains(rows[k]) by {
        lemma_kept_rows_contains(rows, keep, k);
    }
}

/// The automatic clean-up never deletes a pinned entry.
pub proof fn lemma_retention_keeps_pinned(rows: Seq<HistoryRowView>, max_entries: int, cutoff: Seq<char>, k: int)
    requires
        0 <= k < rows.len(),
        rows[k].pinned,
    ensures
        ({
            let rows1 = kept_rows(rows, keep_by_age(rows, cutoff));
            kept_rows(rows1, keep_by_count(rows1, max_entries)).contains(rows[k])
        }),
{
    let keep1 = keep_by_age(rows, cutoff);
    let rows1 = kept_rows(rows, keep1);
    lemma_kept_rows_contains(rows, keep1, k);
    let j = choose|j: int| 0 <= j < rows1.len() && rows1[j] == rows[k];
    let keep2 = keep_by_count(rows1, max_entries);
    lemma_kept_rows_contains(rows1, keep2, j);
}

proof fn lemma_older_unpinned_monotone(rows: Seq<HistoryRowView>, a: HistoryRowView, b: HistoryRowView)
    requires
        retention_before(a, b),
    ensures
        older_unpinned(rows, a) <= older_unpinned(rows, b),
    decreases rows.len(),
{
    if rows.len() > 0 {
        lemma_older_unpinned_monotone(rows.drop_last(), a, b);
        let x = rows.last();
        if !x.pinned && retention_before(x, a) {
            if seq_less(x.updated_at, a.updated_at) && seq_less(a.updated_at, b.updated_at) {
                lemma_seq_less_transitive(x.updated_at, a.updated_at, b.updated_at);
            }
        }
    }
}

pub(crate) proof fn lemma_older_unpinned_counts_self(rows: Seq<HistoryRowView>, a: HistoryRowView, b: HistoryRowView, i: int)
    requires
        0 <= i < rows.len(),
        rows[i] == a,
        !a.pinned,
        retention_before(a, b),
    ensures
        older_unpinned(rows, a) < older_unpinned(rows, b),
    decreases rows.len(),
{
    let n = rows.len() as int;
    let x = rows.last();
    if i == n - 1 {
        lemma_older_unpinned_monotone(rows.drop_last(), a, b);
        lemma_seq_less_irreflexive(a.updated_at);
    } else {
        assert(rows.drop_last()[i] == a);
        lemma_older_unpinned_counts_self(rows.drop_last(), a, b, i);
        if !x.pinned && retention_before(x, a) {
            if seq_less(x.updated_at, a.updated_at) && seq_less(a.updated_at, b.updated_at) {
                lemma_seq_less_transitive(x.updated_at, a.updated_at, b.updated_at);
            }
        }
    }
}

/// The count limit gives up the least recently updated unpinned entries first: where
/// it deletes an unpinned entry, it also deletes every unpinned entry updated before it
/// (for equal times, with a smaller id).
pub proof fn lemma_retention_oldest_first(rows: Seq<HistoryRowView>, max_entries: int, i: int, j: int)
    requires
        0 <= i < rows.len(),
        0 <= j < rows.len(),
        !rows[i].pinned,
        !rows[j].pinned,
        retention_before(rows[i], rows[j]),
        !keep_by_count(rows, max_entries)[j],
    ensures
        !keep_by_count(rows, max_entries)[i],
{
    lemma_older_unpinned_counts_self(rows, rows[i], rows[j], i);
}

/// Deleting a tag removes every attachment to it.
pub proof fn lemma_deleted_tag_detached(links: Seq<(i64, i64)>, tag_id: i64)
    ensures
        forall|a: int| 0 <= a < links_without_tag(links, tag_id).len() ==> (#[trigger] links_without_tag(links, tag_id)[a]).1
            != tag_id,
{
    assert forall|a: int| 0 <= a < links_without_tag(links, tag_id).len() implies (#[trigger] links_without_tag(
        links,
        tag_id,
    )[a]).1 != tag_id by {
        lemma_links_without_tag_excludes(links, tag_id, a);
    }
}

/// Replacing an entry's tags by known, distinct tags succeeds and leaves the entry with
/// exactly those tags, in the order given, after the other entries' attachments.
pub proof fn lemma_set_tags_replaces(links: Seq<(i64, i64)>, tags: Seq<TagView>, cid: i64, ids: Seq<i64>)
    requires
        forall|k: int| 0 <= k < ids.len() ==> tag_has_id(tags, #[trigger] ids[k]),
        forall|a: int, b: int| 0 <= a < b < ids.len() ==> #[trigger] ids[a] != #[trigger] ids[b],
    ensures
        attach_tags(links_without_entry(links, cid), tags, cid, ids) == (
            links_without_entry(links, cid) + ids.map_values(|t: i64| (cid, t)),
            None::<Seq<char>>,
        ),
    decreases ids.len(),
{
    let base = links_without_entry(links, cid);
    if ids.len() == 0 {
        assert(base + ids.map_values(|t: i64| (cid, t)) =~= base);
    } else {
        let prev = ids.drop_last();
        assert forall|a: int, b: int| 0 <= a < b < prev.len() implies #[trigger] prev[a] != #[trigger] prev[b] by {
            assert(prev[a] == ids[a] && prev[b] == ids[b]);
        }
        assert forall|k: int| 0 <= k < prev.len() implies tag_has_id(tags, #[trigger] prev[k]) by {
            assert(prev[k] == ids[k]);
        }
        lemma_set_tags_replaces(links, tags, cid, prev);
        let l = base + prev.map_values(|t: i64| (cid, t));
        let t = ids.last();
        assert(tag_has_id(tags, ids[ids.len() - 1]));
        if l.contains((cid, t)) {
            let j = choose|j: int| 0 <= j < l.len() && l[j] == (cid, t);
            if j < base.len() {
                lemma_links_without_entry_excludes(links, cid, j);
            } else {
                assert(l[j] == (cid, prev[j - base.len()]));
                assert(ids[j - base.len()] == t);
            }
        }
        assert(l.push((cid, t)) =~= base + ids.map_values(|t: i64| (cid, t)));
    }
}

} // verus!

verus! {

/// Without a query, the listing holds every entry.
pub proof fn lemma_no_query_keeps_all(rows: Seq<HistoryRowView>, links: Seq<(i64, i64)>, tags: Seq<TagView>)
    ensures
        kept_rows(rows, filter_keep(rows, links, tags, None)) == rows,
    decreases rows.len(),
{
    if rows.len() > 0 {
        let d = rows.drop_last();
        lemma_no_query_keeps_all(d, links, tags);
        assert(kept_rows(d, filter_keep(rows, links, tags, None)) == kept_rows(d, filter_keep(d, links, tags, None))) by {
            lemma_kept_rows_same_prefix(d, filter_keep(rows, links, tags, None), filter_keep(d, links, tags, None));
        }
        assert(d.push(rows.last()) =~= rows);
    } else {
        assert(kept_rows(rows, filter_keep(rows, links, tags, None)) =~= rows);
    }
}

proof fn lemma_kept_rows_same_prefix(rows: Seq<HistoryRowView>, k1: Seq<bool>, k2: Seq<bool>)
    requires
        k1.len() >= rows.len(),
        k2.len() >= rows.len(),
        forall|i: int| 0 <= i < rows.len() ==> k1[i] == k2[i],
    ensures
        kept_rows(rows, k1) == kept_rows(rows, k2),
    decreases rows.len(),
{
    if rows.len() > 0 {
        lemma_kept_rows_same_prefix(rows.drop_last(), k1, k2);
    }
}

/// A deleted entry is gone: no entry keeps its id.
pub proof fn lemma_deleted_entry_gone(rows: Seq<HistoryRowView>, id: i64)
    ensures
        !entry_has_id(kept_rows(rows, keep_except(rows, id)), id),
{
    let keep = keep_except(rows, id);
    if entry_has_id(kept_rows(rows, keep), id) {
        let a = choose|a: int| 0 <= a < kept_rows(rows, keep).len() && kept_rows(rows, keep)[a].id == id;
        lemma_kept_rows_from(rows, keep, a);
    }
}

proof fn lemma_entry_tags_of_others(links: Seq<(i64, i64)>, tags: Seq<TagView>, cid: i64)
    ensures
        entry_tags(links_without_entry(links, cid), tags, cid) == Seq::<TagView>::empty(),
    decreases links.len(),
{
    if links.len() > 0 {
        lemma_entry_tags_of_others(links.drop_last(), tags, cid);
        let rest = links_without_entry(links.drop_last(), cid);
        if links.last().0 != cid {
            assert(links_without_entry(links, cid) == rest.push(links.last()));
            assert(rest.push(links.last()).drop_last() =~= rest);
        }
    }
}

/// Reading an entry's tags gives back what replacing them with known, distinct tags
/// wrote: those tags, in the order given.
pub proof fn lemma_tags_read_back(links: Seq<(i64, i64)>, tags: Seq<TagView>, cid: i64, ids: Seq<i64>)
    requires
        forall|k: int| 0 <= k < ids.len() ==> tag_has_id(tags, #[trigger] ids[k]),
        forall|a: int, b: int| 0 <= a < b < ids.len() ==> #[trigger] ids[a] != #[trigger] ids[b],
    ensures
        entry_tags(attach_tags(links_without_entry(links, cid), tags, cid, ids).0, tags, cid) == ids.map_values(
            |t: i64| tags[tag_index(tags, t)],
        ),
    decreases ids.len(),
{
    let base = links_without_entry(links, cid);
    lemma_set_tags_replaces(links, tags, cid, ids);
    if ids.len() == 0 {
        lemma_entry_tags_of_others(links, tags, cid);
        assert(base + ids.map_values(|t: i64| (cid, t)) =~= base);
        assert(ids.map_values(|t: i64| tags[tag_index(tags, t)]) =~= Seq::<TagView>::empty());
    } else {
        let prev = ids.drop_last();
        assert forall|a: int, b: int| 0 <= a < b < prev.len() implies #[trigger] prev[a] != #[trigger] prev[b] by {
            assert(prev[a] == ids[a] && prev[b] == ids[b]);
        }
        assert forall|k: int| 0 <= k < prev.len() implies tag_has_id(tags, #[trigger] prev[k]) by {
            assert(prev[k] == ids[k]);
        }
        lemma_tags_read_back(links, tags, cid, prev);
        lemma_set_tags_replaces(links, tags, cid, prev);
        let l = base + prev.map_values(|t: i64| (cid, t));
        let full = base + ids.map_values(|t: i64| (cid, t));
        assert(full.drop_last() =~= l);
        assert(full.last() == (cid, ids.last()));
        assert(tag_has_id(tags, ids[ids.len() - 1]));
        assert(ids.map_values(|t: i64| tags[tag_index(tags, t)]) =~= prev.map_values(|t: i64| tags[tag_index(tags, t)]).push(
            tags[tag_index(tags, ids.last())],
        ));
    }
}

} // verus!
