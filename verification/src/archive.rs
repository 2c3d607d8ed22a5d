//! Compressing a shelf item into a ZIP archive: the names its entries get, and the
//! archive built from them with the `zip` crate (deflate-compressed files, directories
//! as entries of their own).

use vstd::prelude::*;
use crate::error::ShelfError;
use crate::text::{append_str, push_char, to_string};
use vstd::string::*;
use vstd::utf8::encode_utf8;
use std::io::Write;

verus! {

/// An in-memory ZIP writer of the `zip` crate (`zip::ZipWriter` over a
/// `std::io::Cursor<Vec<u8>>`), whose generic declaration Verus does not take.
#[verifier::external_body]
pub struct ZipBuilder {
    writer: zip::ZipWriter<std::io::Cursor<Vec<u8>>>,
}

/// The entries a ZIP writer has been given so far: each entry's name, and for a file
/// the bytes written to it (`None` for a directory).
pub uninterp spec fn zip_items(w: ZipBuilder) -> Seq<(Seq<char>, Option<Seq<u8>>)>;

/// The archive the `zip` crate writes for the given entries.
pub uninterp spec fn zip_archive_bytes(items: Seq<(Seq<char>, Option<Seq<u8>>)>) -> Seq<u8>;

/// The entries after writing `bytes` into the last one, a file.
pub open spec fn append_to_last(items: Seq<(Seq<char>, Option<Seq<u8>>)>, bytes: Seq<u8>) -> Seq<(Seq<char>, Option<Seq<u8>>)> {
    let last = items.last();
    items.update(
        items.len() - 1,
        (
            last.0,
            match last.1 {
                Some(b) => Some(b + bytes),
                None => Some(bytes),
            },
        ),
    )
}

/// `zip::ZipWriter::new` over an empty in-memory buffer.
///
/// Trusted: the new writer holds no entry.
#[verifier::external_body]
fn zip_start() -> (w: ZipBuilder)
    ensures
        zip_items(w) == Seq::<(Seq<char>, Option<Seq<u8>>)>::empty(),
{
    ZipBuilder { writer: zip::ZipWriter::new(std::io::Cursor::new(Vec::new())) }
}

/// The name the `zip` crate gives a directory entry: the name with a final `/` added
/// unless it already ends in `/` or `\\`.
pub open spec fn dir_entry_name(name: Seq<char>) -> Seq<char> {
    if name.len() > 0 && (name.last() == '/' || name.last() == '\\') {
        name
    } else {
        name.push('/')
    }
}

/// The largest file, in bytes, that an archive is sure to take without the `zip` crate's
/// large-file option: the crate refuses a file whose size, before or after deflate
/// compression, passes `u32::MAX`, and deflate grows data by far less than this margin.
pub const ZIP_FILE_LIMIT: u64 = 0xE000_0000;

/// The names of the entries, in order.
pub open spec fn item_names(items: Seq<(Seq<char>, Option<Seq<u8>>)>) -> Seq<Seq<char>> {
    items.map_values(|it: (Seq<char>, Option<Seq<u8>>)| it.0)
}

/// Every file among the entries is at most `ZIP_FILE_LIMIT` bytes long.
pub open spec fn files_within_limit(items: Seq<(Seq<char>, Option<Seq<u8>>)>) -> bool {
    forall|i: int|
        0 <= i < items.len() && (#[trigger] items[i]).1 is Some ==> items[i].1->Some_0.len() <= ZIP_FILE_LIMIT
}

/// The entry name fits the 16-bit name length of a ZIP header (in UTF-8 bytes); the `zip`
/// crate panics on a longer one.
pub open spec fn name_fits(name: Seq<char>) -> bool {
    encode_utf8(name).len() <= 0xFFFF
}

/// `zip::ZipWriter::add_directory` with default options.
///
/// Trusted: where it succeeds, a directory entry is appended, named as
/// `dir_entry_name` says. It fails when an entry of that name is already there (the
/// crate keeps its entries in a map keyed by name), and it succeeds when no entry has that
/// name and every file written so far is within `ZIP_FILE_LIMIT` (the entry that came
/// before is closed first, which checks its sizes). Other failures are given as the
/// error's text. The writer is consumed and given back only on success, so no writer
/// outlives a failure (after one, the crate may have closed or dropped the open file).
#[verifier::external_body]
fn zip_add_directory(w: ZipBuilder, name: &str) -> (r: Result<ZipBuilder, String>)
    requires
        name_fits(dir_entry_name(name@)),
    ensures
        r is Ok ==> zip_items(r->Ok_0) == zip_items(w).push((dir_entry_name(name@), None::<Seq<u8>>)),
        item_names(zip_items(w)).contains(dir_entry_name(name@)) ==> r is Err,
        !item_names(zip_items(w)).contains(dir_entry_name(name@)) && files_within_limit(zip_items(w)) ==> r is Ok,
{
    let mut w = w;
    match w.writer.add_directory(name, zip::write::SimpleFileOptions::default()) {
        Ok(()) => Ok(w),
        Err(e) => Err(e.to_string()),
    }
}

/// `zip::ZipWriter::start_file` with deflate compression.
///
/// Trusted: where it succeeds, an empty file entry named `name` is appended. It fails
/// when an entry of that name is already there, and it succeeds when no entry has that
/// name and every file written so far is within `ZIP_FILE_LIMIT`, as for
/// `zip_add_directory`. On success the new file is the one open for writing; the writer
/// is given back only then.
#[verifier::external_body]
fn zip_start_file(w: ZipBuilder, name: &str) -> (r: Result<ZipBuilder, String>)
    requires
        name_fits(name@),
    ensures
        r is Ok ==> zip_items(r->Ok_0) == zip_items(w).push((name@, Some(Seq::<u8>::empty()))),
        item_names(zip_items(w)).contains(name@) ==> r is Err,
        !item_names(zip_items(w)).contains(name@) && files_within_limit(zip_items(w)) ==> r is Ok,
{
    let mut w = w;
    let options = zip::write::SimpleFileOptions::default().compression_method(zip::CompressionMethod::Deflated);
    match w.writer.start_file(name, options) {
        Ok(()) => Ok(w),
        Err(e) => Err(e.to_string()),
    }
}

/// `std::io::Write::write_all` on a ZIP writer.
///
/// Trusted: where it succeeds, the bytes are appended to the file entry last started.
/// It succeeds when that file stays within `ZIP_FILE_LIMIT` (the writer over an
/// in-memory buffer refuses only a file past `u32::MAX` bytes). Other failures are
/// given as the error's text. A writer whose last entry is a file has that file open:
/// writers come only from `zip_start`, and from the other wrappers where they succeed,
/// and only a successful `zip_start_file` makes a file the last entry (a successful
/// `zip_add_directory` closes it and makes a directory the last entry). The writer is
/// given back only on success.
#[verifier::external_body]
fn zip_write_all(w: ZipBuilder, bytes: &[u8]) -> (r: Result<ZipBuilder, String>)
    requires
        zip_items(w).len() > 0,
        zip_items(w).last().1 is Some,
    ensures
        r is Ok ==> zip_items(r->Ok_0) == append_to_last(zip_items(w), bytes@),
        zip_items(w).last().1->Some_0.len() + bytes@.len() <= ZIP_FILE_LIMIT ==> r is Ok,
{
    let mut w = w;
    match w.writer.write_all(bytes) {
        Ok(()) => Ok(w),
        Err(e) => Err(e.to_string()),
    }
}

/// `zip::ZipWriter::finish`, giving the archive's bytes.
///
/// Trusted: where it succeeds, the bytes are named `zip_archive_bytes` of the entries
/// given (the `zip` crate, built here without its `time` feature, stamps every entry
/// with 1980-01-01, so the archive depends on the entries alone). It succeeds when
/// every file is within `ZIP_FILE_LIMIT` (closing the last file checks its sizes; the
/// central directory over an in-memory buffer cannot fail otherwise). Other failures
/// are given as the error's text.
#[verifier::external_body]
fn zip_finish(w: ZipBuilder) -> (r: Result<Vec<u8>, String>)
    ensures
        r is Ok ==> r->Ok_0@ == zip_archive_bytes(zip_items(w)),
        files_within_limit(zip_items(w)) ==> r is Ok,
{
    match w.writer.finish() {
        Ok(cursor) => Ok(cursor.into_inner()),
        Err(e) => Err(e.to_string()),
    }
}

/// One entry to put into an archive: a directory (`contents` is `None`) or a file with
/// its bytes.
#[derive(Debug)]
pub struct ArchiveEntry {
    pub name: String,
    pub contents: Option<Vec<u8>>,
}

/// The mathematical content of an `ArchiveEntry`.
pub open spec fn entry_item(e: ArchiveEntry) -> (Seq<char>, Option<Seq<u8>>) {
    match e.contents {
        Some(b) => (e.name@, Some(b@)),
        None => (dir_entry_name(e.name@), None),
    }
}

/// The path text with every `\` turned into `/`.
pub open spec fn slashes(s: Seq<char>) -> Seq<char> {
    s.map_values(|c: char| if c == '\\' { '/' } else { c })
}

/// The name of the entry for `rel` (a path relative to the compressed folder) inside the
/// archive of the folder `root`: `root/rel` with `/` as separator, and a final `/` for a
/// directory.
pub open spec fn entry_name_of(root: Seq<char>, rel: Seq<char>, is_dir: bool) -> Seq<char> {
    root + seq!['/'] + slashes(rel) + if is_dir {
        seq!['/']
    } else {
        Seq::empty()
    }
}

/// The name of the entry for the relative path `rel` inside the archive of the folder
/// `root`.
pub fn archive_entry_name(root: &str, rel: &str, is_dir: bool) -> (r: String)
    ensures
        r@ == entry_name_of(root@, rel@, is_dir),
{
    let mut s = to_string(root);
    push_char(&mut s, '/');
    let chars = crate::text::chars_of(rel);
    let ghost prefix = s@;
    let mut i: usize = 0;
    while i < chars.len()
        invariant
            i <= chars@.len(),
            chars@ == rel@,
            s@ == prefix + slashes(rel@.take(i as int)),
        decreases chars@.len() - i,
    {
        let c = chars[i];
        push_char(&mut s, if c == '\\' { '/' } else { c });
        proof {
            assert(slashes(rel@.take(i + 1)) =~= slashes(rel@.take(i as int)).push(if c == '\\' { '/' } else { c }));
        }
        i = i + 1;
    }
    proof {
        assert(rel@.take(i as int) =~= rel@);
    }
    if is_dir {
        push_char(&mut s, '/');
    }
    proof {
        assert(s@ =~= entry_name_of(root@, rel@, is_dir));
    }
    s
}

/// The entry name of `rel` inside the archive of `root` is `root`, a `/`, then `rel`
/// character by character with only `\` turned into `/` (every other character, ASCII or
/// not, kept as it is), then a final `/` for a directory. So for a `rel` without `\` the
/// name is exactly `root/rel`, and two different such paths get different names.
pub proof fn lemma_entry_name_keeps_rel(root: Seq<char>, rel: Seq<char>, is_dir: bool)
    ensures
        entry_name_of(root, rel, is_dir).len() == root.len() + 1 + rel.len() + if is_dir {
            1int
        } else {
            0int
        },
        entry_name_of(root, rel, is_dir).take(root.len() as int) == root,
        entry_name_of(root, rel, is_dir)[root.len() as int] == '/',
        forall|i: int| 0 <= i < rel.len() ==> #[trigger] entry_name_of(root, rel, is_dir)[root.len() + 1 + i] == if rel[i] == '\\' {
            '/'
        } else {
            rel[i]
        },
        is_dir ==> entry_name_of(root, rel, is_dir).last() == '/',
        (forall|i: int| 0 <= i < rel.len() ==> rel[i] != '\\') ==> entry_name_of(root, rel, is_dir) == root + seq!['/'] + rel + if is_dir {
            seq!['/']
        } else {
            Seq::<char>::empty()
        },
{
    let n = entry_name_of(root, rel, is_dir);
    assert(n.take(root.len() as int) =~= root);
    if forall|i: int| 0 <= i < rel.len() ==> rel[i] != '\\' {
        assert(slashes(rel) =~= rel);
    }
}

/// The name of the top directory entry of a compressed folder: `root/`.
pub fn archive_root_name(root: &str) -> (r: String)
    ensures
        r@ == root@ + seq!['/'],
{
    let mut s = to_string(root);
    push_char(&mut s, '/');
    s
}

fn zip_error(e: String) -> (r: ShelfError)
    ensures
        r is Internal,
        r.detail() == "圧縮処理に失敗しました: "@ + e@,
{
    let mut s = to_string("圧縮処理に失敗しました: ");
    append_str(&mut s, e.as_str());
    ShelfError::Internal(s)
}

fn io_error(e: String) -> (r: ShelfError)
    ensures
        r is Internal,
        r.detail() == "ファイルの読み書きに失敗しました: "@ + e@,
{
    let mut s = to_string("ファイルの読み書きに失敗しました: ");
    append_str(&mut s, e.as_str());
    ShelfError::Internal(s)
}

/// The entries of the archive of `entries`, in order.
pub open spec fn archive_items(entries: Seq<ArchiveEntry>) -> Seq<(Seq<char>, Option<Seq<u8>>)> {
    entries.map_values(|e: ArchiveEntry| entry_item(e))
}

/// Builds the ZIP archive of the entries, in order: directories as directory entries,
/// files deflate-compressed. Where it succeeds, the bytes are what the `zip` crate writes
/// for these entries. Two entries of one name (a directory's name taken with its final
/// `/`) are refused; with distinct names and every file within `ZIP_FILE_LIMIT` it
/// succeeds. A failure is an `Internal` error.
pub fn build_zip(entries: &Vec<ArchiveEntry>) -> (r: Result<Vec<u8>, ShelfError>)
    requires
        forall|k: int| 0 <= k < entries@.len() ==> name_fits(#[trigger] entry_item(entries@[k]).0),
    ensures
        r is Ok ==> r->Ok_0@ == zip_archive_bytes(archive_items(entries@)),
        r is Ok ==> item_names(archive_items(entries@)).no_duplicates(),
        item_names(archive_items(entries@)).no_duplicates() && files_within_limit(archive_items(entries@)) ==> r is Ok,
        r is Err ==> r->Err_0 is Internal,
{
    let ghost items = archive_items(entries@);
    let ghost ok_owed = item_names(items).no_duplicates() && files_within_limit(items);
    let mut w = zip_start();
    let mut k: usize = 0;
    proof {
        assert(item_names(items.take(0)) =~= Seq::<Seq<char>>::empty());
    }
    while k < entries.len()
        invariant
            k <= entries@.len(),
            items == archive_items(entries@),
            ok_owed == (item_names(items).no_duplicates() && files_within_limit(items)),
            forall|j: int| 0 <= j < entries@.len() ==> name_fits(#[trigger] entry_item(entries@[j]).0),
            zip_items(w) == items.take(k as int),
            item_names(items.take(k as int)).no_duplicates(),
        decreases entries@.len() - k,
    {
        let e = &entries[k];
        let ghost before = zip_items(w);
        let ghost name_k = entry_item(entries@[k as int]).0;
        proof {
            assert(items[k as int] == entry_item(entries@[k as int]));
            assert(name_fits(entry_item(entries@[k as int]).0));
            if ok_owed {
                assert(files_within_limit(before)) by {
                    assert forall|i: int| 0 <= i < before.len() && (#[trigger] before[i]).1 is Some implies before[i].1->Some_0.len() <= ZIP_FILE_LIMIT by {
                        assert(before[i] == items[i]);
                    }
                }
                assert(!item_names(before).contains(name_k)) by {
                    if item_names(before).contains(name_k) {
                        let i = choose|i: int| 0 <= i < item_names(before).len() && item_names(before)[i] == name_k;
                        assert(item_names(items)[i] == item_names(items)[k as int]);
                    }
                }
            }
        }
        match &e.contents {
            None => {
                w = match zip_add_directory(w, e.name.as_str()) {
                    Ok(w2) => w2,
                    Err(msg) => {
                        return Err(zip_error(msg));
                    },
                };
            },
            Some(bytes) => {
                w = match zip_start_file(w, e.name.as_str()) {
                    Ok(w2) => w2,
                    Err(msg) => {
                        return Err(zip_error(msg));
                    },
                };
                let ghost started = zip_items(w);
                proof {
                    if ok_owed {
                        assert(items[k as int].1 is Some ==> items[k as int].1->Some_0.len() <= ZIP_FILE_LIMIT);
                    }
                    assert(started.last().1->Some_0 =~= Seq::<u8>::empty());
                }
                w = match zip_write_all(w, bytes.as_slice()) {
                    Ok(w2) => w2,
                    Err(msg) => {
                        return Err(io_error(msg));
                    },
                };
                proof {
                    assert(Seq::<u8>::empty() + bytes@ =~= bytes@);
                    assert(append_to_last(started, bytes@) =~= items.take(k as int).push(entry_item(entries@[k as int])));
                }
            },
        }
        proof {
            assert(items.take(k + 1) =~= items.take(k as int).push(entry_item(entries@[k as int])));
            assert(item_names(items.take(k + 1)) =~= item_names(before).push(name_k));
            assert(item_names(items.take(k + 1)).no_duplicates()) by {
                let ns = item_names(items.take(k + 1));
                assert forall|a: int, b: int| 0 <= a < ns.len() && 0 <= b < ns.len() && a != b implies ns[a] != ns[b] by {
                    if a == k as int {
                        assert(item_names(before)[b] == ns[b]);
                    } else if b == k as int {
                        assert(item_names(before)[a] == ns[a]);
                    }
                }
            }
        }
        k = k + 1;
    }
    proof {
        assert(items.take(k as int) =~= items);
    }
    match zip_finish(w) {
        Ok(bytes) => Ok(bytes),
        Err(msg) => Err(zip_error(msg)),
    }
}

} // verus!
