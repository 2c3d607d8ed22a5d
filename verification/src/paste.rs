//! Moving contents between the history and the system clipboard: deciding whether a
//! clipboard change is recorded (the application's own writes are not), and preparing
//! a history entry for writing back to the clipboard.

use vstd::prelude::*;
use crate::clipboard::{ClipboardSnapshot, SelfWriteGuard, SnapshotView, content_hash, content_hash_text};
use crate::dib::{png_to_rgba, rgba_of_image};
use crate::error::ShelfError;
use crate::models::{ClipboardContentType, ClipboardEntry};
use crate::text::to_string;
use vstd::string::*;

verus! {

/// What the guard does with a change of content hash `h` while `pending` is marked:
/// the hash to record (none for the application's own write) and the mark left.
pub open spec fn observed(pending: Option<Seq<char>>, h: Seq<char>) -> (Option<Seq<char>>, Option<Seq<char>>) {
    if pending == Some(h) {
        (None, None)
    } else {
        (Some(h), pending)
    }
}

/// Decides whether a clipboard change is recorded: returns its content hash, or `None`
/// where the change is the application's own marked write (whose mark it consumes).
pub fn observe_change(guard: &mut SelfWriteGuard, snapshot: &ClipboardSnapshot) -> (r: Option<String>)
    ensures
        ({
            let (rec, left) = observed(old(guard).pending(), content_hash_text(snapshot@));
            &&& final(guard).pending() == left
            &&& match r {
                Some(h) => rec == Some(h@),
                None => rec is None,
            }
        }),
{
    let hash = content_hash(snapshot);
    if guard.consume_if_matches(hash.as_str()) {
        None
    } else {
        Some(hash)
    }
}

/// The application's own write is skipped once: right after marking the hash of some
/// content, a change to that content is not recorded and clears the mark, so the next
/// change to the same content is recorded again.
pub proof fn lemma_own_write_skipped_once(pending: Option<Seq<char>>, h: Seq<char>)
    ensures
        observed(Some(h), h) == (None::<Seq<char>>, None::<Seq<char>>),
        observed(observed(Some(h), h).1, h) == (Some(h), None::<Seq<char>>),
{
}

/// A change to other content than the marked one is recorded and keeps the mark.
pub proof fn lemma_other_content_recorded(pending: Seq<char>, h: Seq<char>)
    requires
        pending != h,
    ensures
        observed(Some(pending), h) == (Some(h), Some(pending)),
{
}

/// What writing a history entry back to the clipboard takes.
#[derive(Debug)]
pub enum PastePlan {
    /// Write this text.
    Text(String),
    /// Read the PNG stored at this path and write it as an image.
    ImageFile(String),
}

/// The plan for an entry, or the error for entries that cannot be written back.
pub open spec fn plan_of(e: ClipboardEntry) -> Result<PasteTarget, Seq<char>> {
    match e.content_type {
        ClipboardContentType::Text => Ok(PasteTarget::Text(
            match e.text_content {
                Some(t) => t@,
                None => Seq::empty(),
            },
        )),
        ClipboardContentType::Image => match e.image_path {
            Some(p) => Ok(PasteTarget::ImageFile(p@)),
            None => Err("画像パスが記録されていません"@),
        },
        ClipboardContentType::FilePaths => Err("ファイルパスのクリップボードへの書き戻しは現在対応していません"@),
    }
}

/// The mathematical content of a `PastePlan`.
pub enum PasteTarget {
    Text(Seq<char>),
    ImageFile(Seq<char>),
}

impl View for PastePlan {
    type V = PasteTarget;

    open spec fn view(&self) -> PasteTarget {
        match self {
            PastePlan::Text(t) => PasteTarget::Text(t@),
            PastePlan::ImageFile(p) => PasteTarget::ImageFile(p@),
        }
    }
}

/// How to write an entry back to the clipboard: its text (empty where it has none), or
/// the PNG file of an image. An image without a file, and file paths (which the
/// clipboard writer cannot put back), are `Internal` errors.
pub fn paste_plan(entry: &ClipboardEntry) -> (r: Result<PastePlan, ShelfError>)
    ensures
        match plan_of(*entry) {
            Ok(p) => r matches Ok(q) && q@ == p,
            Err(msg) => r matches Err(e) && e is Internal && e.detail() == msg,
        },
{
    match entry.content_type {
        ClipboardContentType::Text => {
            let text = match &entry.text_content {
                Some(t) => t.clone(),
                None => String::new(),
            };
            Ok(PastePlan::Text(text))
        },
        ClipboardContentType::Image => match &entry.image_path {
            Some(p) => Ok(PastePlan::ImageFile(p.clone())),
            None => Err(ShelfError::Internal(to_string("画像パスが記録されていません"))),
        },
        ClipboardContentType::FilePaths => Err(
            ShelfError::Internal(to_string("ファイルパスのクリップボードへの書き戻しは現在対応していません")),
        ),
    }
}

/// Before text is written to the clipboard: marks its content hash, so that the change
/// the write causes is not recorded again.
pub fn prepare_text_paste(guard: &mut SelfWriteGuard, text: &str)
    ensures
        final(guard).pending() == Some(content_hash_text(SnapshotView::Text(text@))),
{
    let snapshot = ClipboardSnapshot::Text(to_string(text));
    let hash = content_hash(&snapshot);
    guard.mark(hash);
}

/// Before an image is written to the clipboard: marks the content hash of its PNG bytes
/// and decodes them to RGBA (width, height, bytes). A decoding failure is an `Internal`
/// error; the mark stays set.
pub fn prepare_image_paste(guard: &mut SelfWriteGuard, png: Vec<u8>) -> (r: Result<(u32, u32, Vec<u8>), ShelfError>)
    ensures
        final(guard).pending() == Some(content_hash_text(SnapshotView::Image(png@))),
        r matches Ok(t) ==> rgba_of_image(png@) == Ok::<(u32, u32, Seq<u8>), Seq<char>>((t.0, t.1, t.2@)),
        r matches Err(e) ==> e is Internal && rgba_of_image(png@) is Err
            && e.detail() == "画像のデコードに失敗しました: "@ + rgba_of_image(png@)->Err_0,
{
    let copy = png.clone();
    proof {
        assert(copy@ =~= png@);
    }
    let hash = content_hash(&ClipboardSnapshot::Image(copy));
    guard.mark(hash);
    png_to_rgba(png.as_slice())
}

} // verus!
