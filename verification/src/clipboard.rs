//! Clipboard contents as the watcher reports them, their content hash, and the guard
//! that keeps the application's own clipboard writes out of the history.

use vstd::prelude::*;
use crate::error::ShelfError;
use crate::text::{push_char, str_eq, strings_view, to_string};
use vstd::string::*;
use sha2::Digest;

verus! {

/// What a clipboard change carried.
#[derive(Debug)]
pub enum ClipboardSnapshot {
    Text(String),
    /// PNG-encoded image bytes.
    Image(Vec<u8>),
    /// Paths, each as text.
    FilePaths(Vec<String>),
}

/// The mathematical content of a `ClipboardSnapshot`.
pub enum SnapshotView {
    Text(Seq<char>),
    Image(Seq<u8>),
    FilePaths(Seq<Seq<char>>),
}

impl View for ClipboardSnapshot {
    type V = SnapshotView;

    open spec fn view(&self) -> SnapshotView {
        match self {
            ClipboardSnapshot::Text(t) => SnapshotView::Text(t@),
            ClipboardSnapshot::Image(b) => SnapshotView::Image(b@),
            ClipboardSnapshot::FilePaths(p) => SnapshotView::FilePaths(strings_view(p@)),
        }
    }
}

/// The SHA-256 digest of a byte sequence.
pub uninterp spec fn sha256_of(data: Seq<u8>) -> Seq<u8>;

/// Unicode's `White_Space` property, which `char::is_whitespace` and `str::trim` use:
/// U+0009 to U+000D, U+0020, U+0085, U+00A0, U+1680, U+2000 to U+200A, U+2028, U+2029,
/// U+202F, U+205F and U+3000.
pub open spec fn is_white_space(c: char) -> bool {
    let n = c as u32;
    ||| 0x9 <= n <= 0xD
    ||| n == 0x20
    ||| n == 0x85
    ||| n == 0xA0
    ||| n == 0x1680
    ||| 0x2000 <= n <= 0x200A
    ||| n == 0x2028
    ||| n == 0x2029
    ||| n == 0x202F
    ||| n == 0x205F
    ||| n == 0x3000
}

/// The text without its leading white space.
pub open spec fn trim_start(s: Seq<char>) -> Seq<char>
    decreases s.len(),
{
    if s.len() > 0 && is_white_space(s[0]) {
        trim_start(s.drop_first())
    } else {
        s
    }
}

/// The text without its trailing white space.
pub open spec fn trim_end(s: Seq<char>) -> Seq<char>
    decreases s.len(),
{
    if s.len() > 0 && is_white_space(s.last()) {
        trim_end(s.drop_last())
    } else {
        s
    }
}

/// The text with its leading and trailing white space removed, as `str::trim` gives it.
pub open spec fn trimmed(s: Seq<char>) -> Seq<char> {
    trim_end(trim_start(s))
}

/// The SHA-256 digest of `data` (`sha2::Sha256::digest`).
///
/// Trusted: the result is named `sha256_of(data)`, and it is 32 bytes long (the output
/// type of `Sha256` is a 32-byte array).
#[verifier::external_body]
fn sha256(data: &[u8]) -> (r: Vec<u8>)
    ensures
        r@ == sha256_of(data@),
        r@.len() == 32,
{
    sha2::Sha256::digest(data).to_vec()
}

/// Whether the character has Unicode's `White_Space` property.
fn is_space_char(c: char) -> (r: bool)
    ensures
        r == is_white_space(c),
{
    let n = c as u32;
    (0x9 <= n && n <= 0xD) || n == 0x20 || n == 0x85 || n == 0xA0 || n == 0x1680 || (0x2000 <= n && n <= 0x200A)
        || n == 0x2028 || n == 0x2029 || n == 0x202F || n == 0x205F || n == 0x3000
}

proof fn lemma_trim_start_skips(s: Seq<char>, a: int)
    requires
        0 <= a <= s.len(),
        forall|i: int| 0 <= i < a ==> is_white_space(#[trigger] s[i]),
    ensures
        trim_start(s) == trim_start(s.subrange(a, s.len() as int)),
    decreases a,
{
    if a == 0 {
        assert(s.subrange(0, s.len() as int) =~= s);
    } else {
        assert(is_white_space(s[0]));
        let d = s.drop_first();
        assert forall|i: int| 0 <= i < a - 1 implies is_white_space(#[trigger] d[i]) by {
            assert(d[i] == s[i + 1]);
        }
        lemma_trim_start_skips(d, a - 1);
        assert(d.subrange(a - 1, d.len() as int) =~= s.subrange(a, s.len() as int));
    }
}

proof fn lemma_trim_end_cuts(t: Seq<char>, m: int)
    requires
        0 <= m <= t.len(),
        forall|i: int| m <= i < t.len() ==> is_white_space(#[trigger] t[i]),
    ensures
        trim_end(t) == trim_end(t.take(m)),
    decreases t.len() - m,
{
    if m == t.len() {
        assert(t.take(m) =~= t);
    } else {
        assert(is_white_space(t[t.len() - 1]));
        let d = t.drop_last();
        assert forall|i: int| m <= i < d.len() implies is_white_space(#[trigger] d[i]) by {
            assert(d[i] == t[i]);
        }
        lemma_trim_end_cuts(d, m);
        assert(d.take(m) =~= t.take(m));
    }
}

/// The text without leading and trailing white space, as `str::trim` gives it.
fn trim(s: &str) -> (r: String)
    ensures
        r@ == trimmed(s@),
{
    let chars = crate::text::chars_of(s);
    let n = chars.len();
    let mut a: usize = 0;
    while a < n && is_space_char(chars[a])
        invariant
            chars@ == s@,
            n == chars@.len(),
            a <= n,
            forall|i: int| 0 <= i < a ==> is_white_space(#[trigger] chars@[i]),
        decreases n - a,
    {
        a = a + 1;
    }
    let ghost t = s@.subrange(a as int, n as int);
    proof {
        lemma_trim_start_skips(s@, a as int);
        if a < n {
            assert(t[0] == chars@[a as int]);
        }
        assert(trim_start(t) == t);
    }
    let mut b: usize = n;
    while b > a && is_space_char(chars[b - 1])
        invariant
            chars@ == s@,
            n == chars@.len(),
            a <= b <= n,
            t == s@.subrange(a as int, n as int),
            forall|i: int| b - a <= i < t.len() ==> is_white_space(#[trigger] t[i]),
        decreases b - a,
    {
        assert(t[b - 1 - a] == chars@[b - 1]);
        b = b - 1;
    }
    proof {
        lemma_trim_end_cuts(t, b - a);
        let u = t.take(b - a);
        if b > a {
            assert(u.last() == chars@[b - 1]);
        }
        assert(trim_end(u) == u);
    }
    let mut out = String::new();
    let mut i: usize = a;
    while i < b
        invariant
            chars@ == s@,
            a <= i <= b <= n,
            n == chars@.len(),
            out@ == s@.subrange(a as int, i as int),
        decreases b - i,
    {
        push_char(&mut out, chars[i]);
        proof {
            assert(s@.subrange(a as int, i + 1) =~= s@.subrange(a as int, i as int).push(chars@[i as int]));
        }
        i = i + 1;
    }
    proof {
        assert(out@ =~= t.take(b - a));
    }
    out
}

/// The lower-case hexadecimal digit for `d` (`0 <= d < 16`).
pub open spec fn hex_digit(d: int) -> char {
    if d < 10 {
        crate::text::digit_char(d)
    } else if d == 10 {
        'a'
    } else if d == 11 {
        'b'
    } else if d == 12 {
        'c'
    } else if d == 13 {
        'd'
    } else if d == 14 {
        'e'
    } else {
        'f'
    }
}

/// Two lower-case hexadecimal digits per byte, high nibble first (`format!("{:x}", ..)`
/// of a digest).
pub open spec fn hex_lower(data: Seq<u8>) -> Seq<char>
    decreases data.len(),
{
    if data.len() == 0 {
        Seq::empty()
    } else {
        hex_lower(data.drop_last()) + seq![
            hex_digit(data.last() as int / 16),
            hex_digit(data.last() as int % 16),
        ]
    }
}

/// A lower-case hexadecimal digit: `0`-`9` or `a`-`f`.
pub open spec fn is_lower_hex(c: char) -> bool {
    let n = c as u32;
    (48 <= n <= 57) || (97 <= n <= 102)
}

proof fn lemma_hex_digit_is_lower_hex(d: int)
    requires
        0 <= d < 16,
    ensures
        is_lower_hex(hex_digit(d)),
{
}

/// The hex text of `data` is two lower-case hex digits per byte.
pub proof fn lemma_hex_lower_shape(data: Seq<u8>)
    ensures
        hex_lower(data).len() == 2 * data.len(),
        forall|i: int| 0 <= i < hex_lower(data).len() ==> is_lower_hex(#[trigger] hex_lower(data)[i]),
    decreases data.len(),
{
    if data.len() > 0 {
        lemma_hex_lower_shape(data.drop_last());
        lemma_hex_digit_is_lower_hex(data.last() as int / 16);
        lemma_hex_digit_is_lower_hex(data.last() as int % 16);
        let h = hex_lower(data);
        let p = hex_lower(data.drop_last());
        assert forall|i: int| 0 <= i < h.len() implies is_lower_hex(#[trigger] h[i]) by {
            if i < p.len() {
                assert(h[i] == p[i]);
            }
        }
    }
}

/// The bytes hashed for a list of paths: each path's UTF-8 bytes followed by a line feed.
pub open spec fn path_list_bytes(paths: Seq<Seq<char>>) -> Seq<u8>
    decreases paths.len(),
{
    if paths.len() == 0 {
        Seq::empty()
    } else {
        path_list_bytes(paths.drop_last()) + vstd::utf8::encode_utf8(paths.last()) + seq![10u8]
    }
}

/// The bytes that are hashed for a snapshot: a kind prefix, then the content (text
/// trimmed of surrounding white space; image bytes as they are; paths one per line).
pub open spec fn hashed_bytes(s: SnapshotView) -> Seq<u8> {
    match s {
        SnapshotView::Text(t) => vstd::utf8::encode_utf8("text:"@) + vstd::utf8::encode_utf8(trimmed(t)),
        SnapshotView::Image(b) => vstd::utf8::encode_utf8("image:"@) + b,
        SnapshotView::FilePaths(p) => vstd::utf8::encode_utf8("file_paths:"@) + path_list_bytes(p),
    }
}

/// The content hash of a snapshot: the lower-case hex SHA-256 of `hashed_bytes`.
pub open spec fn content_hash_text(s: SnapshotView) -> Seq<char> {
    hex_lower(sha256_of(hashed_bytes(s)))
}

fn hex_char(d: u8) -> (c: char)
    requires
        d < 16,
    ensures
        c == hex_digit(d as int),
{
    if d < 10 {
        let c = if d == 0 {
            '0'
        } else if d == 1 {
            '1'
        } else if d == 2 {
            '2'
        } else if d == 3 {
            '3'
        } else if d == 4 {
            '4'
        } else if d == 5 {
            '5'
        } else if d == 6 {
            '6'
        } else if d == 7 {
            '7'
        } else if d == 8 {
            '8'
        } else {
            '9'
        };
        c
    } else if d == 10 {
        'a'
    } else if d == 11 {
        'b'
    } else if d == 12 {
        'c'
    } else if d == 13 {
        'd'
    } else if d == 14 {
        'e'
    } else {
        'f'
    }
}

/// Lower-case hexadecimal text of a byte sequence.
pub fn to_hex_lower(data: &[u8]) -> (r: String)
    ensures
        r@ == hex_lower(data@),
{
    let mut out = String::new();
    let mut i: usize = 0;
    while i < data.len()
        invariant
            i <= data@.len(),
            out@ == hex_lower(data@.take(i as int)),
        decreases data@.len() - i,
    {
        let b = data[i];
        let ghost before = out@;
        push_char(&mut out, hex_char(b / 16));
        push_char(&mut out, hex_char(b % 16));
        proof {
            assert(data@.take(i + 1).drop_last() =~= data@.take(i as int));
            assert(data@.take(i + 1).last() == b);
            assert(out@ =~= hex_lower(data@.take(i + 1)));
        }
        i = i + 1;
    }
    proof {
        assert(data@.take(i as int) =~= data@);
    }
    out
}

fn append_bytes(out: &mut Vec<u8>, bytes: &[u8])
    ensures
        final(out)@ == old(out)@ + bytes@,
{
    let mut i: usize = 0;
    while i < bytes.len()
        invariant
            i <= bytes@.len(),
            out@ == old(out)@ + bytes@.take(i as int),
        decreases bytes@.len() - i,
    {
        out.push(bytes[i]);
        proof {
            assert(bytes@.take(i + 1) =~= bytes@.take(i as int).push(bytes@[i as int]));
        }
        i = i + 1;
    }
    proof {
        assert(bytes@.take(i as int) =~= bytes@);
    }
}

/// The bytes that `content_hash` hashes for a snapshot.
pub fn snapshot_bytes(snapshot: &ClipboardSnapshot) -> (r: Vec<u8>)
    ensures
        r@ == hashed_bytes(snapshot@),
{
    let mut out: Vec<u8> = Vec::new();
    match snapshot {
        ClipboardSnapshot::Text(text) => {
            append_bytes(&mut out, "text:".as_bytes());
            let t = trim(text.as_str());
            append_bytes(&mut out, t.as_str().as_bytes());
        },
        ClipboardSnapshot::Image(bytes) => {
            append_bytes(&mut out, "image:".as_bytes());
            append_bytes(&mut out, bytes.as_slice());
        },
        ClipboardSnapshot::FilePaths(paths) => {
            append_bytes(&mut out, "file_paths:".as_bytes());
            let ghost prefix = out@;
            let ghost pv = strings_view(paths@);
            let mut i: usize = 0;
            while i < paths.len()
                invariant
                    i <= paths@.len(),
                    pv == strings_view(paths@),
                    out@ == prefix + path_list_bytes(pv.take(i as int)),
                decreases paths@.len() - i,
            {
                append_bytes(&mut out, paths[i].as_str().as_bytes());
                out.push(10u8);
                proof {
                    assert(pv.take(i + 1).drop_last() =~= pv.take(i as int));
                    assert(pv.take(i + 1).last() == paths@[i as int]@);
                    assert(out@ =~= prefix + path_list_bytes(pv.take(i + 1)));
                }
                i = i + 1;
            }
            proof {
                assert(pv.take(i as int) =~= pv);
            }
        },
    }
    out
}

/// The content hash used to recognise the same clipboard content again: the lower-case
/// hex SHA-256 of the snapshot's kind prefix and content.
pub fn content_hash(snapshot: &ClipboardSnapshot) -> (r: String)
    ensures
        r@ == content_hash_text(snapshot@),
        r@.len() == 64,
        forall|i: int| 0 <= i < r@.len() ==> is_lower_hex(#[trigger] r@[i]),
{
    let bytes = snapshot_bytes(snapshot);
    let digest = sha256(bytes.as_slice());
    proof {
        lemma_hex_lower_shape(digest@);
    }
    to_hex_lower(digest.as_slice())
}

/// The clipboard format a change is read from.
#[derive(Debug, Clone, Copy, PartialEq, Eq, Structural)]
pub enum ClipboardFormat {
    /// A list of files (`CF_HDROP`).
    FileList,
    /// Unicode text (`CF_UNICODETEXT`).
    Text,
    /// A device-independent bitmap (`CF_DIB`).
    Bitmap,
}

/// Which format of a clipboard change is read: none where the owner marked the content
/// as excluded from clipboard monitors (as password managers do); otherwise a file list
/// before text before a bitmap, as far as the clipboard offers them.
pub fn format_to_read(excluded: bool, has_file_list: bool, has_text: bool, has_bitmap: bool) -> (r: Option<ClipboardFormat>)
    ensures
        r == if excluded {
            None
        } else if has_file_list {
            Some(ClipboardFormat::FileList)
        } else if has_text {
            Some(ClipboardFormat::Text)
        } else if has_bitmap {
            Some(ClipboardFormat::Bitmap)
        } else {
            None
        },
{
    if excluded {
        None
    } else if has_file_list {
        Some(ClipboardFormat::FileList)
    } else if has_text {
        Some(ClipboardFormat::Text)
    } else if has_bitmap {
        Some(ClipboardFormat::Bitmap)
    } else {
        None
    }
}

/// Texts that differ only in leading and trailing white space have the same content
/// hash, so copying them again does not add a second history entry.
pub proof fn lemma_hash_ignores_surrounding_space(a: Seq<char>, b: Seq<char>)
    requires
        trimmed(a) == trimmed(b),
    ensures
        content_hash_text(SnapshotView::Text(a)) == content_hash_text(SnapshotView::Text(b)),
{
}

proof fn lemma_trim_start_shape(s: Seq<char>)
    ensures
        trim_start(s).len() <= s.len(),
        trim_start(s) == s.subrange(s.len() - trim_start(s).len(), s.len() as int),
        trim_start(s).len() == 0 || !is_white_space(trim_start(s)[0]),
    decreases s.len(),
{
    if s.len() > 0 && is_white_space(s[0]) {
        lemma_trim_start_shape(s.drop_first());
        assert(s.drop_first().subrange(s.drop_first().len() - trim_start(s).len(), s.drop_first().len() as int)
            =~= s.subrange(s.len() - trim_start(s).len(), s.len() as int));
    } else {
        assert(s.subrange(0, s.len() as int) =~= s);
    }
}

proof fn lemma_trim_end_shape(s: Seq<char>)
    ensures
        trim_end(s).len() <= s.len(),
        trim_end(s) == s.take(trim_end(s).len() as int),
        trim_end(s).len() == 0 || !is_white_space(trim_end(s).last()),
    decreases s.len(),
{
    if s.len() > 0 && is_white_space(s.last()) {
        lemma_trim_end_shape(s.drop_last());
        assert(s.drop_last().take(trim_end(s).len() as int) =~= s.take(trim_end(s).len() as int));
    } else {
        assert(s.take(s.len() as int) =~= s);
    }
}

/// Trimmed text starts and ends with a character that is not white space, and trimming
/// it again changes nothing.
pub proof fn lemma_trimmed_is_trimmed(s: Seq<char>)
    ensures
        trimmed(s).len() == 0 || !is_white_space(trimmed(s)[0]),
        trimmed(s).len() == 0 || !is_white_space(trimmed(s).last()),
        trimmed(trimmed(s)) == trimmed(s),
{
    let t = trim_start(s);
    let u = trim_end(t);
    lemma_trim_start_shape(s);
    lemma_trim_end_shape(t);
    if u.len() > 0 {
        assert(u[0] == t[0]);
    }
    assert(trim_start(u) == u);
    assert(trim_end(u) == u);
}

/// Leading and trailing white space of copied text does not change its content hash:
/// the text hashes as its trimmed form does.
pub proof fn lemma_hash_of_text_is_hash_of_trimmed(s: Seq<char>)
    ensures
        content_hash_text(SnapshotView::Text(s)) == content_hash_text(SnapshotView::Text(trimmed(s))),
{
    lemma_trimmed_is_trimmed(s);
}

/// An image is hashed with all of its bytes: the hashed bytes of an image are a kind
/// prefix, the same for every image, followed by the image's bytes, whole; so two images
/// that differ anywhere are hashed from different bytes.
pub proof fn lemma_image_hashed_whole(a: Seq<u8>, b: Seq<u8>)
    ensures
        hashed_bytes(SnapshotView::Image(a)).len() == hashed_bytes(SnapshotView::Image(Seq::empty())).len() + a.len(),
        hashed_bytes(SnapshotView::Image(a)).subrange(
            hashed_bytes(SnapshotView::Image(Seq::empty())).len() as int,
            hashed_bytes(SnapshotView::Image(a)).len() as int,
        ) == a,
        hashed_bytes(SnapshotView::Image(a)).take(hashed_bytes(SnapshotView::Image(Seq::empty())).len() as int)
            == hashed_bytes(SnapshotView::Image(b)).take(hashed_bytes(SnapshotView::Image(Seq::empty())).len() as int),
        a != b ==> hashed_bytes(SnapshotView::Image(a)) != hashed_bytes(SnapshotView::Image(b)),
{
    let p = vstd::utf8::encode_utf8("image:"@);
    assert(p + Seq::<u8>::empty() =~= p);
    assert((p + a).subrange(p.len() as int, (p + a).len() as int) =~= a);
    assert((p + b).subrange(p.len() as int, (p + b).len() as int) =~= b);
    assert((p + a).take(p.len() as int) =~= p);
    assert((p + b).take(p.len() as int) =~= p);
}

/// Remembers the content hash of the application's own latest clipboard write, so that
/// the change it causes is not recorded in the history.
pub struct SelfWriteGuard {
    marked: Option<String>,
}

impl SelfWriteGuard {
    /// The hash marked and not yet consumed, if any.
    pub closed spec fn pending(&self) -> Option<Seq<char>> {
        match self.marked {
            Some(h) => Some(h@),
            None => None,
        }
    }

    /// A guard with nothing marked.
    pub fn new() -> (g: SelfWriteGuard)
        ensures
            g.pending() is None,
    {
        SelfWriteGuard { marked: None }
    }

    /// Marks the hash of content about to be written to the clipboard.
    pub fn mark(&mut self, hash: String)
        ensures
            final(self).pending() == Some(hash@),
    {
        self.marked = Some(hash);
    }

    /// Returns `true`, consuming the mark, where `hash` is the marked hash; otherwise
    /// returns `false` and leaves the guard as it was.
    pub fn consume_if_matches(&mut self, hash: &str) -> (r: bool)
        ensures
            r == (old(self).pending() == Some(hash@)),
            r ==> final(self).pending() is None,
            !r ==> final(self).pending() == old(self).pending(),
    {
        let matches = match &self.marked {
            Some(h) => str_eq(h.as_str(), hash),
            None => false,
        };
        if matches {
            self.marked = None;
        }
        matches
    }
}

} // verus!

verus! {

/// Watches the clipboard and reports each change to a callback of type `F`.
pub trait ClipboardWatcher<F: Fn(ClipboardSnapshot)> {
    /// Starts watching; `on_change` is called with each change.
    fn start(&mut self, on_change: F) -> Result<(), ShelfError>;

    /// Stops watching.
    fn stop(&mut self);
}

/// A watcher that watches nothing: used where the platform has no clipboard watcher.
pub struct DevStubClipboardWatcher;

impl DevStubClipboardWatcher {
    pub fn new() -> (w: DevStubClipboardWatcher) {
        DevStubClipboardWatcher
    }
}

impl<F: Fn(ClipboardSnapshot)> ClipboardWatcher<F> for DevStubClipboardWatcher {
    fn start(&mut self, on_change: F) -> (r: Result<(), ShelfError>)
        ensures
            r is Ok,
    {
        Ok(())
    }

    fn stop(&mut self) {
    }
}

/// The watcher used where the platform offers no clipboard watcher of its own.
pub fn create_watcher() -> (w: DevStubClipboardWatcher) {
    DevStubClipboardWatcher::new()
}

} // verus!
