//! Names derived from file-system paths.

use vstd::prelude::*;

verus! {

/// The characters after the last `/` of a path (all of it where it has none).
pub open spec fn last_segment(p: Seq<char>) -> Seq<char>
    decreases p.len(),
{
    if p.len() == 0 {
        p
    } else if p.last() == '/' {
        Seq::empty()
    } else {
        last_segment(p.drop_last()).push(p.last())
    }
}

/// A path that every platform splits the same way, at `/` alone: not empty, no `\`, no
/// `:` (so no drive or verbatim prefix), not starting with `//` (a network share on
/// Windows), not ending in `/`, and with a last segment other than `.` and `..`.
pub open spec fn plain_path(p: Seq<char>) -> bool {
    &&& p.len() > 0
    &&& p.last() != '/'
    &&& forall|i: int| 0 <= i < p.len() ==> #[trigger] p[i] != '\\' && p[i] != ':'
    &&& !(p.len() >= 2 && p[0] == '/' && p[1] == '/')
    &&& last_segment(p) != seq!['.']
    &&& last_segment(p) != seq!['.', '.']
}

/// A character at which some platform may split a path: `/`, `\` (Windows) or `:`
/// (after a Windows drive letter).
pub open spec fn may_split_at(c: char) -> bool {
    c == '/' || c == '\\' || c == ':'
}

/// The characters after the last character at which some platform may split the path.
pub open spec fn tail_segment(p: Seq<char>) -> Seq<char>
    decreases p.len(),
{
    if p.len() == 0 {
        p
    } else if may_split_at(p.last()) {
        Seq::empty()
    } else {
        tail_segment(p.drop_last()).push(p.last())
    }
}

/// `s` ends with `t`.
pub open spec fn ends_with(s: Seq<char>, t: Seq<char>) -> bool {
    t.len() <= s.len() && s.subrange(s.len() - t.len(), s.len() as int) == t
}

/// A path that has a final component on every platform: its tail segment is not empty
/// and is neither `.` nor `..`, and it does not start with two separators (a network
/// share or a verbatim or device prefix on Windows).
pub open spec fn named_path(p: Seq<char>) -> bool {
    &&& tail_segment(p).len() > 0
    &&& tail_segment(p) != seq!['.']
    &&& tail_segment(p) != seq!['.', '.']
    &&& !(p.len() >= 2 && (p[0] == '/' || p[0] == '\\') && (p[1] == '/' || p[1] == '\\'))
}

/// The final component of a path (`Path::file_name`), converted to a `String` with
/// `to_string_lossy`.
///
/// Trusted: for a `plain_path` the result is its last segment, the final normal
/// component on every platform. For a `named_path` there is a result, a final part of
/// the path that ends with its tail segment: on Unix the text after the last `/`, on
/// Windows the text after the last `/`, `\` or drive prefix (the path is valid UTF-8,
/// so `to_string_lossy` keeps it as it is). Beyond that, how a path splits depends on
/// the platform's path syntax, so the same text may give different names on different
/// machines (`C:\a\b.txt` is named `b.txt` on Windows and keeps its whole text on Unix).
#[verifier::external_body]
pub(crate) fn path_file_name(path: &str) -> (r: Option<String>)
    ensures
        plain_path(path@) ==> r is Some && r->Some_0@ == last_segment(path@),
        named_path(path@) ==> r is Some && ends_with(path@, r->Some_0@) && ends_with(r->Some_0@, tail_segment(path@)),
{
    match std::path::Path::new(path).file_name() {
        Some(n) => Some(n.to_string_lossy().into_owned()),
        None => None,
    }
}

/// What every platform's `Path::file_name` gives for a path, as far as all of them agree:
/// the last segment of a plain path, and for a named path a final part of the path that
/// ends with its tail segment.
pub open spec fn file_name_fits(path: Seq<char>, name: Option<Seq<char>>) -> bool {
    &&& plain_path(path) ==> name == Some(last_segment(path))
    &&& named_path(path) ==> name is Some && ends_with(path, name->Some_0) && ends_with(name->Some_0, tail_segment(path))
}

/// The name shown for a path: its final component where it has one, the whole path
/// otherwise.
pub open spec fn display_name_of(path: Seq<char>, file_name: Option<Seq<char>>) -> Seq<char> {
    match file_name {
        Some(n) => n,
        None => path,
    }
}

/// Computes `display_name_of`.
pub fn display_name(path: &str, file_name: Option<String>) -> (r: String)
    ensures
        r@ == display_name_of(path@, match file_name {
            Some(n) => Some(n@),
            None => None,
        }),
{
    match file_name {
        Some(n) => n,
        None => String::from_str(path),
    }
}

} // verus!
