//! The history search: SQL `LIKE '%' || query || '%'` with the query's `%`, `_` and `\`
//! escaped, so that the query is looked for literally; as in SQLite's default `LIKE`,
//! ASCII letters match regardless of case.

use vstd::prelude::*;
use crate::text::chars_of;

verus! {

/// A character with ASCII upper-case letters folded to lower case.
pub open spec fn ascii_fold(c: char) -> int {
    if 65 <= (c as int) <= 90 {
        c as int + 32
    } else {
        c as int
    }
}

/// `query` occurs in `text` at position `i`, letters compared without ASCII case.
pub open spec fn occurs_at(text: Seq<char>, query: Seq<char>, i: int) -> bool {
    &&& 0 <= i
    &&& i + query.len() <= text.len()
    &&& forall|j: int| 0 <= j < query.len() ==> ascii_fold(#[trigger] text[i + j]) == ascii_fold(query[j])
}

/// `query` occurs somewhere in `text`, letters compared without ASCII case; the empty
/// query occurs in every text.
pub open spec fn contains_query(text: Seq<char>, query: Seq<char>) -> bool {
    exists|i: int| #[trigger] occurs_at(text, query, i)
}

fn fold(c: char) -> (r: u32)
    ensures
        r == ascii_fold(c),
{
    let u = c as u32;
    if 65 <= u && u <= 90 {
        u + 32
    } else {
        u
    }
}

/// Whether `query` occurs in `text`, letters compared without ASCII case.
pub fn contains_query_str(text: &str, query: &str) -> (r: bool)
    ensures
        r == contains_query(text@, query@),
{
    let t = chars_of(text);
    let q = chars_of(query);
    if q.len() > t.len() {
        proof {
            assert forall|i: int| !occurs_at(text@, query@, i) by {
            }
        }
        return false;
    }
    let tl = t.len();
    let last = tl - q.len();
    let mut i: usize = 0;
    while i <= last
        invariant
            t@ == text@,
            q@ == query@,
            tl == t@.len(),
            q@.len() <= t@.len(),
            last == t@.len() - q@.len(),
            forall|k: int| 0 <= k < i ==> !#[trigger] occurs_at(text@, query@, k),
        decreases last + 1 - i,
    {
        let mut j: usize = 0;
        let mut same = true;
        while j < q.len()
            invariant
                t@ == text@,
                q@ == query@,
                i <= last,
                tl == t@.len(),
                q@.len() <= t@.len(),
                last == t@.len() - q@.len(),
                j <= q@.len(),
                same == forall|m: int| 0 <= m < j ==> ascii_fold(#[trigger] t@[i + m]) == ascii_fold(q@[m]),
            decreases q@.len() - j,
        {
            if fold(t[i + j]) != fold(q[j]) {
                same = false;
            }
            proof {
                if same {
                    assert forall|m: int| 0 <= m < j + 1 implies ascii_fold(#[trigger] t@[i + m]) == ascii_fold(
                        q@[m],
                    ) by {
                    }
                } else {
                    assert(!(ascii_fold(t@[i + j as int]) == ascii_fold(q@[j as int])) || !(forall|m: int|
                        0 <= m < j ==> ascii_fold(#[trigger] t@[i + m]) == ascii_fold(q@[m])));
                }
            }
            j = j + 1;
        }
        if same {
            proof {
                assert(occurs_at(text@, query@, i as int));
            }
            return true;
        }
        proof {
            assert(!occurs_at(text@, query@, i as int));
        }
        if i == last {
            proof {
                assert forall|k: int| !occurs_at(text@, query@, k) by {
                    if 0 <= k <= last {
                    }
                }
            }
            return false;
        }
        i = i + 1;
    }
    false
}

} // verus!
