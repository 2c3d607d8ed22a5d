//! The shelf table: the files and folders the user has dropped on the shelf.
//!
//! The table keeps its rows in the order in which they were inserted (ascending id);
//! ids are handed out like SQLite's `AUTOINCREMENT`: each new row gets one more than the
//! largest id ever handed out, and an id is never reused.

use vstd::prelude::*;
use crate::error::ShelfError;
use crate::models::{ShelfItem, ShelfItemType};
use crate::paths::{path_file_name, display_name_of, file_name_fits, tail_segment, ends_with, named_path, plain_path, last_segment};
use crate::sort::{RowOrder, sorted_positions, is_permutation, is_sorted_by, occurs};
use crate::text::{strings_view, append_i64, int_decimal, seq_less, str_less, str_eq, to_string,
    lemma_seq_less_irreflexive, lemma_seq_less_transitive, lemma_seq_less_total,
    lemma_seq_less_asymmetric};
use vstd::string::*;

verus! {

/// What the file system said about a path when it was looked at.
#[derive(Debug, Clone, Copy, PartialEq, Eq, Structural)]
pub struct PathStatus {
    pub exists: bool,
    pub is_dir: bool,
    /// The size in bytes, where the metadata could be read.
    pub size_bytes: Option<i64>,
    /// The last modification time in Unix epoch milliseconds, where it could be read.
    pub modified_at_ms: Option<i64>,
}

/// One stored row of the shelf table.
#[derive(Debug)]
pub struct ShelfRow {
    pub id: i64,
    pub item_type: ShelfItemType,
    pub source_path: String,
    pub display_name: String,
    pub size_bytes: Option<i64>,
    pub locked: bool,
    pub sort_order: i64,
    pub added_at: String,
}

/// The mathematical content of a `ShelfRow`.
pub struct ShelfRowView {
    pub id: i64,
    pub item_type: ShelfItemType,
    pub source_path: Seq<char>,
    pub display_name: Seq<char>,
    pub size_bytes: Option<i64>,
    pub locked: bool,
    pub sort_order: i64,
    pub added_at: Seq<char>,
}

impl View for ShelfRow {
    type V = ShelfRowView;

    open spec fn view(&self) -> ShelfRowView {
        ShelfRowView {
            id: self.id,
            item_type: self.item_type,
            source_path: self.source_path@,
            display_name: self.display_name@,
            size_bytes: self.size_bytes,
            locked: self.locked,
            sort_order: self.sort_order,
            added_at: self.added_at@,
        }
    }
}

impl ShelfRow {
    /// An exact copy of the row.
    pub fn duplicate(&self) -> (r: ShelfRow)
        ensures
            r == *self,
    {
        ShelfRow {
            id: self.id,
            item_type: self.item_type,
            source_path: self.source_path.clone(),
            display_name: self.display_name.clone(),
            size_bytes: self.size_bytes,
            locked: self.locked,
            sort_order: self.sort_order,
            added_at: self.added_at.clone(),
        }
    }
}

/// The mathematical content of a `ShelfItem`.
pub struct ShelfItemView {
    pub id: i64,
    pub item_type: ShelfItemType,
    pub source_path: Seq<char>,
    pub display_name: Seq<char>,
    pub size_bytes: Option<i64>,
    pub locked: bool,
    pub sort_order: i64,
    pub added_at: Seq<char>,
    pub missing: bool,
    pub modified_at_ms: Option<i64>,
}

impl View for ShelfItem {
    type V = ShelfItemView;

    open spec fn view(&self) -> ShelfItemView {
        ShelfItemView {
            id: self.id,
            item_type: self.item_type,
            source_path: self.source_path@,
            display_name: self.display_name@,
            size_bytes: self.size_bytes,
            locked: self.locked,
            sort_order: self.sort_order,
            added_at: self.added_at@,
            missing: self.missing,
            modified_at_ms: self.modified_at_ms,
        }
    }
}

/// The item shown for a stored row, given what the file system says of its path.
pub open spec fn item_of(row: ShelfRowView, st: PathStatus) -> ShelfItemView {
    ShelfItemView {
        id: row.id,
        item_type: row.item_type,
        source_path: row.source_path,
        display_name: row.display_name,
        size_bytes: row.size_bytes,
        locked: row.locked,
        sort_order: row.sort_order,
        added_at: row.added_at,
        missing: !st.exists,
        modified_at_ms: st.modified_at_ms,
    }
}

fn make_item(row: &ShelfRow, st: PathStatus) -> (r: ShelfItem)
    ensures
        r@ == item_of(row@, st),
{
    ShelfItem {
        id: row.id,
        item_type: row.item_type,
        source_path: row.source_path.clone(),
        display_name: row.display_name.clone(),
        size_bytes: row.size_bytes,
        locked: row.locked,
        sort_order: row.sort_order,
        added_at: row.added_at.clone(),
        missing: !st.exists,
        modified_at_ms: st.modified_at_ms,
    }
}

/// Ids strictly increase along the rows and lie in `1 ..= last_id`.
pub open spec fn rows_well_formed(rows: Seq<ShelfRowView>, last_id: int) -> bool {
    &&& 0 <= last_id
    &&& forall|i: int| 0 <= i < rows.len() ==> 1 <= #[trigger] rows[i].id <= last_id
    &&& forall|i: int, j: int| 0 <= i < j < rows.len() ==> #[trigger] rows[i].id < #[trigger] rows[j].id
}

/// Some row has the id.
pub open spec fn has_id(rows: Seq<ShelfRowView>, id: i64) -> bool {
    exists|i: int| 0 <= i < rows.len() && rows[i].id == id
}

/// The position of the row with the id (meaningful where `has_id`).
pub open spec fn index_of_id(rows: Seq<ShelfRowView>, id: i64) -> int {
    choose|i: int| 0 <= i < rows.len() && rows[i].id == id
}

/// The listing order: newer `added_at` first, and for equal `added_at` the larger id first.
pub open spec fn listed_before(a: ShelfRowView, b: ShelfRowView) -> bool {
    ||| seq_less(b.added_at, a.added_at)
    ||| (a.added_at == b.added_at && a.id > b.id)
}

/// The rows that `clear` keeps: all rows, in order, that are locked.
pub open spec fn locked_rows(rows: Seq<ShelfRowView>) -> Seq<ShelfRowView>
    decreases rows.len(),
{
    if rows.len() == 0 {
        Seq::empty()
    } else if rows.last().locked {
        locked_rows(rows.drop_last()).push(rows.last())
    } else {
        locked_rows(rows.drop_last())
    }
}

/// The source paths of the rows with the given ids, in the order of `ids`; ids that
/// name no row are passed over.
pub open spec fn paths_for(rows: Seq<ShelfRowView>, ids: Seq<i64>) -> Seq<Seq<char>>
    decreases ids.len(),
{
    if ids.len() == 0 {
        Seq::empty()
    } else if has_id(rows, ids.last()) {
        paths_for(rows, ids.drop_last()).push(rows[index_of_id(rows, ids.last())].source_path)
    } else {
        paths_for(rows, ids.drop_last())
    }
}

/// The row stored for a path that is added to the shelf.
pub open spec fn new_row(
    id: i64,
    path: Seq<char>,
    file_name: Option<Seq<char>>,
    st: PathStatus,
    sort_order: i64,
    added_at: Seq<char>,
) -> ShelfRowView {
    let item_type = if st.is_dir {
        ShelfItemType::Folder
    } else {
        ShelfItemType::File
    };
    ShelfRowView {
        id,
        item_type,
        source_path: path,
        display_name: display_name_of(path, file_name),
        size_bytes: if item_type == ShelfItemType::File {
            st.size_bytes
        } else {
            None
        },
        locked: false,
        sort_order,
        added_at,
    }
}

/// The largest stored sort order (meaningful for a non-empty table).
pub open spec fn max_sort_order(rows: Seq<ShelfRowView>) -> int
    decreases rows.len(),
{
    if rows.len() <= 1 {
        rows[0].sort_order as int
    } else {
        let rest = max_sort_order(rows.drop_last());
        if rows.last().sort_order > rest {
            rows.last().sort_order as int
        } else {
            rest
        }
    }
}

/// The sort order the next added row gets: one more than the largest stored, 0 for an
/// empty table.
pub open spec fn next_sort_order(rows: Seq<ShelfRowView>) -> int {
    if rows.len() == 0 {
        0
    } else {
        max_sort_order(rows) + 1
    }
}

/// The text of the `NotFound` error for a shelf item id.
pub open spec fn shelf_not_found_text(id: i64) -> Seq<char> {
    "shelf item id="@ + int_decimal(id as int)
}

/// The rows of the shelf table, in insertion order.
pub struct ShelfTable {
    rows: Vec<ShelfRow>,
    last_id: i64,
}

impl ShelfTable {
    /// The rows, in insertion order.
    pub closed spec fn rows(&self) -> Seq<ShelfRowView> {
        self.rows@.map_values(|r: ShelfRow| r@)
    }

    /// The largest id ever handed out (0 when none was).
    pub closed spec fn last_id(&self) -> int {
        self.last_id as int
    }

    #[verifier::type_invariant]
    closed spec fn inv(&self) -> bool {
        rows_well_formed(self.rows(), self.last_id as int)
    }

    /// The table keeps its rules: ids strictly increase along the rows and lie in
    /// `1 ..= last_id`. Every table that this module hands out keeps them.
    pub open spec fn well_formed(&self) -> bool {
        rows_well_formed(self.rows(), self.last_id())
    }

    /// An empty table.
    pub fn new() -> (t: ShelfTable)
        ensures
            t.rows() == Seq::<ShelfRowView>::empty(),
            t.last_id() == 0,
            t.well_formed(),
    {
        let t = ShelfTable { rows: Vec::new(), last_id: 0 };
        assert(t.rows() =~= Seq::<ShelfRowView>::empty());
        t
    }
}

} // verus!

verus! {

/// The listing order over the rows of a table.
struct ShelfListing<'a> {
    rows: &'a Vec<ShelfRow>,
}

impl<'a> RowOrder for ShelfListing<'a> {
    closed spec fn size(&self) -> nat {
        self.rows@.len()
    }

    closed spec fn valid(&self) -> bool {
        forall|i: int, j: int|
            0 <= i < self.rows@.len() && 0 <= j < self.rows@.len() && i != j
                ==> #[trigger] self.rows@[i].id != #[trigger] self.rows@[j].id
    }

    closed spec fn before(&self, i: int, j: int) -> bool {
        listed_before(self.rows@[i]@, self.rows@[j]@)
    }

    proof fn lemma_irreflexive(&self, i: int) {
        lemma_seq_less_irreflexive(self.rows@[i]@.added_at);
    }

    proof fn lemma_transitive(&self, i: int, j: int, k: int) {
        let a = self.rows@[i]@;
        let b = self.rows@[j]@;
        let c = self.rows@[k]@;
        if seq_less(b.added_at, a.added_at) && seq_less(c.added_at, b.added_at) {
            lemma_seq_less_transitive(c.added_at, b.added_at, a.added_at);
        }
    }

    proof fn lemma_total(&self, i: int, j: int) {
        let a = self.rows@[i]@;
        let b = self.rows@[j]@;
        if a.added_at != b.added_at {
            lemma_seq_less_total(a.added_at, b.added_at);
        } else {
            assert(self.rows@[i].id != self.rows@[j].id);
        }
    }

    fn count(&self) -> (n: usize) {
        self.rows.len()
    }

    fn is_before(&self, i: usize, j: usize) -> (r: bool) {
        let a = &self.rows[i];
        let b = &self.rows[j];
        if str_less(b.added_at.as_str(), a.added_at.as_str()) {
            true
        } else if str_eq(a.added_at.as_str(), b.added_at.as_str()) {
            a.id > b.id
        } else {
            false
        }
    }
}

impl ShelfTable {
    proof fn lemma_rows_index(&self, i: int)
        requires
            0 <= i < self.rows@.len(),
        ensures
            self.rows()[i] == self.rows@[i]@,
            self.rows().len() == self.rows@.len(),
    {
    }

    /// The largest id ever handed out (0 when none was).
    pub fn last_assigned_id(&self) -> (r: i64)
        ensures
            r == self.last_id(),
            self.well_formed(),
    {
        proof {
            use_type_invariant(self);
        }
        self.last_id
    }

    /// The number of rows.
    pub fn len(&self) -> (n: usize)
        ensures
            n == self.rows().len(),
    {
        self.rows.len()
    }

    /// Builds a table from stored rows (in ascending id order) and the largest id ever
    /// handed out; refuses rows that break the table's rules.
    pub fn from_rows(rows: Vec<ShelfRow>, last_id: i64) -> (r: Result<ShelfTable, ShelfError>)
        ensures
            r is Ok <==> rows_well_formed(rows@.map_values(|x: ShelfRow| x@), last_id as int),
            r matches Ok(t) ==> t.rows() == rows@.map_values(|x: ShelfRow| x@) && t.last_id() == last_id,
            r matches Err(e) ==> e is Database,
    {
        let ghost v = rows@.map_values(|x: ShelfRow| x@);
        if last_id < 0 {
            return Err(ShelfError::Database(to_string("shelf table: negative sequence value")));
        }
        let mut i: usize = 0;
        while i < rows.len()
            invariant
                0 <= last_id,
                v == rows@.map_values(|x: ShelfRow| x@),
                i <= rows@.len(),
                forall|k: int| 0 <= k < i ==> 1 <= #[trigger] v[k].id <= last_id,
                forall|k: int, l: int| 0 <= k < l < i ==> #[trigger] v[k].id < #[trigger] v[l].id,
            decreases rows@.len() - i,
        {
            let id = rows[i].id;
            if id < 1 || id > last_id || (i > 0 && rows[i - 1].id >= id) {
                proof {
                    assert(v[i as int].id == id);
                    if i > 0 {
                        assert(v[i - 1].id == rows@[i - 1].id);
                    }
                }
                return Err(ShelfError::Database(to_string("shelf table: malformed row ids")));
            }
            proof {
                assert(v[i as int].id == id);
                assert forall|k: int, l: int| 0 <= k < l < i + 1 implies #[trigger] v[k].id < #[trigger] v[l].id by {
                    if l == i && k < i - 1 {
                        assert(v[k].id < v[i - 1].id);
                    }
                }
            }
            i = i + 1;
        }
        let t = ShelfTable { rows, last_id };
        Ok(t)
    }

    /// A copy of every row, in insertion order (what is written back to storage).
    pub fn stored_rows(&self) -> (r: Vec<ShelfRow>)
        ensures
            r@.map_values(|x: ShelfRow| x@) == self.rows(),
    {
        let mut out: Vec<ShelfRow> = Vec::new();
        let mut i: usize = 0;
        while i < self.rows.len()
            invariant
                i <= self.rows@.len(),
                out@.len() == i,
                forall|k: int| 0 <= k < i ==> #[trigger] out@[k] == self.rows@[k],
            decreases self.rows@.len() - i,
        {
            out.push(self.rows[i].duplicate());
            i = i + 1;
        }
        assert(out@ =~= self.rows@);
        out
    }

    /// The source path of every row, in insertion order (the paths whose status
    /// `list_items` needs).
    pub fn source_paths(&self) -> (r: Vec<String>)
        ensures
            r@.len() == self.rows().len(),
            forall|i: int| 0 <= i < r@.len() ==> #[trigger] r@[i]@ == self.rows()[i].source_path,
    {
        let mut out: Vec<String> = Vec::new();
        let mut i: usize = 0;
        while i < self.rows.len()
            invariant
                i <= self.rows@.len(),
                out@.len() == i,
                forall|k: int| 0 <= k < i ==> #[trigger] out@[k]@ == self.rows@[k].source_path@,
            decreases self.rows@.len() - i,
        {
            out.push(self.rows[i].source_path.clone());
            i = i + 1;
        }
        out
    }

    /// Moves the rows out, leaving the table empty of rows (its `last_id` unchanged).
    fn take_rows(&mut self) -> (r: Vec<ShelfRow>)
        ensures
            r@.map_values(|x: ShelfRow| x@) == old(self).rows(),
            r@ == old(self).rows@,
            final(self).rows@ == Seq::<ShelfRow>::empty(),
            final(self).last_id == old(self).last_id,
    {
        proof {
            use_type_invariant(&*self);
        }
        let mut rows: Vec<ShelfRow> = Vec::new();
        std::mem::swap(&mut rows, &mut self.rows);
        rows
    }

    /// The position of the row with the given id.
    fn position_of(&self, id: i64) -> (r: Option<usize>)
        ensures
            r matches Some(i) ==> i < self.rows().len() && index_of_id(self.rows(), id) == i
                && self.rows()[i as int].id == id,
            r is None ==> !has_id(self.rows(), id),
    {
        proof {
            use_type_invariant(self);
        }
        let mut i: usize = 0;
        while i < self.rows.len()
            invariant
                rows_well_formed(self.rows(), self.last_id as int),
                i <= self.rows@.len(),
                forall|k: int| 0 <= k < i ==> #[trigger] self.rows@[k].id != id,
            decreases self.rows@.len() - i,
        {
            if self.rows[i].id == id {
                proof {
                    self.lemma_rows_index(i as int);
                    let j = index_of_id(self.rows(), id);
                    assert(self.rows()[i as int].id == id);
                    self.lemma_rows_index(j);
                    if j != i as int {
                        if j < i {
                            assert(self.rows()[j].id < self.rows()[i as int].id);
                        } else {
                            assert(self.rows()[i as int].id < self.rows()[j].id);
                        }
                    }
                }
                return Some(i);
            }
            i = i + 1;
        }
        proof {
            assert forall|k: int| 0 <= k < self.rows().len() implies self.rows()[k].id != id by {
                self.lemma_rows_index(k);
            }
        }
        None
    }

    /// The sort order the next added row gets.
    fn compute_next_sort_order(&self) -> (r: i128)
        ensures
            r == next_sort_order(self.rows()),
            i64::MIN as int + 1 <= r <= i64::MAX as int + 1,
    {
        if self.rows.len() == 0 {
            return 0;
        }
        proof {
            self.lemma_rows_index(0);
            assert(self.rows().take(1).len() == 1);
        }
        let mut max: i64 = self.rows[0].sort_order;
        let mut i: usize = 1;
        while i < self.rows.len()
            invariant
                1 <= i <= self.rows@.len(),
                max == max_sort_order(self.rows().take(i as int)),
            decreases self.rows@.len() - i,
        {
            proof {
                self.lemma_rows_index(i as int);
                assert(self.rows().take(i + 1).drop_last() =~= self.rows().take(i as int));
            }
            if self.rows[i].sort_order > max {
                max = self.rows[i].sort_order;
            }
            i = i + 1;
        }
        proof {
            assert(self.rows().take(i as int) =~= self.rows());
        }
        max as i128 + 1
    }

    /// Adds one row per path, with the given final path components, in the order of
    /// `paths`; each new row is unlocked, gets the next id and the next sort order, and
    /// `added_at` as its time. Returns the added items (`missing` and `modified_at_ms`
    /// from `probes`). Fails, changing nothing, where ids or sort orders would overflow.
    pub fn add_paths_named(
        &mut self,
        paths: &Vec<String>,
        names: &Vec<Option<String>>,
        probes: &Vec<PathStatus>,
        added_at: &str,
    ) -> (r: Result<Vec<ShelfItem>, ShelfError>)
        requires
            names@.len() == paths@.len(),
            probes@.len() == paths@.len(),
        ensures
            add_outcome(
                old(self).rows(),
                old(self).last_id(),
                final(self).rows(),
                final(self).last_id(),
                r,
                strings_view(paths@),
                names@.map_values(|o: Option<String>| opt_view(o)),
                probes@,
                added_at@,
            ),
            final(self).well_formed(),
    {
        proof {
            use_type_invariant(&*self);
        }
        let ghost pv = strings_view(paths@);
        let ghost nv = names@.map_values(|o: Option<String>| opt_view(o));
        let ghost old_rows = self.rows();
        let ghost old_last = self.last_id as int;
        let n = paths.len();
        let base_sort = self.compute_next_sort_order();
        let ghost new_rows = added_rows(old_last, base_sort as int, pv, nv, probes@, added_at@);
        if n > 0 {
            if self.last_id as i128 + n as i128 > i64::MAX as i128 {
                return Err(ShelfError::Database(to_string("database or disk is full")));
            }
            if base_sort + n as i128 - 1 > i64::MAX as i128 {
                return Err(ShelfError::Database(to_string("integer overflow")));
            }
        }
        let mut rows = self.take_rows();
        let mut last_id = self.last_id;
        let mut items: Vec<ShelfItem> = Vec::new();
        let mut k: usize = 0;
        while k < n
            invariant
                n == paths@.len(),
                names@.len() == n,
                probes@.len() == n,
                pv == strings_view(paths@),
                nv == names@.map_values(|o: Option<String>| opt_view(o)),
                new_rows == added_rows(old_last, base_sort as int, pv, nv, probes@, added_at@),
                n > 0 ==> old_last + n <= i64::MAX && base_sort + n - 1 <= i64::MAX,
                i64::MIN as int + 1 <= base_sort,
                k <= n,
                last_id == old_last + k,
                rows@.map_values(|x: ShelfRow| x@) == old_rows + new_rows.take(k as int),
                items@.len() == k,
                forall|j: int| 0 <= j < k ==> #[trigger] items@[j]@ == item_of(new_rows[j], probes@[j]),
            decreases n - k,
        {
            let path = &paths[k];
            let st = probes[k];
            let item_type = if st.is_dir { ShelfItemType::Folder } else { ShelfItemType::File };
            let size_bytes = if !st.is_dir { st.size_bytes } else { None };
            let name_opt: Option<String> = match &names[k] {
                Some(nm) => Some(nm.clone()),
                None => None,
            };
            let display = crate::paths::display_name(path.as_str(), name_opt);
            let id: i64 = last_id + 1;
            let sort_order: i64 = (base_sort + k as i128) as i64;
            let row = ShelfRow {
                id,
                item_type,
                source_path: path.clone(),
                display_name: display,
                size_bytes,
                locked: false,
                sort_order,
                added_at: to_string(added_at),
            };
            proof {
                assert(pv[k as int] == paths@[k as int]@);
                assert(nv[k as int] == opt_view(names@[k as int]));
                assert(row@ == new_rows[k as int]);
            }
            items.push(make_item(&row, st));
            let ghost before = rows@;
            last_id = id;
            rows.push(row);
            proof {
                assert(rows@ == before.push(row));
                assert(rows@.map_values(|x: ShelfRow| x@) =~= before.map_values(|x: ShelfRow| x@).push(row@));
                assert(new_rows.take(k + 1) =~= new_rows.take(k as int).push(new_rows[k as int]));
                assert(rows@.map_values(|x: ShelfRow| x@) =~= old_rows + new_rows.take(k + 1));
            }
            k = k + 1;
        }
        proof {
            assert(new_rows.take(n as int) =~= new_rows);
            lemma_append_keeps_well_formed(old_rows, old_last, new_rows, n as int);
        }
        self.last_id = last_id;
        self.rows = rows;
        Ok(items)
    }

    /// Adds one row per path (see `add_paths_named`); the final component of each path
    /// comes from the platform's path API.
    pub fn add_paths(
        &mut self,
        paths: &Vec<String>,
        probes: &Vec<PathStatus>,
        added_at: &str,
    ) -> (r: Result<Vec<ShelfItem>, ShelfError>)
        requires
            probes@.len() == paths@.len(),
        ensures
            exists|names: Seq<Option<Seq<char>>>|
                names.len() == paths@.len()
                && (forall|k: int| 0 <= k < paths@.len() ==> file_name_fits(#[trigger] paths@[k]@, names[k]))
                && #[trigger] add_outcome(
                    old(self).rows(),
                    old(self).last_id(),
                    final(self).rows(),
                    final(self).last_id(),
                    r,
                    strings_view(paths@),
                    names,
                    probes@,
                    added_at@,
                ),
            final(self).well_formed(),
    {
        let mut names: Vec<Option<String>> = Vec::new();
        let mut k: usize = 0;
        while k < paths.len()
            invariant
                k <= paths@.len(),
                names@.len() == k,
                forall|j: int| 0 <= j < k ==> file_name_fits(#[trigger] paths@[j]@, opt_view(names@[j])),
            decreases paths@.len() - k,
        {
            names.push(path_file_name(paths[k].as_str()));
            k = k + 1;
        }
        let r = self.add_paths_named(paths, &names, probes, added_at);
        proof {
            let nv = names@.map_values(|o: Option<String>| opt_view(o));
            assert(nv.len() == paths@.len());
            assert forall|j: int| 0 <= j < paths@.len() implies file_name_fits(#[trigger] paths@[j]@, nv[j]) by {
                assert(nv[j] == opt_view(names@[j]));
            }
        }
        r
    }

    /// Removes the row with the given id, whether locked or not.
    pub fn remove_item(&mut self, id: i64) -> (r: Result<(), ShelfError>)
        ensures
            r is Ok <==> has_id(old(self).rows(), id),
            r is Ok ==> final(self).rows() == old(self).rows().remove(index_of_id(old(self).rows(), id)),
            r matches Err(e) ==> e is NotFound && e.detail() == shelf_not_found_text(id)
                && final(self).rows() == old(self).rows(),
            final(self).last_id() == old(self).last_id(),
            final(self).well_formed(),
    {
        proof {
            use_type_invariant(&*self);
        }
        match self.position_of(id) {
            None => Err(ShelfError::NotFound(shelf_not_found_message(id))),
            Some(i) => {
                let ghost old_rows = self.rows();
                let mut rows = self.take_rows();
                rows.remove(i);
                proof {
                    assert(rows@.map_values(|x: ShelfRow| x@) =~= old_rows.remove(i as int));
                    lemma_remove_keeps_well_formed(old_rows, self.last_id as int, i as int);
                }
                self.rows = rows;
                Ok(())
            },
        }
    }

    /// Sets the lock flag of the row with the given id.
    pub fn set_locked(&mut self, id: i64, locked: bool) -> (r: Result<(), ShelfError>)
        ensures
            r is Ok <==> has_id(old(self).rows(), id),
            r is Ok ==> final(self).rows() == old(self).rows().update(
                index_of_id(old(self).rows(), id),
                ShelfRowView { locked, ..old(self).rows()[index_of_id(old(self).rows(), id)] },
            ),
            r matches Err(e) ==> e is NotFound && e.detail() == shelf_not_found_text(id)
                && final(self).rows() == old(self).rows(),
            final(self).last_id() == old(self).last_id(),
            final(self).well_formed(),
    {
        proof {
            use_type_invariant(&*self);
        }
        match self.position_of(id) {
            None => Err(ShelfError::NotFound(shelf_not_found_message(id))),
            Some(i) => {
                let ghost old_rows = self.rows();
                let mut rows = self.take_rows();
                let mut row = rows[i].duplicate();
                row.locked = locked;
                rows.set(i, row);
                proof {
                    assert(rows@.map_values(|x: ShelfRow| x@) =~= old_rows.update(
                        i as int,
                        ShelfRowView { locked, ..old_rows[i as int] },
                    ));
                    let nr = rows@.map_values(|x: ShelfRow| x@);
                    assert forall|a: int, b: int| 0 <= a < b < nr.len() implies #[trigger] nr[a].id < #[trigger] nr[b].id by {
                        assert(nr[a].id == old_rows[a].id);
                        assert(nr[b].id == old_rows[b].id);
                    }
                    assert forall|a: int| 0 <= a < nr.len() implies 1 <= #[trigger] nr[a].id <= self.last_id by {
                        assert(nr[a].id == old_rows[a].id);
                    }
                }
                self.rows = rows;
                Ok(())
            },
        }
    }

    /// Removes every row, or, with `exclude_locked`, every row that is not locked.
    pub fn clear(&mut self, exclude_locked: bool) -> (r: Result<(), ShelfError>)
        ensures
            r is Ok,
            final(self).rows() == if exclude_locked {
                locked_rows(old(self).rows())
            } else {
                Seq::<ShelfRowView>::empty()
            },
            final(self).last_id() == old(self).last_id(),
            final(self).well_formed(),
    {
        proof {
            use_type_invariant(&*self);
        }
        let ghost old_rows = self.rows();
        let rows = self.take_rows();
        if !exclude_locked {
            assert(self.rows() =~= Seq::<ShelfRowView>::empty());
            return Ok(());
        }
        let mut kept: Vec<ShelfRow> = Vec::new();
        let mut i: usize = 0;
        while i < rows.len()
            invariant
                i <= rows@.len(),
                rows@.map_values(|x: ShelfRow| x@) == old_rows,
                rows_well_formed(old_rows, self.last_id as int),
                kept@.map_values(|x: ShelfRow| x@) == locked_rows(old_rows.take(i as int)),
                forall|a: int| 0 <= a < kept@.len() ==> exists|b: int|
                    0 <= b < i && #[trigger] kept@[a].id == old_rows[b].id,
                forall|a: int, b: int| 0 <= a < b < kept@.len() ==> #[trigger] kept@[a].id < #[trigger] kept@[b].id,
                forall|a: int| 0 <= a < kept@.len() ==> 1 <= #[trigger] kept@[a].id <= self.last_id,
                kept@.len() > 0 ==> exists|b: int| 0 <= b < i && kept@.last().id == old_rows[b].id,
            decreases rows@.len() - i,
        {
            proof {
                assert(old_rows.take(i + 1).drop_last() =~= old_rows.take(i as int));
                assert(old_rows[i as int] == rows@[i as int]@);
            }
            if rows[i].locked {
                let ghost before = kept@;
                proof {
                    if before.len() > 0 {
                        let b = choose|b: int| 0 <= b < i && before.last().id == old_rows[b].id;
                        assert(old_rows[b].id < old_rows[i as int].id);
                    }
                }
                kept.push(rows[i].duplicate());
                proof {
                    assert(kept@.map_values(|x: ShelfRow| x@) =~= before.map_values(|x: ShelfRow| x@).push(rows@[i as int]@));
                    assert forall|a: int, b: int| 0 <= a < b < kept@.len() implies #[trigger] kept@[a].id < #[trigger] kept@[b].id by {
                        if b == kept@.len() - 1 && a < b {
                            if a < before.len() - 1 {
                                assert(before[a].id < before.last().id);
                            }
                        }
                    }
                    assert forall|a: int| 0 <= a < kept@.len() implies exists|b: int|
                        0 <= b < i + 1 && #[trigger] kept@[a].id == old_rows[b].id by {
                        if a < before.len() {
                            let b = choose|b: int| 0 <= b < i && before[a].id == old_rows[b].id;
                        }
                    }
                }
            }
            i = i + 1;
        }
        proof {
            assert(old_rows.take(i as int) =~= old_rows);
            let kv = kept@.map_values(|x: ShelfRow| x@);
            assert forall|a: int, b: int| 0 <= a < b < kv.len() implies #[trigger] kv[a].id < #[trigger] kv[b].id by {
                assert(kv[a].id == kept@[a].id && kv[b].id == kept@[b].id);
            }
            assert forall|a: int| 0 <= a < kv.len() implies 1 <= #[trigger] kv[a].id <= self.last_id by {
                assert(kv[a].id == kept@[a].id);
            }
        }
        self.rows = kept;
        Ok(())
    }

    /// The source paths of the rows with the given ids, in the order of `ids`; ids that
    /// name no row are passed over.
    pub fn get_paths(&self, ids: &Vec<i64>) -> (r: Result<Vec<String>, ShelfError>)
        ensures
            r matches Ok(v) && strings_view(v@) == paths_for(self.rows(), ids@),
    {
        let mut out: Vec<String> = Vec::new();
        let mut k: usize = 0;
        while k < ids.len()
            invariant
                k <= ids@.len(),
                strings_view(out@) == paths_for(self.rows(), ids@.take(k as int)),
            decreases ids@.len() - k,
        {
            let ghost before = out@;
            proof {
                assert(ids@.take(k + 1).drop_last() =~= ids@.take(k as int));
                assert(ids@.take(k + 1).last() == ids@[k as int]);
            }
            match self.position_of(ids[k]) {
                Some(i) => {
                    out.push(self.rows[i].source_path.clone());
                    proof {
                        self.lemma_rows_index(i as int);
                        assert(strings_view(out@) =~= before.map_values(|p: String| p@).push(
                            self.rows@[i as int].source_path@,
                        ));
                    }
                },
                None => {},
            }
            k = k + 1;
        }
        proof {
            assert(ids@.take(k as int) =~= ids@);
        }
        Ok(out)
    }

    /// Lists the shelf: every row once, as an item whose `missing` and `modified_at_ms`
    /// come from `status` (one entry per row, in insertion order), newest `added_at`
    /// first and, for equal `added_at`, larger id first.
    pub fn list_items(&self, status: &Vec<PathStatus>) -> (r: Vec<ShelfItem>)
        requires
            status@.len() == self.rows().len(),
        ensures
            is_listing(r@.map_values(|x: ShelfItem| x@), self.rows(), status@),
    {
        proof {
            use_type_invariant(self);
            lemma_ids_distinct(self.rows@, self.last_id as int);
        }
        let order = ShelfListing { rows: &self.rows };
        let perm = sorted_positions(&order);
        let mut out: Vec<ShelfItem> = Vec::new();
        let mut k: usize = 0;
        while k < perm.len()
            invariant
                is_permutation(perm@, self.rows@.len() as nat),
                status@.len() == self.rows@.len(),
                k <= perm@.len(),
                out@.len() == k,
                forall|a: int| 0 <= a < k ==> #[trigger] out@[a]@ == item_of(
                    self.rows@[perm@[a] as int]@,
                    status@[perm@[a] as int],
                ),
            decreases perm@.len() - k,
        {
            let p = perm[k];
            out.push(make_item(&self.rows[p], status[p]));
            k = k + 1;
        }
        proof {
            assert forall|a: int, b: int| 0 <= a < b < perm@.len() implies listed_before(
                #[trigger] self.rows@[perm@[a] as int]@,
                #[trigger] self.rows@[perm@[b] as int]@,
            ) by {
                assert(order.before(perm@[a] as int, perm@[b] as int));
            }
            lemma_listing(self.rows@, status@, perm@, out@.map_values(|x: ShelfItem| x@));
        }
        out
    }
}

/// The view of an optional string.
pub open spec fn opt_view(o: Option<String>) -> Option<Seq<char>> {
    match o {
        Some(s) => Some(s@),
        None => None,
    }
}

/// The rows appended by adding `paths` (with their final components `names` and file
/// system statuses `probes`) to a table whose largest id is `base_id` and whose next
/// sort order is `base_sort`.
pub open spec fn added_rows(
    base_id: int,
    base_sort: int,
    paths: Seq<Seq<char>>,
    names: Seq<Option<Seq<char>>>,
    probes: Seq<PathStatus>,
    added_at: Seq<char>,
) -> Seq<ShelfRowView> {
    Seq::new(
        paths.len(),
        |k: int| new_row((base_id + 1 + k) as i64, paths[k], names[k], probes[k], (base_sort + k) as i64, added_at),
    )
}

/// Adding `n` rows fails when the ids or the sort orders would pass `i64::MAX`.
pub open spec fn add_overflows(base_id: int, base_sort: int, n: int) -> bool {
    n > 0 && (base_id + n > i64::MAX || base_sort + n - 1 > i64::MAX)
}

/// What adding paths does to a table `(rows, last_id)`, giving `(rows2, last_id2)` and the
/// result `r`.
pub open spec fn add_outcome(
    rows: Seq<ShelfRowView>,
    last_id: int,
    rows2: Seq<ShelfRowView>,
    last_id2: int,
    r: Result<Vec<ShelfItem>, ShelfError>,
    paths: Seq<Seq<char>>,
    names: Seq<Option<Seq<char>>>,
    probes: Seq<PathStatus>,
    added_at: Seq<char>,
) -> bool {
    let n = paths.len() as int;
    let base_sort = next_sort_order(rows);
    let new_rows = added_rows(last_id, base_sort, paths, names, probes, added_at);
    &&& (r is Err <==> add_overflows(last_id, base_sort, n))
    &&& r matches Err(e) ==> e is Database && rows2 == rows && last_id2 == last_id
    &&& r matches Ok(items) ==> {
        &&& rows2 == rows + new_rows
        &&& last_id2 == last_id + n
        &&& items@.len() == n
        &&& forall|k: int| 0 <= k < n ==> #[trigger] items@[k]@ == item_of(new_rows[k], probes[k])
    }
}

proof fn lemma_append_keeps_well_formed(
    rows: Seq<ShelfRowView>,
    last_id: int,
    new_rows: Seq<ShelfRowView>,
    n: int,
)
    requires
        rows_well_formed(rows, last_id),
        new_rows.len() == n,
        n > 0 ==> last_id + n <= i64::MAX,
        forall|k: int| 0 <= k < n ==> #[trigger] new_rows[k].id == last_id + 1 + k,
    ensures
        rows_well_formed(rows + new_rows, last_id + n),
{
    let all = rows + new_rows;
    assert forall|i: int, j: int| 0 <= i < j < all.len() implies #[trigger] all[i].id < #[trigger] all[j].id by {
        if j >= rows.len() {
            assert(all[j].id == last_id + 1 + (j - rows.len()));
            if i < rows.len() {
                assert(all[i].id <= last_id);
            } else {
                assert(all[i].id == last_id + 1 + (i - rows.len()));
            }
        }
    }
    assert forall|i: int| 0 <= i < all.len() implies 1 <= #[trigger] all[i].id <= last_id + n by {
        if i >= rows.len() {
            assert(all[i].id == last_id + 1 + (i - rows.len()));
        }
    }
}

proof fn lemma_remove_keeps_well_formed(rows: Seq<ShelfRowView>, last_id: int, i: int)
    requires
        rows_well_formed(rows, last_id),
        0 <= i < rows.len(),
    ensures
        rows_well_formed(rows.remove(i), last_id),
{
    let r = rows.remove(i);
    assert forall|a: int, b: int| 0 <= a < b < r.len() implies #[trigger] r[a].id < #[trigger] r[b].id by {
        let a0 = if a < i { a } else { a + 1 };
        let b0 = if b < i { b } else { b + 1 };
        assert(r[a] == rows[a0] && r[b] == rows[b0]);
    }
    assert forall|a: int| 0 <= a < r.len() implies 1 <= #[trigger] r[a].id <= last_id by {
        let a0 = if a < i { a } else { a + 1 };
        assert(r[a] == rows[a0]);
    }
}

/// The text of the `NotFound` error for a shelf item id.
fn shelf_not_found_message(id: i64) -> (r: String)
    ensures
        r@ == shelf_not_found_text(id),
{
    let mut s = to_string("shelf item id=");
    append_i64(&mut s, id);
    s
}

proof fn lemma_ids_distinct(rows: Seq<ShelfRow>, last_id: int)
    requires
        rows_well_formed(rows.map_values(|x: ShelfRow| x@), last_id),
    ensures
        forall|i: int, j: int|
            0 <= i < rows.len() && 0 <= j < rows.len() && i != j
                ==> #[trigger] rows[i].id != #[trigger] rows[j].id,
{
    let v = rows.map_values(|x: ShelfRow| x@);
    assert forall|i: int, j: int|
        0 <= i < rows.len() && 0 <= j < rows.len() && i != j
            implies #[trigger] rows[i].id != #[trigger] rows[j].id by {
        assert(v[i].id == rows[i].id);
        assert(v[j].id == rows[j].id);
        if i < j {
            assert(v[i].id < v[j].id);
        } else {
            assert(v[j].id < v[i].id);
        }
    }
}

proof fn lemma_listing(
    rows: Seq<ShelfRow>,
    status: Seq<PathStatus>,
    perm: Seq<usize>,
    out: Seq<ShelfItemView>,
)
    requires
        is_permutation(perm, rows.len()),
        status.len() == rows.len(),
        forall|a: int, b: int| 0 <= a < b < perm.len() ==> listed_before(
            #[trigger] rows[perm[a] as int]@,
            #[trigger] rows[perm[b] as int]@,
        ),
        out.len() == perm.len(),
        forall|a: int| 0 <= a < out.len() ==> #[trigger] out[a] == item_of(
            rows[perm[a] as int]@,
            status[perm[a] as int],
        ),
    ensures
        is_listing(out, rows.map_values(|x: ShelfRow| x@), status),
{
    let v = rows.map_values(|x: ShelfRow| x@);
    lemma_listing_each_from_row(rows, status, perm, out, v);
    lemma_listing_each_row_listed(rows, status, perm, out, v);
    lemma_listing_sorted(rows, status, perm, out);
}

proof fn lemma_listing_sorted(
    rows: Seq<ShelfRow>,
    status: Seq<PathStatus>,
    perm: Seq<usize>,
    out: Seq<ShelfItemView>,
)
    requires
        forall|a: int, b: int| 0 <= a < b < perm.len() ==> listed_before(
            #[trigger] rows[perm[a] as int]@,
            #[trigger] rows[perm[b] as int]@,
        ),
        out.len() == perm.len(),
        forall|a: int| 0 <= a < out.len() ==> #[trigger] out[a] == item_of(
            rows[perm[a] as int]@,
            status[perm[a] as int],
        ),
    ensures
        forall|a: int, b: int| 0 <= a < b < out.len() ==> listed_before_item(#[trigger] out[a], #[trigger] out[b]),
{
    assert forall|a: int, b: int| 0 <= a < b < out.len() implies listed_before_item(
        #[trigger] out[a],
        #[trigger] out[b],
    ) by {
        assert(out[a] == item_of(rows[perm[a] as int]@, status[perm[a] as int]));
        assert(out[b] == item_of(rows[perm[b] as int]@, status[perm[b] as int]));
        assert(listed_before(rows[perm[a] as int]@, rows[perm[b] as int]@));
    }
}

proof fn lemma_listing_each_from_row(
    rows: Seq<ShelfRow>,
    status: Seq<PathStatus>,
    perm: Seq<usize>,
    out: Seq<ShelfItemView>,
    v: Seq<ShelfRowView>,
)
    requires
        v == rows.map_values(|x: ShelfRow| x@),
        is_permutation(perm, rows.len()),
        out.len() == perm.len(),
        forall|a: int| 0 <= a < out.len() ==> #[trigger] out[a] == item_of(
            rows[perm[a] as int]@,
            status[perm[a] as int],
        ),
    ensures
        forall|k: int| 0 <= k < out.len() ==> #[trigger] item_from_some_row(out, v, status, k),
{
    assert forall|k: int| 0 <= k < out.len() implies #[trigger] item_from_some_row(out, v, status, k) by {
        let i = perm[k] as int;
        assert(perm[k] < rows.len());
        assert(v[i] == rows[i]@);
        assert(out[k] == item_of(rows[perm[k] as int]@, status[perm[k] as int]));
        assert(out[k] == item_of(v[i], status[i]));
    }
}

proof fn lemma_listing_each_row_listed(
    rows: Seq<ShelfRow>,
    status: Seq<PathStatus>,
    perm: Seq<usize>,
    out: Seq<ShelfItemView>,
    v: Seq<ShelfRowView>,
)
    requires
        v == rows.map_values(|x: ShelfRow| x@),
        is_permutation(perm, rows.len()),
        out.len() == perm.len(),
        forall|a: int| 0 <= a < out.len() ==> #[trigger] out[a] == item_of(
            rows[perm[a] as int]@,
            status[perm[a] as int],
        ),
    ensures
        forall|i: int| 0 <= i < rows.len() ==> #[trigger] row_is_listed(out, v, status, i),
{
    assert forall|i: int| 0 <= i < rows.len() implies #[trigger] row_is_listed(out, v, status, i) by {
        assert(occurs(perm, i));
        let k = choose|k: int| 0 <= k < perm.len() && perm[k] == i;
        assert(out[k] == item_of(rows[i]@, status[i]));
    }
}

/// The `k`-th listed item is the item of some row.
pub open spec fn item_from_some_row(r: Seq<ShelfItemView>, rows: Seq<ShelfRowView>, status: Seq<PathStatus>, k: int) -> bool {
    exists|i: int| 0 <= i < rows.len() && r[k] == item_of(rows[i], status[i])
}

/// Row `i` is listed somewhere.
pub open spec fn row_is_listed(r: Seq<ShelfItemView>, rows: Seq<ShelfRowView>, status: Seq<PathStatus>, i: int) -> bool {
    exists|k: int| 0 <= k < r.len() && r[k] == item_of(rows[i], status[i])
}

/// `r` lists every row of `rows` exactly once, as its item under `status`, in the
/// listing order.
pub open spec fn is_listing(r: Seq<ShelfItemView>, rows: Seq<ShelfRowView>, status: Seq<PathStatus>) -> bool {
    &&& r.len() == rows.len()
    &&& forall|k: int| 0 <= k < r.len() ==> #[trigger] item_from_some_row(r, rows, status, k)
    &&& forall|i: int| 0 <= i < rows.len() ==> #[trigger] row_is_listed(r, rows, status, i)
    &&& forall|a: int, b: int| 0 <= a < b < r.len() ==> listed_before_item(#[trigger] r[a], #[trigger] r[b])
}

/// `listed_before` read on listed items.
pub open spec fn listed_before_item(a: ShelfItemView, b: ShelfItemView) -> bool {
    ||| seq_less(b.added_at, a.added_at)
    ||| (a.added_at == b.added_at && a.id > b.id)
}

} // verus!

verus! {

/// Adding paths (where it succeeds) keeps every row there was, in place, and appends
/// one row per path, in the order given, even for a path that is already on the shelf.
pub proof fn lemma_add_appends(
    rows: Seq<ShelfRowView>,
    last_id: int,
    rows2: Seq<ShelfRowView>,
    last_id2: int,
    r: Result<Vec<ShelfItem>, ShelfError>,
    paths: Seq<Seq<char>>,
    names: Seq<Option<Seq<char>>>,
    probes: Seq<PathStatus>,
    added_at: Seq<char>,
)
    requires
        rows_well_formed(rows, last_id),
        add_outcome(rows, last_id, rows2, last_id2, r, paths, names, probes, added_at),
        r is Ok,
    ensures
        rows2.len() == rows.len() + paths.len(),
        forall|i: int| 0 <= i < rows.len() ==> #[trigger] rows2[i] == rows[i],
        forall|k: int|
            0 <= k < paths.len() ==> (#[trigger] rows2[rows.len() + k]).source_path == paths[k]
                && !rows2[rows.len() + k].locked && rows2[rows.len() + k].id == last_id + 1 + k,
{
    let new_rows = added_rows(last_id, next_sort_order(rows), paths, names, probes, added_at);
    assert forall|k: int| 0 <= k < paths.len() implies (#[trigger] rows2[rows.len() + k]).source_path == paths[k]
        && !rows2[rows.len() + k].locked && rows2[rows.len() + k].id == last_id + 1 + k by {
        assert(!add_overflows(last_id, next_sort_order(rows), paths.len() as int));
        assert(last_id + 1 + k <= i64::MAX);
        assert(rows2 == rows + new_rows);
        assert(rows2[rows.len() + k] == new_rows[k]);
        assert(new_rows[k] == new_row((last_id + 1 + k) as i64, paths[k], names[k], probes[k], (next_sort_order(rows) + k) as i64, added_at));
    }
}

/// Each added item is named after its path's final component: for a path that has one
/// on every platform, the display name is a final part of the path that ends with the
/// path's tail segment (the text after its last `/`, `\` or `:`), so it is never the
/// path's text with that segment left out; for a plain path it is exactly the last
/// segment.
pub proof fn lemma_added_display_names(
    rows: Seq<ShelfRowView>,
    last_id: int,
    rows2: Seq<ShelfRowView>,
    last_id2: int,
    r: Result<Vec<ShelfItem>, ShelfError>,
    paths: Seq<Seq<char>>,
    names: Seq<Option<Seq<char>>>,
    probes: Seq<PathStatus>,
    added_at: Seq<char>,
    k: int,
)
    requires
        add_outcome(rows, last_id, rows2, last_id2, r, paths, names, probes, added_at),
        names.len() == paths.len(),
        forall|j: int| 0 <= j < paths.len() ==> file_name_fits(#[trigger] paths[j], names[j]),
        r is Ok,
        0 <= k < paths.len(),
    ensures
        named_path(paths[k]) ==> ends_with(paths[k], rows2[rows.len() + k].display_name)
            && ends_with(rows2[rows.len() + k].display_name, tail_segment(paths[k])),
        plain_path(paths[k]) ==> rows2[rows.len() + k].display_name == last_segment(paths[k]),
{
    let new_rows = added_rows(last_id, next_sort_order(rows), paths, names, probes, added_at);
    assert(rows2 == rows + new_rows);
    assert(rows2[rows.len() + k] == new_rows[k]);
    assert(file_name_fits(paths[k], names[k]));
}

/// Removing an item removes exactly that item: no row keeps its id, and every other row
/// stays.
pub proof fn lemma_remove_only_target(rows: Seq<ShelfRowView>, last_id: int, id: i64)
    requires
        rows_well_formed(rows, last_id),
        has_id(rows, id),
    ensures
        !has_id(rows.remove(index_of_id(rows, id)), id),
        rows.remove(index_of_id(rows, id)).len() == rows.len() - 1,
        forall|i: int| 0 <= i < rows.len() && rows[i].id != id ==> rows.remove(index_of_id(rows, id)).contains(#[trigger] rows[i]),
{
    let p = index_of_id(rows, id);
    let rest = rows.remove(p);
    assert forall|j: int| 0 <= j < rest.len() implies rest[j].id != id by {
        let j0 = if j < p { j } else { j + 1 };
        assert(rest[j] == rows[j0]);
        if j0 < p {
            assert(rows[j0].id < rows[p].id);
        } else {
            assert(rows[p].id < rows[j0].id);
        }
    }
    assert forall|i: int| 0 <= i < rows.len() && rows[i].id != id implies rest.contains(#[trigger] rows[i]) by {
        if i < p {
            assert(rest[i] == rows[i]);
        } else {
            assert(i != p);
            assert(rest[i - 1] == rows[i]);
        }
    }
}

/// The rows after setting the lock flag of the row with the id (as `set_locked` does).
pub open spec fn with_lock(rows: Seq<ShelfRowView>, id: i64, locked: bool) -> Seq<ShelfRowView> {
    rows.update(index_of_id(rows, id), ShelfRowView { locked, ..rows[index_of_id(rows, id)] })
}

/// In a well-formed table the row found for an id is the one row that has it.
pub proof fn lemma_index_of_id_is_the_row(rows: Seq<ShelfRowView>, last_id: int, id: i64, i: int)
    requires
        rows_well_formed(rows, last_id),
        0 <= i < rows.len(),
        rows[i].id == id,
    ensures
        has_id(rows, id),
        index_of_id(rows, id) == i,
{
    let j = index_of_id(rows, id);
    if j != i {
        if j < i {
            assert(rows[j].id < rows[i].id);
        } else {
            assert(rows[i].id < rows[j].id);
        }
    }
}

/// Setting an item's lock flag twice is setting it once to the second value: locking an
/// item and then unlocking it leaves it unlocked and every other field and row as it
/// was; setting the flag it already has changes nothing.
pub proof fn lemma_set_locked_twice(rows: Seq<ShelfRowView>, last_id: int, id: i64, first: bool, second: bool)
    requires
        rows_well_formed(rows, last_id),
        has_id(rows, id),
    ensures
        has_id(with_lock(rows, id, first), id),
        rows_well_formed(with_lock(rows, id, first), last_id),
        with_lock(with_lock(rows, id, first), id, second) == with_lock(rows, id, second),
        with_lock(rows, id, rows[index_of_id(rows, id)].locked) == rows,
        with_lock(rows, id, second)[index_of_id(rows, id)].locked == second,
{
    let i = index_of_id(rows, id);
    let once = with_lock(rows, id, first);
    assert(once[i].id == id);
    assert(rows_well_formed(once, last_id)) by {
        assert forall|a: int, b: int| 0 <= a < b < once.len() implies #[trigger] once[a].id < #[trigger] once[b].id by {
            assert(once[a].id == rows[a].id && once[b].id == rows[b].id);
        }
        assert forall|a: int| 0 <= a < once.len() implies 1 <= #[trigger] once[a].id <= last_id by {
            assert(once[a].id == rows[a].id);
        }
    }
    lemma_index_of_id_is_the_row(once, last_id, id, i);
    assert(with_lock(once, id, second) =~= with_lock(rows, id, second));
    assert(with_lock(rows, id, rows[i].locked) =~= rows);
}

proof fn lemma_locked_rows_locked(rows: Seq<ShelfRowView>, a: int)
    requires
        0 <= a < locked_rows(rows).len(),
    ensures
        locked_rows(rows)[a].locked,
        rows.contains(locked_rows(rows)[a]),
    decreases rows.len(),
{
    let sub = locked_rows(rows.drop_last());
    if rows.last().locked && a == sub.len() {
        assert(rows[rows.len() - 1] == rows.last());
    } else {
        lemma_locked_rows_locked(rows.drop_last(), a);
        let j = choose|j: int| 0 <= j < rows.drop_last().len() && rows.drop_last()[j] == sub[a];
        assert(rows[j] == sub[a]);
    }
}

proof fn lemma_locked_rows_keeps(rows: Seq<ShelfRowView>, i: int)
    requires
        0 <= i < rows.len(),
        rows[i].locked,
    ensures
        locked_rows(rows).contains(rows[i]),
    decreases rows.len(),
{
    if i == rows.len() - 1 {
        assert(locked_rows(rows)[locked_rows(rows).len() - 1] == rows[i]);
    } else {
        assert(rows.drop_last()[i] == rows[i]);
        lemma_locked_rows_keeps(rows.drop_last(), i);
        let sub = locked_rows(rows.drop_last());
        let j = choose|j: int| 0 <= j < sub.len() && sub[j] == rows[i];
        if rows.last().locked {
            assert(locked_rows(rows)[j] == rows[i]);
        }
    }
}

/// Clearing with `exclude_locked` keeps exactly the locked items.
pub proof fn lemma_clear_keeps_locked(rows: Seq<ShelfRowView>)
    ensures
        forall|a: int| 0 <= a < locked_rows(rows).len() ==> (#[trigger] locked_rows(rows)[a]).locked
            && rows.contains(locked_rows(rows)[a]),
        forall|i: int| 0 <= i < rows.len() && (#[trigger] rows[i]).locked ==> locked_rows(rows).contains(rows[i]),
{
    assert forall|a: int| 0 <= a < locked_rows(rows).len() implies (#[trigger] locked_rows(rows)[a]).locked
        && rows.contains(locked_rows(rows)[a]) by {
        lemma_locked_rows_locked(rows, a);
    }
    assert forall|i: int| 0 <= i < rows.len() && (#[trigger] rows[i]).locked implies locked_rows(rows).contains(rows[i]) by {
        lemma_locked_rows_keeps(rows, i);
    }
}

} // verus!
