//! The favourite-folder table: folders pinned above the shelf.
//!
//! Rows are kept in insertion order (ascending id); ids are handed out like SQLite's
//! `AUTOINCREMENT`; a folder path is registered at most once.

use vstd::prelude::*;
use crate::error::ShelfError;
use crate::models::FavoriteFolder;
use crate::paths::{path_file_name, display_name_of, file_name_fits};
use crate::shelf::{PathStatus, opt_view};
use crate::sort::{RowOrder, sorted_positions, is_permutation, is_sorted_by, occurs};
use crate::text::{append_i64, int_decimal, str_eq, to_string};
use vstd::string::*;

verus! {

/// One stored row of the favourite-folder table.
#[derive(Debug)]
pub struct FavoriteRow {
    pub id: i64,
    pub folder_path: String,
    pub display_name: String,
    pub sort_order: i64,
    pub added_at: String,
}

/// The mathematical content of a `FavoriteRow`.
pub struct FavoriteRowView {
    pub id: i64,
    pub folder_path: Seq<char>,
    pub display_name: Seq<char>,
    pub sort_order: i64,
    pub added_at: Seq<char>,
}

impl View for FavoriteRow {
    type V = FavoriteRowView;

    open spec fn view(&self) -> FavoriteRowView {
        FavoriteRowView {
            id: self.id,
            folder_path: self.folder_path@,
            display_name: self.display_name@,
            sort_order: self.sort_order,
            added_at: self.added_at@,
        }
    }
}

impl FavoriteRow {
    /// An exact copy of the row.
    pub fn duplicate(&self) -> (r: FavoriteRow)
        ensures
            r == *self,
    {
        FavoriteRow {
            id: self.id,
            folder_path: self.folder_path.clone(),
            display_name: self.display_name.clone(),
            sort_order: self.sort_order,
            added_at: self.added_at.clone(),
        }
    }
}

/// The mathematical content of a `FavoriteFolder`.
pub struct FavoriteFolderView {
    pub id: i64,
    pub folder_path: Seq<char>,
    pub display_name: Seq<char>,
    pub sort_order: i64,
    pub added_at: Seq<char>,
    pub missing: bool,
}

impl View for FavoriteFolder {
    type V = FavoriteFolderView;

    open spec fn view(&self) -> FavoriteFolderView {
        FavoriteFolderView {
            id: self.id,
            folder_path: self.folder_path@,
            display_name: self.display_name@,
            sort_order: self.sort_order,
            added_at: self.added_at@,
            missing: self.missing,
        }
    }
}

/// The folder shown for a stored row: `missing` where the path is no directory now.
pub open spec fn folder_of(row: FavoriteRowView, st: PathStatus) -> FavoriteFolderView {
    FavoriteFolderView {
        id: row.id,
        folder_path: row.folder_path,
        display_name: row.display_name,
        sort_order: row.sort_order,
        added_at: row.added_at,
        missing: !st.is_dir,
    }
}

fn make_folder(row: &FavoriteRow, st: PathStatus) -> (r: FavoriteFolder)
    ensures
        r@ == folder_of(row@, st),
{
    FavoriteFolder {
        id: row.id,
        folder_path: row.folder_path.clone(),
        display_name: row.display_name.clone(),
        sort_order: row.sort_order,
        added_at: row.added_at.clone(),
        missing: !st.is_dir,
    }
}

/// Ids strictly increase and lie in `1 ..= last_id`; no folder path occurs twice.
pub open spec fn favorites_well_formed(rows: Seq<FavoriteRowView>, last_id: int) -> bool {
    &&& 0 <= last_id
    &&& forall|i: int| 0 <= i < rows.len() ==> 1 <= #[trigger] rows[i].id <= last_id
    &&& forall|i: int, j: int| 0 <= i < j < rows.len() ==> #[trigger] rows[i].id < #[trigger] rows[j].id
    &&& forall|i: int, j: int|
        0 <= i < j < rows.len() ==> #[trigger] rows[i].folder_path != #[trigger] rows[j].folder_path
}

pub open spec fn favorite_has_id(rows: Seq<FavoriteRowView>, id: i64) -> bool {
    exists|i: int| 0 <= i < rows.len() && rows[i].id == id
}

pub open spec fn favorite_index_of_id(rows: Seq<FavoriteRowView>, id: i64) -> int {
    choose|i: int| 0 <= i < rows.len() && rows[i].id == id
}

/// Some row holds the folder path.
pub open spec fn has_folder_path(rows: Seq<FavoriteRowView>, path: Seq<char>) -> bool {
    exists|i: int| 0 <= i < rows.len() && rows[i].folder_path == path
}

/// The listing order: smaller sort order first, then smaller id.
pub open spec fn favorite_before(a: FavoriteRowView, b: FavoriteRowView) -> bool {
    a.sort_order < b.sort_order || (a.sort_order == b.sort_order && a.id < b.id)
}

pub open spec fn max_favorite_sort_order(rows: Seq<FavoriteRowView>) -> int
    decreases rows.len(),
{
    if rows.len() <= 1 {
        rows[0].sort_order as int
    } else {
        let rest = max_favorite_sort_order(rows.drop_last());
        if rows.last().sort_order > rest {
            rows.last().sort_order as int
        } else {
            rest
        }
    }
}

/// The sort order the next registered folder gets.
pub open spec fn next_favorite_sort_order(rows: Seq<FavoriteRowView>) -> int {
    if rows.len() == 0 {
        0
    } else {
        max_favorite_sort_order(rows) + 1
    }
}

pub open spec fn favorite_not_found_text(id: i64) -> Seq<char> {
    "favorite folder id="@ + int_decimal(id as int)
}

/// The detail text of the error for a path that is no folder.
pub open spec fn not_a_folder_text() -> Seq<char> {
    "指定されたパスはフォルダではありません"@
}

/// The detail text of the error for a folder registered twice.
pub open spec fn already_registered_text() -> Seq<char> {
    "このフォルダは既に登録されています"@
}

/// What registering `path` (final component `name`, status `st`) does to the table
/// `(rows, last_id)`, giving `(rows2, last_id2)` and `r`.
pub open spec fn favorite_add_outcome(
    rows: Seq<FavoriteRowView>,
    last_id: int,
    rows2: Seq<FavoriteRowView>,
    last_id2: int,
    r: Result<FavoriteFolder, ShelfError>,
    path: Seq<char>,
    name: Option<Seq<char>>,
    st: PathStatus,
    added_at: Seq<char>,
) -> bool {
    let sort = next_favorite_sort_order(rows);
    let row = FavoriteRowView {
        id: (last_id + 1) as i64,
        folder_path: path,
        display_name: display_name_of(path, name),
        sort_order: sort as i64,
        added_at,
    };
    &&& !st.is_dir ==> (r matches Err(e) && e is Internal && e.detail() == not_a_folder_text())
    &&& st.is_dir && sort > i64::MAX ==> (r matches Err(e) && e is Database)
    &&& st.is_dir && sort <= i64::MAX && has_folder_path(rows, path) ==> (r matches Err(e) && e is Conflict
        && e.detail() == already_registered_text())
    &&& st.is_dir && sort <= i64::MAX && !has_folder_path(rows, path) && last_id == i64::MAX ==> (r matches Err(e)
        && e is Database)
    &&& st.is_dir && sort <= i64::MAX && !has_folder_path(rows, path) && last_id < i64::MAX ==> (r matches Ok(f)
        && f@ == folder_of(row, st))
    &&& r is Err ==> rows2 == rows && last_id2 == last_id
    &&& r is Ok ==> rows2 == rows.push(row) && last_id2 == last_id + 1
}

/// The favourite-folder table.
pub struct FavoriteTable {
    rows: Vec<FavoriteRow>,
    last_id: i64,
}

struct FavoriteListing<'a> {
    rows: &'a Vec<FavoriteRow>,
}

impl<'a> RowOrder for FavoriteListing<'a> {
    closed spec fn size(&self) -> nat {
        self.rows@.len()
    }

    closed spec fn valid(&self) -> bool {
        forall|i: int, j: int|
            0 <= i < self.rows@.len() && 0 <= j < self.rows@.len() && i != j
                ==> #[trigger] self.rows@[i].id != #[trigger] self.rows@[j].id
    }

    closed spec fn before(&self, i: int, j: int) -> bool {
        favorite_before(self.rows@[i]@, self.rows@[j]@)
    }

    proof fn lemma_irreflexive(&self, i: int) {
    }

    proof fn lemma_transitive(&self, i: int, j: int, k: int) {
    }

    proof fn lemma_total(&self, i: int, j: int) {
        assert(self.rows@[i].id != self.rows@[j].id);
    }

    fn count(&self) -> (n: usize) {
        self.rows.len()
    }

    fn is_before(&self, i: usize, j: usize) -> (r: bool) {
        let a = &self.rows[i];
        let b = &self.rows[j];
        a.sort_order < b.sort_order || (a.sort_order == b.sort_order && a.id < b.id)
    }
}

/// The `k`-th listed folder is the folder of some row.
pub open spec fn folder_from_some_row(
    r: Seq<FavoriteFolderView>,
    rows: Seq<FavoriteRowView>,
    status: Seq<PathStatus>,
    k: int,
) -> bool {
    exists|i: int| 0 <= i < rows.len() && r[k] == folder_of(rows[i], status[i])
}

/// Row `i` is listed somewhere.
pub open spec fn folder_row_is_listed(
    r: Seq<FavoriteFolderView>,
    rows: Seq<FavoriteRowView>,
    status: Seq<PathStatus>,
    i: int,
) -> bool {
    exists|k: int| 0 <= k < r.len() && r[k] == folder_of(rows[i], status[i])
}

/// `favorite_before` read on listed folders.
pub open spec fn folder_listed_before(a: FavoriteFolderView, b: FavoriteFolderView) -> bool {
    a.sort_order < b.sort_order || (a.sort_order == b.sort_order && a.id < b.id)
}

/// `r` lists every row once, as its folder under `status`, in the listing order.
pub open spec fn is_folder_listing(
    r: Seq<FavoriteFolderView>,
    rows: Seq<FavoriteRowView>,
    status: Seq<PathStatus>,
) -> bool {
    &&& r.len() == rows.len()
    &&& forall|k: int| 0 <= k < r.len() ==> #[trigger] folder_from_some_row(r, rows, status, k)
    &&& forall|i: int| 0 <= i < rows.len() ==> #[trigger] folder_row_is_listed(r, rows, status, i)
    &&& forall|a: int, b: int| 0 <= a < b < r.len() ==> folder_listed_before(#[trigger] r[a], #[trigger] r[b])
}

impl FavoriteTable {
    pub closed spec fn rows(&self) -> Seq<FavoriteRowView> {
        self.rows@.map_values(|r: FavoriteRow| r@)
    }

    pub closed spec fn last_id(&self) -> int {
        self.last_id as int
    }

    #[verifier::type_invariant]
    closed spec fn inv(&self) -> bool {
        favorites_well_formed(self.rows(), self.last_id as int)
    }

    proof fn lemma_rows_index(&self, i: int)
        requires
            0 <= i < self.rows@.len(),
        ensures
            self.rows()[i] == self.rows@[i]@,
            self.rows().len() == self.rows@.len(),
    {
    }

    /// The table keeps its rules: ids strictly increase and lie in `1 ..= last_id`, and
    /// no folder path occurs twice. Every table that this module hands out keeps them.
    pub open spec fn well_formed(&self) -> bool {
        favorites_well_formed(self.rows(), self.last_id()) && self.last_id() <= i64::MAX
    }

    /// An empty table.
    pub fn new() -> (t: FavoriteTable)
        ensures
            t.rows() == Seq::<FavoriteRowView>::empty(),
            t.last_id() == 0,
            t.well_formed(),
    {
        let t = FavoriteTable { rows: Vec::new(), last_id: 0 };
        assert(t.rows() =~= Seq::<FavoriteRowView>::empty());
        t
    }

    pub fn last_assigned_id(&self) -> (r: i64)
        ensures
            r == self.last_id(),
            self.well_formed(),
    {
        proof {
            use_type_invariant(self);
        }
        self.last_id
    }

    pub fn len(&self) -> (n: usize)
        ensures
            n == self.rows().len(),
    {
        self.rows.len()
    }

    fn take_rows(&mut self) -> (r: Vec<FavoriteRow>)
        ensures
            r@ == old(self).rows@,
            final(self).rows@ == Seq::<FavoriteRow>::empty(),
            final(self).last_id == old(self).last_id,
    {
        proof {
            use_type_invariant(&*self);
        }
        let mut rows: Vec<FavoriteRow> = Vec::new();
        std::mem::swap(&mut rows, &mut self.rows);
        rows
    }

    /// Builds a table from stored rows (ascending id) and the largest id ever handed
    /// out; refuses rows that break the table's rules.
    pub fn from_rows(rows: Vec<FavoriteRow>, last_id: i64) -> (r: Result<FavoriteTable, ShelfError>)
        ensures
            r is Ok <==> favorites_well_formed(rows@.map_values(|x: FavoriteRow| x@), last_id as int),
            r matches Ok(t) ==> t.rows() == rows@.map_values(|x: FavoriteRow| x@) && t.last_id() == last_id,
            r matches Err(e) ==> e is Database,
    {
        let ghost v = rows@.map_values(|x: FavoriteRow| x@);
        if last_id < 0 {
            return Err(ShelfError::Database(to_string("favorite table: negative sequence value")));
        }
        let mut i: usize = 0;
        while i < rows.len()
            invariant
                0 <= last_id,
                v == rows@.map_values(|x: FavoriteRow| x@),
                i <= rows@.len(),
                forall|k: int| 0 <= k < i ==> 1 <= #[trigger] v[k].id <= last_id,
                forall|k: int, l: int| 0 <= k < l < i ==> #[trigger] v[k].id < #[trigger] v[l].id,
                forall|k: int, l: int| 0 <= k < l < i ==> #[trigger] v[k].folder_path != #[trigger] v[l].folder_path,
            decreases rows@.len() - i,
        {
            let id = rows[i].id;
            proof {
                assert(v[i as int].id == id);
                if i > 0 {
                    assert(v[i - 1].id == rows@[i - 1].id);
                }
            }
            if id < 1 || id > last_id || (i > 0 && rows[i - 1].id >= id) {
                return Err(ShelfError::Database(to_string("favorite table: malformed row ids")));
            }
            let mut j: usize = 0;
            while j < i
                invariant
                    i < rows@.len(),
                    j <= i,
                    v == rows@.map_values(|x: FavoriteRow| x@),
                    forall|l: int| 0 <= l < j ==> #[trigger] v[l].folder_path != v[i as int].folder_path,
                decreases i - j,
            {
                if str_eq(rows[j].folder_path.as_str(), rows[i].folder_path.as_str()) {
                    proof {
                        assert(v[j as int].folder_path == v[i as int].folder_path);
                    }
                    return Err(ShelfError::Database(to_string("favorite table: duplicate folder path")));
                }
                j = j + 1;
            }
            proof {
                assert forall|k: int, l: int| 0 <= k < l < i + 1 implies #[trigger] v[k].id < #[trigger] v[l].id by {
                    if l == i && k < i - 1 {
                        assert(v[k].id < v[i - 1].id);
                    }
                }
            }
            i = i + 1;
        }
        Ok(FavoriteTable { rows, last_id })
    }

    /// A copy of every row, in insertion order.
    pub fn stored_rows(&self) -> (r: Vec<FavoriteRow>)
        ensures
            r@.map_values(|x: FavoriteRow| x@) == self.rows(),
            forall|i: int, j: int|
                0 <= i < j < self.rows().len() ==> #[trigger] self.rows()[i].folder_path
                    != #[trigger] self.rows()[j].folder_path,
    {
        proof {
            use_type_invariant(self);
        }
        let mut out: Vec<FavoriteRow> = Vec::new();
        let mut i: usize = 0;
        while i < self.rows.len()
            invariant
                i <= self.rows@.len(),
                out@.len() == i,
                forall|k: int| 0 <= k < i ==> #[trigger] out@[k] == self.rows@[k],
            decreases self.rows@.len() - i,
        {
            out.push(self.rows[i].duplicate());
            i = i + 1;
        }
        assert(out@ =~= self.rows@);
        out
    }

    /// The folder path of every row, in insertion order (what `list_items` needs the
    /// status of).
    pub fn folder_paths(&self) -> (r: Vec<String>)
        ensures
            r@.len() == self.rows().len(),
            forall|i: int| 0 <= i < r@.len() ==> #[trigger] r@[i]@ == self.rows()[i].folder_path,
    {
        let mut out: Vec<String> = Vec::new();
        let mut i: usize = 0;
        while i < self.rows.len()
            invariant
                i <= self.rows@.len(),
                out@.len() == i,
                forall|k: int| 0 <= k < i ==> #[trigger] out@[k]@ == self.rows@[k].folder_path@,
            decreases self.rows@.len() - i,
        {
            out.push(self.rows[i].folder_path.clone());
            i = i + 1;
        }
        out
    }

    fn position_of(&self, id: i64) -> (r: Option<usize>)
        ensures
            r matches Some(i) ==> i < self.rows().len() && favorite_index_of_id(self.rows(), id) == i
                && self.rows()[i as int].id == id,
            r is None ==> !favorite_has_id(self.rows(), id),
    {
        proof {
            use_type_invariant(self);
        }
        let mut i: usize = 0;
        while i < self.rows.len()
            invariant
                favorites_well_formed(self.rows(), self.last_id as int),
                i <= self.rows@.len(),
                forall|k: int| 0 <= k < i ==> #[trigger] self.rows@[k].id != id,
            decreases self.rows@.len() - i,
        {
            if self.rows[i].id == id {
                proof {
                    self.lemma_rows_index(i as int);
                    let j = favorite_index_of_id(self.rows(), id);
                    self.lemma_rows_index(j);
                    if j != i as int {
                        if j < i {
                            assert(self.rows()[j].id < self.rows()[i as int].id);
                        } else {
                            assert(self.rows()[i as int].id < self.rows()[j].id);
                        }
                    }
                }
                return Some(i);
            }
            i = i + 1;
        }
        proof {
            assert forall|k: int| 0 <= k < self.rows().len() implies self.rows()[k].id != id by {
                self.lemma_rows_index(k);
            }
        }
        None
    }

    fn contains_path(&self, path: &str) -> (r: bool)
        ensures
            r == has_folder_path(self.rows(), path@),
    {
        let mut i: usize = 0;
        while i < self.rows.len()
            invariant
                i <= self.rows@.len(),
                forall|k: int| 0 <= k < i ==> #[trigger] self.rows@[k].folder_path@ != path@,
            decreases self.rows@.len() - i,
        {
            if str_eq(self.rows[i].folder_path.as_str(), path) {
                proof {
                    self.lemma_rows_index(i as int);
                }
                return true;
            }
            i = i + 1;
        }
        proof {
            assert forall|k: int| 0 <= k < self.rows().len() implies self.rows()[k].folder_path != path@ by {
                self.lemma_rows_index(k);
            }
        }
        false
    }

    fn compute_next_sort_order(&self) -> (r: i128)
        ensures
            r == next_favorite_sort_order(self.rows()),
            i64::MIN as int + 1 <= r <= i64::MAX as int + 1,
    {
        if self.rows.len() == 0 {
            return 0;
        }
        proof {
            self.lemma_rows_index(0);
            assert(self.rows().take(1).len() == 1);
        }
        let mut max: i64 = self.rows[0].sort_order;
        let mut i: usize = 1;
        while i < self.rows.len()
            invariant
                1 <= i <= self.rows@.len(),
                max == max_favorite_sort_order(self.rows().take(i as int)),
            decreases self.rows@.len() - i,
        {
            proof {
                self.lemma_rows_index(i as int);
                assert(self.rows().take(i + 1).drop_last() =~= self.rows().take(i as int));
            }
            if self.rows[i].sort_order > max {
                max = self.rows[i].sort_order;
            }
            i = i + 1;
        }
        proof {
            assert(self.rows().take(i as int) =~= self.rows());
        }
        max as i128 + 1
    }
}

} // verus!

verus! {

impl FavoriteTable {
    /// Lists every registered folder once, with `missing` from `status` (one entry per
    /// row, in insertion order), by sort order and then id.
    pub fn list_items(&self, status: &Vec<PathStatus>) -> (r: Vec<FavoriteFolder>)
        requires
            status@.len() == self.rows().len(),
        ensures
            is_folder_listing(r@.map_values(|x: FavoriteFolder| x@), self.rows(), status@),
    {
        proof {
            use_type_invariant(self);
            let v = self.rows();
            assert forall|i: int, j: int|
                0 <= i < self.rows@.len() && 0 <= j < self.rows@.len() && i != j
                    implies #[trigger] self.rows@[i].id != #[trigger] self.rows@[j].id by {
                self.lemma_rows_index(i);
                self.lemma_rows_index(j);
                if i < j {
                    assert(v[i].id < v[j].id);
                } else {
                    assert(v[j].id < v[i].id);
                }
            }
        }
        let order = FavoriteListing { rows: &self.rows };
        let perm = sorted_positions(&order);
        let mut out: Vec<FavoriteFolder> = Vec::new();
        let mut k: usize = 0;
        while k < perm.len()
            invariant
                is_permutation(perm@, self.rows@.len() as nat),
                status@.len() == self.rows@.len(),
                k <= perm@.len(),
                out@.len() == k,
                forall|a: int| 0 <= a < k ==> #[trigger] out@[a]@ == folder_of(
                    self.rows@[perm@[a] as int]@,
                    status@[perm@[a] as int],
                ),
            decreases perm@.len() - k,
        {
            let p = perm[k];
            out.push(make_folder(&self.rows[p], status[p]));
            k = k + 1;
        }
        proof {
            let ov = out@.map_values(|x: FavoriteFolder| x@);
            let v = self.rows();
            assert forall|a: int, b: int| 0 <= a < b < ov.len() implies folder_listed_before(
                #[trigger] ov[a],
                #[trigger] ov[b],
            ) by {
                assert(order.before(perm@[a] as int, perm@[b] as int));
                assert(ov[a] == out@[a]@ && ov[b] == out@[b]@);
            }
            assert forall|k: int| 0 <= k < ov.len() implies #[trigger] folder_from_some_row(ov, v, status@, k) by {
                let i = perm@[k] as int;
                assert(perm@[k] < v.len());
                self.lemma_rows_index(i);
                assert(ov[k] == out@[k]@);
            }
            assert forall|i: int| 0 <= i < v.len() implies #[trigger] folder_row_is_listed(ov, v, status@, i) by {
                assert(occurs(perm@, i));
                let k = choose|k: int| 0 <= k < perm@.len() && perm@[k] == i;
                self.lemma_rows_index(i);
                assert(ov[k] == out@[k]@);
            }
        }
        out
    }

    /// Registers a folder, given the final component of its path and what the file
    /// system says of it: refused where the path is no directory, or is registered
    /// already; otherwise stored with the next id and sort order and `added_at`.
    pub fn add_named(
        &mut self,
        path: &str,
        name: Option<String>,
        st: PathStatus,
        added_at: &str,
    ) -> (r: Result<FavoriteFolder, ShelfError>)
        ensures
            favorite_add_outcome(
                old(self).rows(),
                old(self).last_id(),
                final(self).rows(),
                final(self).last_id(),
                r,
                path@,
                opt_view(name),
                st,
                added_at@,
            ),
            final(self).well_formed(),
    {
        proof {
            use_type_invariant(&*self);
        }
        if !st.is_dir {
            return Err(ShelfError::Internal(to_string("指定されたパスはフォルダではありません")));
        }
        let sort = self.compute_next_sort_order();
        if sort > i64::MAX as i128 {
            return Err(ShelfError::Database(to_string("integer overflow")));
        }
        if self.contains_path(path) {
            return Err(ShelfError::Conflict(to_string("このフォルダは既に登録されています")));
        }
        if self.last_id == i64::MAX {
            return Err(ShelfError::Database(to_string("database or disk is full")));
        }
        let ghost old_rows = self.rows();
        let id = self.last_id + 1;
        let display = crate::paths::display_name(path, name);
        let row = FavoriteRow {
            id,
            folder_path: to_string(path),
            display_name: display,
            sort_order: sort as i64,
            added_at: to_string(added_at),
        };
        let folder = make_folder(&row, st);
        let mut rows = self.take_rows();
        let ghost before = rows@;
        rows.push(row);
        proof {
            let nv = rows@.map_values(|x: FavoriteRow| x@);
            assert(nv =~= old_rows.push(row@));
            assert forall|i: int, j: int| 0 <= i < j < nv.len() implies #[trigger] nv[i].folder_path
                != #[trigger] nv[j].folder_path by {
                if j == nv.len() - 1 {
                    assert(nv[i] == old_rows[i]);
                }
            }
            assert forall|i: int, j: int| 0 <= i < j < nv.len() implies #[trigger] nv[i].id < #[trigger] nv[j].id by {
                if j == nv.len() - 1 {
                    assert(nv[i] == old_rows[i]);
                }
            }
        }
        self.last_id = id;
        self.rows = rows;
        Ok(folder)
    }

    /// Registers a folder (see `add_named`); the final component of the path comes from
    /// the platform's path API.
    pub fn add(&mut self, path: &str, st: PathStatus, added_at: &str) -> (r: Result<FavoriteFolder, ShelfError>)
        ensures
            exists|name: Option<Seq<char>>|
                file_name_fits(path@, name) && #[trigger] favorite_add_outcome(
                old(self).rows(),
                old(self).last_id(),
                final(self).rows(),
                final(self).last_id(),
                r,
                path@,
                name,
                st,
                added_at@,
            ),
            final(self).well_formed(),
    {
        let name = path_file_name(path);
        let ghost nv = opt_view(name);
        let r = self.add_named(path, name, st, added_at);
        r
    }

    /// Removes the registered folder with the given id.
    pub fn remove(&mut self, id: i64) -> (r: Result<(), ShelfError>)
        ensures
            r is Ok <==> favorite_has_id(old(self).rows(), id),
            r is Ok ==> final(self).rows() == old(self).rows().remove(favorite_index_of_id(old(self).rows(), id)),
            r matches Err(e) ==> e is NotFound && e.detail() == favorite_not_found_text(id)
                && final(self).rows() == old(self).rows(),
            final(self).last_id() == old(self).last_id(),
            final(self).well_formed(),
    {
        proof {
            use_type_invariant(&*self);
        }
        match self.position_of(id) {
            None => Err(ShelfError::NotFound(favorite_not_found_message(id))),
            Some(i) => {
                let ghost old_rows = self.rows();
                let mut rows = self.take_rows();
                rows.remove(i);
                proof {
                    let r = rows@.map_values(|x: FavoriteRow| x@);
                    assert(r =~= old_rows.remove(i as int));
                    assert forall|a: int, b: int| 0 <= a < b < r.len() implies #[trigger] r[a].id < #[trigger] r[b].id
                        && r[a].folder_path != r[b].folder_path by {
                        let a0 = if a < i { a } else { a + 1 };
                        let b0 = if b < i { b } else { b + 1 };
                        assert(r[a] == old_rows[a0] && r[b] == old_rows[b0]);
                    }
                    assert forall|a: int, b: int| 0 <= a < b < r.len() implies #[trigger] r[a].folder_path
                        != #[trigger] r[b].folder_path by {
                        assert(r[a].id < r[b].id && r[a].folder_path != r[b].folder_path);
                    }
                    assert forall|a: int| 0 <= a < r.len() implies 1 <= #[trigger] r[a].id <= self.last_id by {
                        let a0 = if a < i { a } else { a + 1 };
                        assert(r[a] == old_rows[a0]);
                    }
                }
                self.rows = rows;
                Ok(())
            },
        }
    }

    /// The folder path of the registered folder with the given id.
    pub fn get_path(&self, id: i64) -> (r: Result<String, ShelfError>)
        ensures
            r is Ok <==> favorite_has_id(self.rows(), id),
            r matches Ok(p) ==> p@ == self.rows()[favorite_index_of_id(self.rows(), id)].folder_path,
            r matches Err(e) ==> e is NotFound && e.detail() == favorite_not_found_text(id),
    {
        match self.position_of(id) {
            None => Err(ShelfError::NotFound(favorite_not_found_message(id))),
            Some(i) => {
                proof {
                    self.lemma_rows_index(i as int);
                }
                Ok(self.rows[i].folder_path.clone())
            },
        }
    }
}

/// A folder just registered is found again by the id it was given: `get_path` of that id
/// gives the path registered.
pub proof fn lemma_get_path_after_add(
    rows: Seq<FavoriteRowView>,
    last_id: int,
    rows2: Seq<FavoriteRowView>,
    last_id2: int,
    r: Result<FavoriteFolder, ShelfError>,
    path: Seq<char>,
    st: PathStatus,
    added_at: Seq<char>,
)
    requires
        favorites_well_formed(rows, last_id),
        last_id <= i64::MAX,
        exists|name: Option<Seq<char>>| #[trigger] favorite_add_outcome(rows, last_id, rows2, last_id2, r, path, name, st, added_at),
        r is Ok,
    ensures
        favorite_has_id(rows2, r->Ok_0@.id),
        rows2[favorite_index_of_id(rows2, r->Ok_0@.id)].folder_path == path,
{
    let name = choose|name: Option<Seq<char>>| #[trigger] favorite_add_outcome(rows, last_id, rows2, last_id2, r, path, name, st, added_at);
    let n = rows.len() as int;
    let sort = next_favorite_sort_order(rows);
    assert(st.is_dir);
    assert(sort <= i64::MAX);
    assert(!has_folder_path(rows, path));
    let row = FavoriteRowView {
        id: (last_id + 1) as i64,
        folder_path: path,
        display_name: display_name_of(path, name),
        sort_order: sort as i64,
        added_at,
    };
    assert(rows2 == rows.push(row));
    let id = rows2[n].id;
    assert(rows2[n].id == last_id + 1);
    assert(r->Ok_0@.id == id);
    let j = favorite_index_of_id(rows2, id);
    assert(favorite_has_id(rows2, id));
    if j != n {
        assert(rows2[j] == rows[j]);
        assert(rows[j].id <= last_id);
    }
}

fn favorite_not_found_message(id: i64) -> (r: String)
    ensures
        r@ == favorite_not_found_text(id),
{
    let mut s = to_string("favorite folder id=");
    append_i64(&mut s, id);
    s
}

} // verus!
