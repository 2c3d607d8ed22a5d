//! How many history entries the automatic clean-up leaves.

use vstd::prelude::*;
use vstd::relations::injective_on;
use vstd::set_lib::{lemma_int_range, lemma_map_size, lemma_subset_equality, set_int_range};
use crate::history::{
    HistoryRowView, dropped_rows, entries_well_formed, keep_by_age, keep_by_count, kept_rows, older_unpinned,
    retention_before, lemma_kept_rows_from, lemma_older_unpinned_counts_self,
};
use crate::text::{lemma_seq_less_irreflexive, lemma_seq_less_total, seq_less};

verus! {

/// The number of unpinned rows.
pub open spec fn unpinned_count(rows: Seq<HistoryRowView>) -> nat
    decreases rows.len(),
{
    if rows.len() == 0 {
        0
    } else {
        unpinned_count(rows.drop_last()) + if rows.last().pinned {
            0nat
        } else {
            1nat
        }
    }
}

spec fn cleared_positions(n: int, keep: Seq<bool>) -> Set<int> {
    Set::new(|k: int| 0 <= k < n && !keep[k])
}

spec fn unpinned_positions(rows: Seq<HistoryRowView>) -> Set<int> {
    Set::new(|k: int| 0 <= k < rows.len() && !rows[k].pinned)
}

proof fn lemma_dropped_len(rows: Seq<HistoryRowView>, keep: Seq<bool>)
    requires
        keep.len() >= rows.len(),
    ensures
        cleared_positions(rows.len() as int, keep).finite(),
        dropped_rows(rows, keep).len() == cleared_positions(rows.len() as int, keep).len(),
        kept_rows(rows, keep).len() + dropped_rows(rows, keep).len() == rows.len(),
    decreases rows.len(),
{
    let n = rows.len() as int;
    if n == 0 {
        assert(cleared_positions(0, keep) =~= Set::<int>::empty());
    } else {
        lemma_dropped_len(rows.drop_last(), keep);
        let prev = cleared_positions(n - 1, keep);
        if !keep[n - 1] {
            assert(cleared_positions(n, keep) =~= prev.insert(n - 1));
            assert(!prev.contains(n - 1));
        } else {
            assert(cleared_positions(n, keep) =~= prev);
        }
    }
}

proof fn lemma_unpinned_positions(rows: Seq<HistoryRowView>)
    ensures
        unpinned_positions(rows).finite(),
        unpinned_positions(rows).len() == unpinned_count(rows),
    decreases rows.len(),
{
    let n = rows.len() as int;
    if n == 0 {
        assert(unpinned_positions(rows) =~= Set::<int>::empty());
    } else {
        let d = rows.drop_last();
        lemma_unpinned_positions(d);
        let prev = unpinned_positions(d);
        if !rows[n - 1].pinned {
            assert(unpinned_positions(rows) =~= prev.insert(n - 1));
            assert(!prev.contains(n - 1));
        } else {
            assert(unpinned_positions(rows) =~= prev);
        }
    }
}

proof fn lemma_older_le_count(rows: Seq<HistoryRowView>, x: HistoryRowView)
    ensures
        older_unpinned(rows, x) <= unpinned_count(rows),
    decreases rows.len(),
{
    if rows.len() > 0 {
        lemma_older_le_count(rows.drop_last(), x);
    }
}

proof fn lemma_rank_below_count(rows: Seq<HistoryRowView>, i: int)
    requires
        0 <= i < rows.len(),
        !rows[i].pinned,
    ensures
        older_unpinned(rows, rows[i]) < unpinned_count(rows),
    decreases rows.len(),
{
    let n = rows.len() as int;
    let x = rows[i];
    if i == n - 1 {
        lemma_seq_less_irreflexive(x.updated_at);
        assert(!retention_before(x, x));
        lemma_older_le_count(rows.drop_last(), x);
    } else {
        assert(rows.drop_last()[i] == x);
        lemma_rank_below_count(rows.drop_last(), i);
    }
}

/// After the count limit, where there were more entries than `max_entries`, as many
/// remain as the limit allows, or more where more are pinned: `max(max_entries,
/// pinned)`. Where there were no more than `max_entries`, all remain.
pub proof fn lemma_retention_count(rows: Seq<HistoryRowView>, last_id: int, max_entries: int)
    requires
        entries_well_formed(rows, last_id),
        0 <= max_entries,
    ensures
        kept_rows(rows, keep_by_count(rows, max_entries)).len() == if rows.len() <= max_entries {
            rows.len() as int
        } else if rows.len() - unpinned_count(rows) >= max_entries {
            rows.len() - unpinned_count(rows)
        } else {
            max_entries
        },
{
    let n = rows.len() as int;
    let keep = keep_by_count(rows, max_entries);
    lemma_dropped_len(rows, keep);
    let dropped = cleared_positions(n, keep);
    if n <= max_entries {
        assert(dropped =~= Set::<int>::empty());
    } else {
        let m = n - max_entries;
        let u = unpinned_count(rows) as int;
        let unpinned = unpinned_positions(rows);
        lemma_unpinned_positions(rows);
        let f = |k: int| older_unpinned(rows, rows[k]) as int;
        assert forall|a: int, b: int|
            unpinned.contains(a) && unpinned.contains(b) && #[trigger] f(a) == #[trigger] f(b) implies a == b by {
            if a != b {
                let ra = rows[a];
                let rb = rows[b];
                assert(ra.id != rb.id) by {
                    if a < b {
                        assert(rows[a].id < rows[b].id);
                    } else {
                        assert(rows[b].id < rows[a].id);
                    }
                }
                if ra.updated_at != rb.updated_at {
                    lemma_seq_less_total(ra.updated_at, rb.updated_at);
                }
                if retention_before(ra, rb) {
                    lemma_older_unpinned_counts_self(rows, ra, rb, a);
                } else {
                    assert(retention_before(rb, ra));
                    lemma_older_unpinned_counts_self(rows, rb, ra, b);
                }
            }
        }
        assert(injective_on(f, unpinned));
        let ranks = unpinned.map(f);
        lemma_map_size(unpinned, ranks, f);
        lemma_int_range(0, u);
        assert forall|r: int| ranks.contains(r) implies set_int_range(0, u).contains(r) by {
            let k = choose|k: int| unpinned.contains(k) && r == f(k);
            lemma_rank_below_count(rows, k);
        }
        lemma_subset_equality(ranks, set_int_range(0, u));
        let t = if m < u {
            m
        } else {
            u
        };
        assert forall|k: int| dropped.contains(k) <==> unpinned.contains(k) && f(k) < m by {
            if 0 <= k < n {
                assert(keep[k] == (rows[k].pinned || older_unpinned(rows, rows[k]) >= m));
            }
        }
        assert forall|a: int, b: int|
            dropped.contains(a) && dropped.contains(b) && #[trigger] f(a) == #[trigger] f(b) implies a == b by {
            assert(unpinned.contains(a) && unpinned.contains(b));
        }
        lemma_int_range(0, t);
        assert forall|r: int| #[trigger] dropped.map(f).contains(r) <==> set_int_range(0, t).contains(r) by {
            if dropped.map(f).contains(r) {
                let k = choose|k: int| dropped.contains(k) && r == f(k);
                assert(ranks.contains(r));
                assert(set_int_range(0, u).contains(r));
            }
            if set_int_range(0, t).contains(r) {
                assert(set_int_range(0, u).contains(r));
                assert(ranks.contains(r));
                let k = choose|k: int| unpinned.contains(k) && r == f(k);
                assert(dropped.contains(k));
            }
        }
        assert(dropped.map(f) =~= set_int_range(0, t));
        lemma_map_size(dropped, set_int_range(0, t), f);
    }
}

/// Keeping some of well-formed entries keeps them well formed.
pub proof fn lemma_kept_rows_well_formed(rows: Seq<HistoryRowView>, keep: Seq<bool>, last_id: int)
    requires
        entries_well_formed(rows, last_id),
        keep.len() >= rows.len(),
    ensures
        entries_well_formed(kept_rows(rows, keep), last_id),
    decreases rows.len(),
{
    let n = rows.len() as int;
    if n > 0 {
        let d = rows.drop_last();
        lemma_kept_rows_well_formed(d, keep, last_id);
        if keep[n - 1] {
            let sub = kept_rows(d, keep);
            let s = kept_rows(rows, keep);
            assert(s == sub.push(rows[n - 1]));
            assert forall|a: int| 0 <= a < sub.len() implies #[trigger] sub[a].id < rows[n - 1].id
                && sub[a].content_hash != rows[n - 1].content_hash by {
                lemma_kept_rows_from(d, keep, a);
                let k = choose|k: int| 0 <= k < d.len() && keep[k] && d[k] == sub[a];
                assert(rows[k] == d[k]);
                assert(rows[k].id < rows[n - 1].id);
                assert(rows[k].content_hash != rows[n - 1].content_hash);
            }
            assert forall|a: int, b: int| 0 <= a < b < s.len() implies #[trigger] s[a].id < #[trigger] s[b].id
                && s[a].content_hash != s[b].content_hash by {
                if b == s.len() - 1 {
                    assert(s[a] == sub[a]);
                } else {
                    assert(s[a] == sub[a] && s[b] == sub[b]);
                }
            }
            assert forall|a: int, b: int| 0 <= a < b < s.len() implies #[trigger] s[a].content_hash
                != #[trigger] s[b].content_hash by {
                if b == s.len() - 1 {
                    assert(s[a] == sub[a]);
                    assert(sub[a].id < rows[n - 1].id);
                    assert(sub[a].content_hash != rows[n - 1].content_hash);
                } else {
                    assert(s[a] == sub[a] && s[b] == sub[b]);
                    assert(sub[a].content_hash != sub[b].content_hash);
                }
            }
        }
    }
}

/// After the whole clean-up (age limit, then count limit) the history holds
/// `max(max_entries, pinned)` entries where more than `max_entries` outlived the age
/// limit, and all of those otherwise.
pub proof fn lemma_retention_leaves(rows: Seq<HistoryRowView>, last_id: int, max_entries: int, cutoff: Seq<char>)
    requires
        entries_well_formed(rows, last_id),
        0 <= max_entries,
    ensures
        ({
            let rows1 = kept_rows(rows, keep_by_age(rows, cutoff));
            kept_rows(rows1, keep_by_count(rows1, max_entries)).len() == if rows1.len() <= max_entries {
                rows1.len() as int
            } else if rows1.len() - unpinned_count(rows1) >= max_entries {
                rows1.len() - unpinned_count(rows1)
            } else {
                max_entries
            }
        }),
{
    let rows1 = kept_rows(rows, keep_by_age(rows, cutoff));
    lemma_kept_rows_well_formed(rows, keep_by_age(rows, cutoff), last_id);
    lemma_retention_count(rows1, last_id, max_entries);
}

} // verus!
