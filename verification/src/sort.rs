//! Ordering of table rows: a stable description of "the rows in the order of a strict
//! total order", and an insertion sort that produces it.

use vstd::prelude::*;

verus! {

/// A strict total order on the positions `0 .. size()` of some row collection.
pub trait RowOrder {
    /// The number of rows being ordered.
    spec fn size(&self) -> nat;

    /// The collection is in a state where `before` is a strict total order.
    spec fn valid(&self) -> bool;

    /// Row `i` comes strictly before row `j`.
    spec fn before(&self, i: int, j: int) -> bool;

    proof fn lemma_irreflexive(&self, i: int)
        requires
            self.valid(),
            0 <= i < self.size(),
        ensures
            !self.before(i, i),
    ;

    proof fn lemma_transitive(&self, i: int, j: int, k: int)
        requires
            self.valid(),
            0 <= i < self.size(),
            0 <= j < self.size(),
            0 <= k < self.size(),
            self.before(i, j),
            self.before(j, k),
        ensures
            self.before(i, k),
    ;

    proof fn lemma_total(&self, i: int, j: int)
        requires
            self.valid(),
            0 <= i < self.size(),
            0 <= j < self.size(),
            i != j,
        ensures
            self.before(i, j) || self.before(j, i),
    ;

    fn count(&self) -> (n: usize)
        ensures
            n == self.size(),
    ;

    fn is_before(&self, i: usize, j: usize) -> (r: bool)
        requires
            self.valid(),
            i < self.size(),
            j < self.size(),
        ensures
            r == self.before(i as int, j as int),
    ;
}

/// `perm` lists every position `0 .. n` exactly once.
pub open spec fn is_permutation(perm: Seq<usize>, n: nat) -> bool {
    &&& perm.len() == n
    &&& forall|a: int| 0 <= a < perm.len() ==> (#[trigger] perm[a]) < n
    &&& forall|a: int, b: int| 0 <= a < perm.len() && 0 <= b < perm.len() && a != b ==> perm[a] != perm[b]
    &&& forall|j: int| 0 <= j < n ==> #[trigger] occurs(perm, j)
}

/// Position `j` occurs somewhere in `perm`.
pub open spec fn occurs(perm: Seq<usize>, j: int) -> bool {
    exists|a: int| 0 <= a < perm.len() && perm[a] == j
}

/// `perm` lists positions in the order given by `o`.
pub open spec fn is_sorted_by<T: RowOrder>(o: &T, perm: Seq<usize>) -> bool {
    forall|a: int, b: int|
        0 <= a < b < perm.len() ==> o.before(#[trigger] perm[a] as int, #[trigger] perm[b] as int)
}

/// Returns the positions `0 .. o.count()` sorted by `o`'s order.
pub fn sorted_positions<T: RowOrder>(o: &T) -> (perm: Vec<usize>)
    requires
        o.valid(),
    ensures
        is_permutation(perm@, o.size()),
        is_sorted_by(o, perm@),
{
    let n = o.count();
    let mut perm: Vec<usize> = Vec::new();
    let mut i: usize = 0;
    while i < n
        invariant
            n == o.size(),
            o.valid(),
            i <= n,
            perm@.len() == i,
            forall|a: int| 0 <= a < perm@.len() ==> (#[trigger] perm@[a]) < i,
            forall|a: int, b: int|
                0 <= a < perm@.len() && 0 <= b < perm@.len() && a != b ==> perm@[a] != perm@[b],
            forall|j: int| 0 <= j < i ==> #[trigger] occurs(perm@, j),
            is_sorted_by(o, perm@),
        decreases n - i,
    {
        let mut p: usize = 0;
        while p < perm.len() && o.is_before(perm[p], i)
            invariant
                n == o.size(),
                o.valid(),
                i < n,
                perm@.len() == i,
                p <= perm@.len(),
                forall|a: int| 0 <= a < perm@.len() ==> (#[trigger] perm@[a]) < i,
                forall|a: int| 0 <= a < p ==> o.before(#[trigger] perm@[a] as int, i as int),
            decreases perm@.len() - p,
        {
            p = p + 1;
        }
        let ghost old_perm = perm@;
        proof {
            if p < old_perm.len() {
                // the row at `p` does not come before `i`, so `i` comes before it and,
                // by transitivity, before everything after it
                o.lemma_total(old_perm[p as int] as int, i as int);
                assert forall|b: int| p <= b < old_perm.len() implies o.before(
                    i as int,
                    #[trigger] old_perm[b] as int,
                ) by {
                    if b > p {
                        assert(o.before(old_perm[p as int] as int, old_perm[b] as int));
                        o.lemma_transitive(i as int, old_perm[p as int] as int, old_perm[b] as int);
                    }
                }
            }
        }
        perm.insert(p, i);
        proof {
            let np = perm@;
            assert(np =~= old_perm.insert(p as int, i));
            assert forall|a: int| 0 <= a < np.len() implies (#[trigger] np[a]) < i + 1 by {
                if a < p {
                    assert(np[a] == old_perm[a]);
                } else if a > p {
                    assert(np[a] == old_perm[a - 1]);
                }
            }
            assert forall|a: int, b: int|
                0 <= a < np.len() && 0 <= b < np.len() && a != b implies np[a] != np[b] by {
                if a != p as int && b != p as int {
                    let a0 = if a < p { a } else { a - 1 };
                    let b0 = if b < p { b } else { b - 1 };
                    assert(np[a] == old_perm[a0]);
                    assert(np[b] == old_perm[b0]);
                } else if a == p as int {
                    let b0 = if b < p { b } else { b - 1 };
                    assert(np[b] == old_perm[b0]);
                } else {
                    let a0 = if a < p { a } else { a - 1 };
                    assert(np[a] == old_perm[a0]);
                }
            }
            assert forall|j: int| 0 <= j < i + 1 implies #[trigger] occurs(np, j) by {
                if j == i {
                    assert(np[p as int] == j);
                } else {
                    assert(occurs(old_perm, j));
                    let a0 = choose|a: int| 0 <= a < old_perm.len() && old_perm[a] == j;
                    if a0 < p {
                        assert(np[a0] == j);
                    } else {
                        assert(np[a0 + 1] == j);
                    }
                }
            }
            assert forall|a: int, b: int| 0 <= a < b < np.len() implies o.before(
                #[trigger] np[a] as int,
                #[trigger] np[b] as int,
            ) by {
                if b < p {
                    assert(np[a] == old_perm[a] && np[b] == old_perm[b]);
                } else if b == p as int {
                    assert(np[a] == old_perm[a]);
                } else if a == p as int {
                    assert(np[b] == old_perm[b - 1]);
                } else if a < p {
                    assert(np[a] == old_perm[a] && np[b] == old_perm[b - 1]);
                } else {
                    assert(np[a] == old_perm[a - 1] && np[b] == old_perm[b - 1]);
                }
            }
        }
        i = i + 1;
    }
    perm
}

} // verus!
