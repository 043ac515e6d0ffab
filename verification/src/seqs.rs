//! Small facts about sequences that the rest of the library leans on.

use crate::cell::CellPos;
use vstd::prelude::*;

verus! {

/// A sequence that holds `q` holds it at some index.
pub proof fn lemma_index_of<A>(s: Seq<A>, q: A) -> (i: int)
    requires
        s.contains(q),
    ensures
        0 <= i < s.len(),
        s[i] == q,
{
    choose|i: int| 0 <= i < s.len() && s[i] == q
}

/// What two sequences joined end to end hold is what either holds.
pub proof fn lemma_join_contains<A>(a: Seq<A>, b: Seq<A>, q: A)
    ensures
        (a + b).contains(q) <==> a.contains(q) || b.contains(q),
{
    if (a + b).contains(q) {
        let i = lemma_index_of(a + b, q);
        if i < a.len() {
            assert(a[i] == q);
        } else {
            assert(b[i - a.len()] == q);
        }
    }
    if a.contains(q) {
        let i = lemma_index_of(a, q);
        assert((a + b)[i] == q);
    }
    if b.contains(q) {
        let i = lemma_index_of(b, q);
        assert((a + b)[a.len() + i] == q);
    }
}

/// Two sequences without repeats that share no element join into a sequence
/// without repeats.
pub proof fn lemma_join_distinct<A>(a: Seq<A>, b: Seq<A>)
    requires
        a.no_duplicates(),
        b.no_duplicates(),
        forall|q: A| !(a.contains(q) && b.contains(q)),
    ensures
        (a + b).no_duplicates(),
{
    let s = a + b;
    assert forall|i: int, j: int| 0 <= i < s.len() && 0 <= j < s.len() && i != j implies s[i]
        != s[j] by {
        if i < a.len() && j >= a.len() {
            assert(a.contains(a[i]));
            assert(b.contains(b[j - a.len()]));
        } else if j < a.len() && i >= a.len() {
            assert(a.contains(a[j]));
            assert(b.contains(b[i - a.len()]));
        }
    }
}

/// The elements of `found` that `known` does not hold, in their order.
pub open spec fn without<A>(found: Seq<A>, known: Seq<A>) -> Seq<A>
    decreases found.len(),
{
    if found.len() == 0 {
        Seq::empty()
    } else {
        let before = without(found.drop_last(), known);
        if known.contains(found.last()) {
            before
        } else {
            before.push(found.last())
        }
    }
}

/// `without` keeps exactly the elements of `found` that `known` lacks, and
/// repeats none where `found` repeats none.
pub proof fn lemma_without<A>(found: Seq<A>, known: Seq<A>)
    ensures
        without(found, known).len() <= found.len(),
        forall|q: A| #[trigger]
            without(found, known).contains(q) <==> found.contains(q) && !known.contains(q),
        found.no_duplicates() ==> without(found, known).no_duplicates(),
    decreases found.len(),
{
    let kept = without(found, known);
    if found.len() == 0 {
        assert forall|q: A| #[trigger]
            kept.contains(q) <==> found.contains(q) && !known.contains(q) by {
            if kept.contains(q) {
                let i = lemma_index_of(kept, q);
            }
            if found.contains(q) {
                let i = lemma_index_of(found, q);
            }
        }
    } else {
        let front = found.drop_last();
        let last = found.last();
        let before = without(front, known);
        lemma_without(front, known);
        assert forall|q: A| #[trigger]
            kept.contains(q) <==> found.contains(q) && !known.contains(q) by {
            if kept.contains(q) {
                let i = lemma_index_of(kept, q);
                if i < before.len() {
                    assert(before[i] == q);
                    assert(before.contains(q));
                    let j = lemma_index_of(front, q);
                    assert(found[j] == q);
                } else {
                    assert(q == last);
                    assert(found[found.len() - 1] == q);
                }
            }
            if found.contains(q) && !known.contains(q) {
                let j = lemma_index_of(found, q);
                if j < front.len() {
                    assert(front[j] == q);
                    assert(front.contains(q));
                    let i = lemma_index_of(before, q);
                    assert(kept[i] == q);
                } else {
                    assert(kept[kept.len() - 1] == q);
                }
            }
        }
        if found.no_duplicates() {
            assert(front.no_duplicates());
            if !known.contains(last) {
                assert forall|i: int, j: int|
                    0 <= i < kept.len() && 0 <= j < kept.len() && i != j implies kept[i]
                    != kept[j] by {
                    if i == before.len() && j < before.len() {
                        assert(before.contains(before[j]));
                        let k = lemma_index_of(front, before[j]);
                        assert(found[k] != found[found.len() - 1]);
                    } else if j == before.len() && i < before.len() {
                        assert(before.contains(before[i]));
                        let k = lemma_index_of(front, before[i]);
                        assert(found[k] != found[found.len() - 1]);
                    }
                }
            }
        }
    }
}

/// Whether `cells` holds `q`.
pub fn holds(cells: &Vec<CellPos>, q: CellPos) -> (found: bool)
    ensures
        found == cells@.contains(q),
{
    let mut i: usize = 0;
    while i < cells.len()
        invariant
            i <= cells.len(),
            forall|j: int| 0 <= j < i ==> cells@[j] != q,
        decreases cells.len() - i,
    {
        if cells[i] == q {
            return true;
        }
        i = i + 1;
    }
    false
}

/// The elements of `found` that `known` does not hold, in their order.
pub fn filter_new(found: &Vec<CellPos>, known: &Vec<CellPos>) -> (kept:
    Vec<CellPos>)
    ensures
        kept@ == without(found@, known@),
{
    let mut kept: Vec<CellPos> = Vec::new();
    let mut i: usize = 0;
    while i < found.len()
        invariant
            i <= found.len(),
            kept@ == without(found@.take(i as int), known@),
        decreases found.len() - i,
    {
        let q = found[i];
        proof {
            assert(found@.take(i + 1).drop_last() =~= found@.take(i as int));
            assert(found@.take(i + 1).last() == q);
        }
        if !holds(known, q) {
            kept.push(q);
        }
        i = i + 1;
    }
    assert(found@.take(found.len() as int) =~= found@);
    kept
}

} // verus!
