use crate::order::{lawful, le, lemma_connected, lemma_transitive, lt};
use crate::sorted::{
    inserted, lemma_inserted_sorted, lemma_rank_bounds, lemma_rank_finds, lemma_rank_parts,
    lemma_remove_any, lemma_removed_sorted, rank, removed, sorted, strictly_sorted,
};
use vstd::prelude::*;

verus! {

/// One change to the keys of a tree.
pub enum Step<T> {
    Insert(T),
    Delete(T),
}

/// The keys after one step.
pub open spec fn after_step<T: Ord>(s: Seq<T>, step: Step<T>) -> Seq<T> {
    match step {
        Step::Insert(k) => inserted(s, k),
        Step::Delete(k) => removed(s, k),
    }
}

/// The keys after a row of steps, taken in order.
pub open spec fn after_steps<T: Ord>(s: Seq<T>, steps: Seq<Step<T>>) -> Seq<T>
    decreases steps.len(),
{
    if steps.len() == 0 {
        s
    } else {
        after_step(after_steps(s, steps.drop_last()), steps.last())
    }
}

/// No step of the row inserts a key that is among the keys at that moment.
pub open spec fn inserts_only_new<T: Ord>(s: Seq<T>, steps: Seq<Step<T>>) -> bool
    decreases steps.len(),
{
    if steps.len() == 0 {
        true
    } else {
        &&& inserts_only_new(s, steps.drop_last())
        &&& match steps.last() {
            Step::Insert(k) => !after_steps(s, steps.drop_last()).contains(k),
            Step::Delete(_) => true,
        }
    }
}

/// The row of steps that inserts these keys in order.
pub open spec fn insertions<T>(keys: Seq<T>) -> Seq<Step<T>> {
    Seq::new(keys.len(), |i: int| Step::Insert(keys[i]))
}

/// After an insertion the keys are the new key and the keys that were there.
pub proof fn lemma_inserted_contains<T: Ord>(s: Seq<T>, k: T, x: T)
    ensures
        inserted(s, k).contains(x) <==> x == k || s.contains(x),
{
    lemma_rank_bounds(s, k);
    let r = rank(s, k);
    let t = inserted(s, k);
    if t.contains(x) {
        let p = choose|p: int| 0 <= p < t.len() && t[p] == x;
        if p < r {
            assert(s[p] == x);
        } else if p > r {
            assert(s[p - 1] == x);
        }
    }
    if x == k {
        assert(t[r] == x);
    }
    if s.contains(x) {
        let p = choose|p: int| 0 <= p < s.len() && s[p] == x;
        if p < r {
            assert(t[p] == x);
        } else {
            assert(t[p + 1] == x);
        }
    }
}

/// A deletion leaves every key but the deleted one among the keys.
pub proof fn lemma_removed_contains<T: Ord + Clone>(s: Seq<T>, k: T, x: T)
    requires
        lawful::<T>(),
        sorted(s),
        x != k,
    ensures
        removed(s, k).contains(x) <==> s.contains(x),
{
    if s.contains(k) {
        let r = rank(s, k);
        let t = s.remove(r);
        lemma_rank_bounds(s, k);
        lemma_rank_finds(s, k);
        if t.contains(x) {
            let p = choose|p: int| 0 <= p < t.len() && t[p] == x;
            if p < r {
                assert(s[p] == x);
            } else {
                assert(s[p + 1] == x);
            }
        }
        if s.contains(x) {
            let p = choose|p: int| 0 <= p < s.len() && s[p] == x;
            if p < r {
                assert(t[p] == x);
            } else {
                assert(t[p - 1] == x);
            }
        }
    }
}

/// Search finds exactly what was inserted: after a row of insertions into
/// an empty tree, a key is among the tree's keys exactly if it is one of the
/// inserted keys.
pub proof fn lemma_search_after_insertions<T: Ord>(keys: Seq<T>, k: T)
    ensures
        after_steps(Seq::<T>::empty(), insertions(keys)).contains(k) <==> keys.contains(k),
    decreases keys.len(),
{
    let steps = insertions(keys);
    if keys.len() > 0 {
        let front = keys.drop_last();
        assert(steps.drop_last() =~= insertions(front));
        lemma_search_after_insertions(front, k);
        lemma_inserted_contains(after_steps(Seq::<T>::empty(), insertions(front)), keys.last(), k);
        if keys.contains(k) {
            let p = choose|p: int| 0 <= p < keys.len() && keys[p] == k;
            if p < front.len() {
                assert(front[p] == k);
            }
        }
        if front.contains(k) {
            let p = choose|p: int| 0 <= p < front.len() && front[p] == k;
            assert(keys[p] == k);
        }
        if k == keys.last() {
            assert(keys[keys.len() - 1] == k);
        }
    }
}

/// The keys stay sorted: after any row of insertions and deletions on an
/// empty tree, no key stands behind a greater one.
pub proof fn lemma_sorted_after_steps<T: Ord + Clone>(steps: Seq<Step<T>>)
    requires
        lawful::<T>(),
    ensures
        sorted(after_steps(Seq::<T>::empty(), steps)),
    decreases steps.len(),
{
    if steps.len() > 0 {
        lemma_sorted_after_steps(steps.drop_last());
        let s = after_steps(Seq::<T>::empty(), steps.drop_last());
        match steps.last() {
            Step::Insert(k) => lemma_inserted_sorted(s, k),
            Step::Delete(k) => lemma_removed_sorted(s, k),
        }
    }
}

/// Inserting a key that is not there keeps strictly increasing keys
/// strictly increasing.
pub proof fn lemma_inserted_strictly_sorted<T: Ord + Clone>(s: Seq<T>, k: T)
    requires
        lawful::<T>(),
        strictly_sorted(s),
        !s.contains(k),
    ensures
        strictly_sorted(inserted(s, k)),
{
    lemma_strictly_sorted_is_sorted(s);
    lemma_rank_parts(s, k);
    let r = rank(s, k);
    let t = inserted(s, k);
    assert forall|i: int, j: int| 0 <= i < j < t.len() implies lt(t[i], t[j]) by {
        if j < r {
            assert(lt(s[i], s[j]));
        } else if j == r {
            assert(lt(s[i], k));
        } else if i < r {
            assert(lt(s[i], k));
            assert(!lt(s[j - 1], k));
            lemma_transitive(s[i], k, s[j - 1]);
        } else if i == r {
            assert(!lt(s[j - 1], k));
            lemma_connected(s[j - 1], k);
        } else {
            assert(lt(s[i - 1], s[j - 1]));
        }
    }
}

/// A deletion keeps strictly increasing keys strictly increasing.
pub proof fn lemma_removed_strictly_sorted<T: Ord + Clone>(s: Seq<T>, k: T)
    requires
        lawful::<T>(),
        strictly_sorted(s),
    ensures
        strictly_sorted(removed(s, k)),
{
    if s.contains(k) {
        lemma_strictly_sorted_is_sorted(s);
        lemma_rank_finds(s, k);
        lemma_rank_bounds(s, k);
        let r = rank(s, k);
        let t = s.remove(r);
        assert forall|i: int, j: int| 0 <= i < j < t.len() implies lt(t[i], t[j]) by {
            let a = if i < r { i } else { i + 1 };
            let b = if j < r { j } else { j + 1 };
            assert(lt(s[a], s[b]));
        }
    }
}

/// Strictly increasing keys are sorted.
pub proof fn lemma_strictly_sorted_is_sorted<T: Ord + Clone>(s: Seq<T>)
    requires
        lawful::<T>(),
        strictly_sorted(s),
    ensures
        sorted(s),
{
    assert forall|i: int, j: int| 0 <= i < j < s.len() implies le(s[i], s[j]) by {
        assert(lt(s[i], s[j]));
        lemma_connected(s[i], s[j]);
    }
}

/// The keys stay strictly increasing: after any row of insertions and
/// deletions on an empty tree in which no key is inserted while it is among
/// the keys, every key stands in front of a greater one.
pub proof fn lemma_strictly_sorted_after_steps<T: Ord + Clone>(steps: Seq<Step<T>>)
    requires
        lawful::<T>(),
        inserts_only_new(Seq::<T>::empty(), steps),
    ensures
        strictly_sorted(after_steps(Seq::<T>::empty(), steps)),
    decreases steps.len(),
{
    if steps.len() > 0 {
        lemma_strictly_sorted_after_steps(steps.drop_last());
        let s = after_steps(Seq::<T>::empty(), steps.drop_last());
        match steps.last() {
            Step::Insert(k) => lemma_inserted_strictly_sorted(s, k),
            Step::Delete(k) => lemma_removed_strictly_sorted(s, k),
        }
    }
}

/// Inserting a key and deleting it at once gives back the keys that were
/// there: the key, if it was not there before, is not found afterwards, and
/// every key that was there still is.
pub proof fn lemma_insert_then_delete<T: Ord + Clone>(s: Seq<T>, k: T)
    requires
        lawful::<T>(),
        sorted(s),
    ensures
        removed(inserted(s, k), k) == s,
        !s.contains(k) ==> !removed(inserted(s, k), k).contains(k),
        forall|x: T| s.contains(x) ==> removed(inserted(s, k), k).contains(x),
{
    lemma_rank_bounds(s, k);
    lemma_inserted_sorted(s, k);
    let r = rank(s, k);
    let t = inserted(s, k);
    assert(t[r] == k);
    lemma_remove_any(t, k, r);
    assert(t.remove(r) =~= s);
}

/// Deleting from an empty tree finds nothing and leaves the tree empty.
pub proof fn lemma_delete_from_empty<T: Ord>(k: T)
    ensures
        !Seq::<T>::empty().contains(k),
        removed(Seq::<T>::empty(), k) == Seq::<T>::empty(),
{
}

} // verus!
