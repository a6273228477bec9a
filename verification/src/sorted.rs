use crate::order::{lawful, le, lemma_connected, lemma_transitive, lt};
use vstd::prelude::*;

verus! {

/// No element of `s` comes after a later one.
pub open spec fn sorted<T: Ord>(s: Seq<T>) -> bool {
    forall|i: int, j: int| 0 <= i < j < s.len() ==> le(s[i], s[j])
}

/// Every element of `s` comes strictly before each later one.
pub open spec fn strictly_sorted<T: Ord>(s: Seq<T>) -> bool {
    forall|i: int, j: int| 0 <= i < j < s.len() ==> lt(s[i], s[j])
}

/// The number of elements of `s` that come strictly before `k`. In a sorted
/// sequence this is the first position at which `k` can stand.
pub open spec fn rank<T: Ord>(s: Seq<T>, k: T) -> int
    decreases s.len(),
{
    if s.len() == 0 {
        0
    } else {
        rank(s.drop_last(), k) + if lt(s.last(), k) {
            1int
        } else {
            0int
        }
    }
}

/// A sorted `s` with `k` put in at its rank: before every element that is
/// not smaller.
pub open spec fn inserted<T: Ord>(s: Seq<T>, k: T) -> Seq<T> {
    s.insert(rank(s, k), k)
}

/// A sorted `s` without one occurrence of `k`, the one at the rank of `k`;
/// `s` itself where `k` does not occur. In a sequence that is not sorted the
/// element at the rank of `k` need not be `k`.
pub open spec fn removed<T: Ord>(s: Seq<T>, k: T) -> Seq<T> {
    if s.contains(k) {
        s.remove(rank(s, k))
    } else {
        s
    }
}

/// The rank is a position of the sequence, or its length.
pub proof fn lemma_rank_bounds<T: Ord>(s: Seq<T>, k: T)
    ensures
        0 <= rank(s, k) <= s.len(),
    decreases s.len(),
{
    if s.len() > 0 {
        lemma_rank_bounds(s.drop_last(), k);
    }
}

/// The rank in a concatenation is the sum of the ranks in its parts.
pub proof fn lemma_rank_concat<T: Ord>(a: Seq<T>, b: Seq<T>, k: T)
    ensures
        rank(a + b, k) == rank(a, k) + rank(b, k),
    decreases b.len(),
{
    if b.len() == 0 {
        assert(a + b =~= a);
    } else {
        assert((a + b).drop_last() =~= a + b.drop_last());
        lemma_rank_concat(a, b.drop_last(), k);
    }
}

/// Where every element comes before `k`, the rank is the length.
pub proof fn lemma_rank_all_before<T: Ord>(s: Seq<T>, k: T)
    requires
        forall|i: int| 0 <= i < s.len() ==> lt(#[trigger] s[i], k),
    ensures
        rank(s, k) == s.len(),
    decreases s.len(),
{
    if s.len() > 0 {
        lemma_rank_all_before(s.drop_last(), k);
    }
}

/// Where no element comes before `k`, the rank is 0.
pub proof fn lemma_rank_none_before<T: Ord>(s: Seq<T>, k: T)
    requires
        forall|i: int| 0 <= i < s.len() ==> !lt(#[trigger] s[i], k),
    ensures
        rank(s, k) == 0,
    decreases s.len(),
{
    if s.len() > 0 {
        lemma_rank_none_before(s.drop_last(), k);
    }
}

/// A position that parts the elements before `k` from the others is the rank.
pub proof fn lemma_rank_unique<T: Ord>(s: Seq<T>, k: T, p: int)
    requires
        0 <= p <= s.len(),
        forall|i: int| 0 <= i < p ==> lt(#[trigger] s[i], k),
        forall|i: int| p <= i < s.len() ==> !lt(#[trigger] s[i], k),
    ensures
        rank(s, k) == p,
{
    let a = s.subrange(0, p);
    let b = s.subrange(p, s.len() as int);
    assert(s =~= a + b);
    lemma_rank_concat(a, b, k);
    lemma_rank_all_before(a, k);
    lemma_rank_none_before(b, k);
}

/// In a sorted sequence the rank parts the elements before `k` from the others.
pub proof fn lemma_rank_parts<T: Ord + Clone>(s: Seq<T>, k: T)
    requires
        lawful::<T>(),
        sorted(s),
    ensures
        0 <= rank(s, k) <= s.len(),
        forall|i: int| 0 <= i < rank(s, k) ==> lt(#[trigger] s[i], k),
        forall|i: int| rank(s, k) <= i < s.len() ==> !lt(#[trigger] s[i], k),
    decreases s.len(),
{
    lemma_rank_bounds(s, k);
    if s.len() > 0 {
        let front = s.drop_last();
        let n = front.len() as int;
        lemma_subrange_sorted(s, 0, n);
        lemma_rank_parts(front, k);
        assert forall|i: int| 0 <= i < n implies front[i] == s[i] by {}
        if lt(s.last(), k) {
            assert forall|i: int| 0 <= i < n implies lt(#[trigger] front[i], k) by {
                assert(le(s[i], s[n]));
                lemma_transitive(front[i], s.last(), k);
            }
            lemma_rank_all_before(front, k);
            assert forall|i: int| 0 <= i < rank(s, k) implies lt(#[trigger] s[i], k) by {
                if i < n {
                    assert(lt(front[i], k));
                }
            }
        } else {
            assert forall|i: int| 0 <= i < rank(s, k) implies lt(#[trigger] s[i], k) by {
                assert(lt(front[i], k));
            }
            assert forall|i: int| rank(s, k) <= i < s.len() implies !lt(#[trigger] s[i], k) by {
                if i < n {
                    assert(!lt(front[i], k));
                }
            }
        }
    }
}

/// In a sorted sequence `k` occurs exactly when it stands at its rank.
pub proof fn lemma_rank_finds<T: Ord + Clone>(s: Seq<T>, k: T)
    requires
        lawful::<T>(),
        sorted(s),
    ensures
        s.contains(k) <==> (rank(s, k) < s.len() && s[rank(s, k)] == k),
{
    lemma_rank_parts(s, k);
    let r = rank(s, k);
    if s.contains(k) {
        let j = choose|j: int| 0 <= j < s.len() && s[j] == k;
        lemma_connected(k, k);
        assert(r <= j);
        if r < j {
            assert(le(s[r], s[j]));
            lemma_connected(s[r], k);
        }
    }
}

/// A stretch of a sorted sequence is sorted.
pub proof fn lemma_subrange_sorted<T: Ord>(s: Seq<T>, from: int, to: int)
    requires
        sorted(s),
        0 <= from <= to <= s.len(),
    ensures
        sorted(s.subrange(from, to)),
{
    let t = s.subrange(from, to);
    assert forall|i: int, j: int| 0 <= i < j < t.len() implies le(t[i], t[j]) by {
        assert(le(s[from + i], s[from + j]));
    }
}

/// An insertion keeps a sorted sequence sorted.
pub proof fn lemma_inserted_sorted<T: Ord + Clone>(s: Seq<T>, k: T)
    requires
        lawful::<T>(),
        sorted(s),
    ensures
        sorted(inserted(s, k)),
{
    lemma_rank_parts(s, k);
    let r = rank(s, k);
    let t = inserted(s, k);
    assert forall|i: int, j: int| 0 <= i < j < t.len() implies le(t[i], t[j]) by {
        if j < r {
            assert(le(s[i], s[j]));
        } else if j == r {
            assert(lt(s[i], k));
            lemma_connected(s[i], k);
        } else if i < r {
            assert(lt(s[i], k));
            assert(!lt(s[j - 1], k));
            lemma_transitive(s[j - 1], s[i], k);
        } else if i == r {
            assert(!lt(s[j - 1], k));
        } else {
            assert(le(s[i - 1], s[j - 1]));
        }
    }
}

/// A sorted sequence stays sorted when an element is taken out.
pub proof fn lemma_remove_sorted<T: Ord>(s: Seq<T>, at: int)
    requires
        sorted(s),
        0 <= at < s.len(),
    ensures
        sorted(s.remove(at)),
{
    let t = s.remove(at);
    assert forall|i: int, j: int| 0 <= i < j < t.len() implies le(t[i], t[j]) by {
        let a = if i < at { i } else { i + 1 };
        let b = if j < at { j } else { j + 1 };
        assert(le(s[a], s[b]));
    }
}

/// A deletion keeps a sorted sequence sorted.
pub proof fn lemma_removed_sorted<T: Ord + Clone>(s: Seq<T>, k: T)
    requires
        lawful::<T>(),
        sorted(s),
    ensures
        sorted(removed(s, k)),
{
    if s.contains(k) {
        lemma_rank_bounds(s, k);
        lemma_rank_finds(s, k);
        lemma_remove_sorted(s, rank(s, k));
    }
}

/// Taking any one occurrence of `k` out of a sorted sequence leaves the same
/// sequence as taking out the first.
pub proof fn lemma_remove_any<T: Ord + Clone>(s: Seq<T>, k: T, at: int)
    requires
        lawful::<T>(),
        sorted(s),
        0 <= at < s.len(),
        s[at] == k,
    ensures
        s.contains(k),
        s.remove(at) == removed(s, k),
{
    lemma_rank_parts(s, k);
    lemma_rank_finds(s, k);
    let r = rank(s, k);
    lemma_connected(k, k);
    assert(r <= at);
    assert forall|i: int| r <= i <= at implies s[i] == k by {
        if r < i {
            assert(le(s[r], s[i]));
        }
        if i < at {
            assert(le(s[i], s[at]));
        }
        lemma_connected(s[i], k);
    }
    assert(s.remove(at) =~= s.remove(r));
}

/// Where all that stands in front of a stretch of a sorted sequence comes
/// before `k`, and all that stands behind it comes after `k`: `k` occurs in
/// the sequence exactly when it occurs in the stretch, and taking it out of
/// the stretch takes it out of the sequence.
pub proof fn lemma_removed_within<T: Ord + Clone>(
    front: Seq<T>,
    mid: Seq<T>,
    back: Seq<T>,
    k: T,
)
    requires
        lawful::<T>(),
        sorted(front + mid + back),
        forall|p: int| 0 <= p < front.len() ==> lt(#[trigger] front[p], k),
        forall|p: int| 0 <= p < back.len() ==> lt(k, #[trigger] back[p]),
    ensures
        (front + mid + back).contains(k) <==> mid.contains(k),
        front + removed(mid, k) + back == removed(front + mid + back, k),
{
    let w = front + mid + back;
    lemma_connected(k, k);
    let from = front.len() as int;
    lemma_subrange_sorted(w, from, from + mid.len());
    assert(w.subrange(from, from + mid.len()) =~= mid);
    if w.contains(k) {
        let p = choose|p: int| 0 <= p < w.len() && w[p] == k;
        if p < front.len() {
            assert(front[p] == k);
        } else if p >= front.len() + mid.len() {
            assert(back[p - front.len() - mid.len()] == k);
        } else {
            assert(mid[p - front.len()] == k);
        }
    }
    if mid.contains(k) {
        let p = choose|p: int| 0 <= p < mid.len() && mid[p] == k;
        assert(w[front.len() + p] == k);
        assert forall|p: int| 0 <= p < back.len() implies !lt(#[trigger] back[p], k) by {
            lemma_connected(k, back[p]);
        }
        lemma_rank_concat(front + mid, back, k);
        lemma_rank_concat(front, mid, k);
        lemma_rank_all_before(front, k);
        lemma_rank_none_before(back, k);
        lemma_rank_finds(mid, k);
        lemma_rank_bounds(mid, k);
        let r = rank(mid, k);
        assert(front + mid.remove(r) + back =~= w.remove(front.len() + r));
    }
}

/// Where all that stands in front of a stretch of a sorted sequence comes
/// before `k`, and nothing that stands behind it does: putting `k` into the
/// stretch puts it into the sequence.
pub proof fn lemma_inserted_within<T: Ord + Clone>(
    front: Seq<T>,
    mid: Seq<T>,
    back: Seq<T>,
    k: T,
)
    requires
        forall|p: int| 0 <= p < front.len() ==> lt(#[trigger] front[p], k),
        forall|p: int| 0 <= p < back.len() ==> !lt(#[trigger] back[p], k),
    ensures
        front + inserted(mid, k) + back == inserted(front + mid + back, k),
{
    lemma_rank_concat(front + mid, back, k);
    lemma_rank_concat(front, mid, k);
    lemma_rank_all_before(front, k);
    lemma_rank_none_before(back, k);
    lemma_rank_bounds(mid, k);
    assert(front + inserted(mid, k) + back =~= inserted(front + mid + back, k));
}

/// Where `k` stands in a stretch of a sorted sequence, taking it out of the
/// stretch takes it out of the sequence.
pub proof fn lemma_removed_at<T: Ord + Clone>(
    front: Seq<T>,
    mid: Seq<T>,
    back: Seq<T>,
    k: T,
    at: int,
)
    requires
        lawful::<T>(),
        sorted(front + mid + back),
        0 <= at < mid.len(),
        mid[at] == k,
    ensures
        (front + mid + back).contains(k),
        front + removed(mid, k) + back == removed(front + mid + back, k),
{
    let w = front + mid + back;
    let from = front.len() as int;
    lemma_subrange_sorted(w, from, from + mid.len());
    assert(w.subrange(from, from + mid.len()) =~= mid);
    lemma_remove_any(mid, k, at);
    assert(w[from + at] == k);
    lemma_remove_any(w, k, from + at);
    assert(front + mid.remove(at) + back =~= w.remove(from + at));
}

} // verus!
