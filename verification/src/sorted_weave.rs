use crate::order::{lawful, le, lemma_connected, lemma_transitive, lt};
use crate::sorted::{
    inserted, lemma_inserted_within, lemma_rank_parts, lemma_removed_within,
    lemma_subrange_sorted, rank, removed, sorted,
};
use crate::weave::{
    after, before, key_position, lemma_key_position, lemma_weave_around, lemma_weave_update,
    weave,
};
use vstd::prelude::*;

verus! {

/// What stands in front of a part does not get shorter from part to part.
pub proof fn lemma_before_grows<T>(parts: Seq<Seq<T>>, keys: Seq<T>, a: int, b: int)
    requires
        a <= b,
    ensures
        before(parts, keys, a).len() <= before(parts, keys, b).len(),
    decreases b - a,
{
    if a < b {
        lemma_before_grows(parts, keys, a, b - 1);
    }
}

/// The keys of a sorted weave are sorted.
pub proof fn lemma_weave_keys_sorted<T: Ord>(parts: Seq<Seq<T>>, keys: Seq<T>)
    requires
        sorted(weave(parts, keys)),
    ensures
        sorted(keys),
{
    let w = weave(parts, keys);
    assert forall|a: int, b: int| 0 <= a < b < keys.len() implies le(keys[a], keys[b]) by {
        lemma_key_position(parts, keys, a);
        lemma_key_position(parts, keys, b);
        lemma_before_grows(parts, keys, a + 1, b);
        assert(le(w[key_position(parts, keys, a)], w[key_position(parts, keys, b)]));
    }
}

/// Each part of a sorted weave is sorted.
pub proof fn lemma_weave_part_sorted<T: Ord>(parts: Seq<Seq<T>>, keys: Seq<T>, i: int)
    requires
        sorted(weave(parts, keys)),
        0 <= i <= keys.len(),
    ensures
        sorted(parts[i]),
{
    lemma_weave_around(parts, keys, i);
    let from = before(parts, keys, i).len() as int;
    let w = weave(parts, keys);
    lemma_subrange_sorted(w, from, from + parts[i].len());
    assert(w.subrange(from, from + parts[i].len()) =~= parts[i]);
}

/// In a sorted weave, cut at the rank of `k` among the keys: what stands in
/// front of that part comes before `k`, what stands behind it does not.
pub proof fn lemma_weave_around_rank<T: Ord + Clone>(parts: Seq<Seq<T>>, keys: Seq<T>, k: T)
    requires
        lawful::<T>(),
        sorted(weave(parts, keys)),
    ensures
        0 <= rank(keys, k) <= keys.len(),
        forall|p: int|
            0 <= p < before(parts, keys, rank(keys, k)).len() ==> lt(
                #[trigger] before(parts, keys, rank(keys, k))[p],
                k,
            ),
        forall|p: int|
            0 <= p < after(parts, keys, rank(keys, k)).len() ==> !lt(
                #[trigger] after(parts, keys, rank(keys, k))[p],
                k,
            ),
        rank(keys, k) == keys.len() || keys[rank(keys, k)] != k ==> forall|p: int|
            0 <= p < after(parts, keys, rank(keys, k)).len() ==> lt(
                k,
                #[trigger] after(parts, keys, rank(keys, k))[p],
            ),
{
    let i = rank(keys, k);
    let w = weave(parts, keys);
    let front = before(parts, keys, i);
    let back = after(parts, keys, i);
    lemma_weave_keys_sorted(parts, keys);
    lemma_rank_parts(keys, k);
    lemma_weave_around(parts, keys, i);
    assert forall|p: int| 0 <= p < front.len() implies lt(#[trigger] front[p], k) by {
        lemma_key_position(parts, keys, i - 1);
        let q = key_position(parts, keys, i - 1);
        assert(front[p] == w[p]);
        assert(lt(keys[i - 1], k));
        if p < q {
            assert(le(w[p], w[q]));
            lemma_transitive(w[p], w[q], k);
        }
    }
    assert forall|p: int| 0 <= p < back.len() implies !lt(#[trigger] back[p], k) by {
        lemma_key_position(parts, keys, i);
        let q = key_position(parts, keys, i);
        assert(back[p] == w[q + p]);
        assert(!lt(keys[i], k));
        if 0 < p {
            assert(le(w[q], w[q + p]));
            lemma_transitive(k, w[q], w[q + p]);
        }
    }
    if i == keys.len() || keys[i] != k {
        assert forall|p: int| 0 <= p < back.len() implies lt(k, #[trigger] back[p]) by {
            lemma_key_position(parts, keys, i);
            let q = key_position(parts, keys, i);
            assert(back[p] == w[q + p]);
            lemma_connected(keys[i], k);
            assert(lt(k, w[q]));
            if 0 < p {
                assert(le(w[q], w[q + p]));
                lemma_transitive(k, w[q], w[q + p]);
            }
        }
    }
}

/// Putting `k` into the part at its rank among the keys puts it into the
/// weave at its rank there.
pub proof fn lemma_insert_below<T: Ord + Clone>(parts: Seq<Seq<T>>, keys: Seq<T>, k: T)
    requires
        lawful::<T>(),
        parts.len() == keys.len() + 1,
        sorted(weave(parts, keys)),
    ensures
        weave(parts.update(rank(keys, k), inserted(parts[rank(keys, k)], k)), keys) == inserted(
            weave(parts, keys),
            k,
        ),
{
    let i = rank(keys, k);
    lemma_weave_around_rank(parts, keys, k);
    lemma_weave_around(parts, keys, i);
    lemma_weave_update(parts, keys, i, inserted(parts[i], k));
    lemma_inserted_within(before(parts, keys, i), parts[i], after(parts, keys, i), k);
}

/// Where `k` is none of the keys, it occurs in the weave exactly when it
/// occurs in the part at its rank among the keys, and taking it out of that
/// part takes it out of the weave.
pub proof fn lemma_remove_below<T: Ord + Clone>(parts: Seq<Seq<T>>, keys: Seq<T>, k: T)
    requires
        lawful::<T>(),
        parts.len() == keys.len() + 1,
        sorted(weave(parts, keys)),
        rank(keys, k) == keys.len() || keys[rank(keys, k)] != k,
    ensures
        weave(parts, keys).contains(k) <==> parts[rank(keys, k)].contains(k),
        weave(parts.update(rank(keys, k), removed(parts[rank(keys, k)], k)), keys) == removed(
            weave(parts, keys),
            k,
        ),
{
    let i = rank(keys, k);
    lemma_weave_around_rank(parts, keys, k);
    lemma_weave_around(parts, keys, i);
    lemma_weave_update(parts, keys, i, removed(parts[i], k));
    lemma_removed_within(before(parts, keys, i), parts[i], after(parts, keys, i), k);
}

} // verus!
