use vstd::prelude::*;

verus! {

/// The first `n` parts, each followed by the key that stands behind it.
pub open spec fn before<T>(parts: Seq<Seq<T>>, keys: Seq<T>, n: int) -> Seq<T>
    decreases n,
{
    if n <= 0 {
        Seq::empty()
    } else {
        before(parts, keys, n - 1) + parts[n - 1] + seq![keys[n - 1]]
    }
}

/// What follows part `n`: each later key, followed by the part behind it.
pub open spec fn after<T>(parts: Seq<Seq<T>>, keys: Seq<T>, n: int) -> Seq<T>
    decreases keys.len() - n,
{
    if n >= keys.len() {
        Seq::empty()
    } else {
        seq![keys[n]] + parts[n + 1] + after(parts, keys, n + 1)
    }
}

/// The parts in order, with one key between each two neighbours:
/// `parts[0], keys[0], parts[1], .. , keys[n - 1], parts[n]`.
pub open spec fn weave<T>(parts: Seq<Seq<T>>, keys: Seq<T>) -> Seq<T> {
    before(parts, keys, keys.len() as int) + parts[keys.len() as int]
}

/// The weave, cut around any one of its parts.
pub proof fn lemma_weave_around<T>(parts: Seq<Seq<T>>, keys: Seq<T>, i: int)
    requires
        0 <= i <= keys.len(),
    ensures
        weave(parts, keys) == before(parts, keys, i) + parts[i] + after(parts, keys, i),
    decreases keys.len() - i,
{
    if i == keys.len() {
        assert(weave(parts, keys) =~= before(parts, keys, i) + parts[i] + after(parts, keys, i));
    } else {
        lemma_weave_around(parts, keys, i + 1);
        assert(before(parts, keys, i + 1) + parts[i + 1] + after(parts, keys, i + 1)
            =~= before(parts, keys, i) + parts[i] + after(parts, keys, i));
    }
}

/// `before` reads only the parts and keys in front of `n`.
pub proof fn lemma_before_same<T>(
    parts: Seq<Seq<T>>,
    keys: Seq<T>,
    parts2: Seq<Seq<T>>,
    keys2: Seq<T>,
    n: int,
)
    requires
        forall|j: int| 0 <= j < n ==> parts[j] == parts2[j] && keys[j] == keys2[j],
    ensures
        before(parts, keys, n) == before(parts2, keys2, n),
    decreases n,
{
    if n > 0 {
        lemma_before_same(parts, keys, parts2, keys2, n - 1);
    }
}

/// `after` reads only the keys from `n` on and the parts behind them, and
/// not where in the sequences they stand: `shift` is how far they have moved.
pub proof fn lemma_after_same<T>(
    parts: Seq<Seq<T>>,
    keys: Seq<T>,
    n: int,
    parts2: Seq<Seq<T>>,
    keys2: Seq<T>,
    shift: int,
)
    requires
        0 <= n,
        0 <= n + shift,
        keys2.len() == keys.len() + shift,
        forall|j: int| n <= j < keys.len() ==> #[trigger] keys[j] == keys2[j + shift],
        forall|j: int| n < j <= keys.len() ==> #[trigger] parts[j] == parts2[j + shift],
    ensures
        after(parts, keys, n) == after(parts2, keys2, n + shift),
    decreases keys.len() - n,
{
    if n < keys.len() {
        assert(keys[n] == keys2[n + shift]);
        assert(parts[n + 1] == parts2[n + 1 + shift]);
        lemma_after_same(parts, keys, n + 1, parts2, keys2, shift);
    }
}

/// Replacing one part replaces it in the weave and leaves the rest alone.
pub proof fn lemma_weave_update<T>(parts: Seq<Seq<T>>, keys: Seq<T>, i: int, part: Seq<T>)
    requires
        0 <= i <= keys.len(),
        parts.len() == keys.len() + 1,
    ensures
        weave(parts.update(i, part), keys) == before(parts, keys, i) + part + after(
            parts,
            keys,
            i,
        ),
{
    let parts2 = parts.update(i, part);
    lemma_weave_around(parts2, keys, i);
    lemma_before_same(parts, keys, parts2, keys, i);
    lemma_after_same(parts, keys, i, parts2, keys, 0);
}

/// Two weaves joined by a key are the weave of the joined parts and keys.
pub proof fn lemma_weave_concat<T>(
    parts: Seq<Seq<T>>,
    keys: Seq<T>,
    mid: T,
    parts2: Seq<Seq<T>>,
    keys2: Seq<T>,
)
    requires
        parts.len() == keys.len() + 1,
        parts2.len() == keys2.len() + 1,
    ensures
        weave(parts + parts2, keys + seq![mid] + keys2) == weave(parts, keys) + seq![mid] + weave(
            parts2,
            keys2,
        ),
{
    let all = parts + parts2;
    let ks = keys + seq![mid] + keys2;
    let n = keys.len() as int;
    lemma_weave_around(all, ks, n);
    lemma_before_same(parts, keys, all, ks, n);
    lemma_after_same(all, ks, n + 1, parts2, keys2, -(n + 1));
    lemma_weave_around(parts2, keys2, 0);
    assert(after(all, ks, n) == seq![mid] + parts2[0] + after(all, ks, n + 1));
    assert(before(parts2, keys2, 0) =~= Seq::<T>::empty());
    assert(weave(all, ks) =~= weave(parts, keys) + seq![mid] + weave(parts2, keys2));
}

/// Cutting part `i` in two around one of its elements, and giving that
/// element to the keys, leaves the weave as it was.
pub proof fn lemma_weave_split<T>(
    parts: Seq<Seq<T>>,
    keys: Seq<T>,
    i: int,
    left: Seq<T>,
    mid: T,
    right: Seq<T>,
)
    requires
        0 <= i <= keys.len(),
        parts.len() == keys.len() + 1,
        parts[i] == left + seq![mid] + right,
    ensures
        weave(parts.update(i, left).insert(i + 1, right), keys.insert(i, mid)) == weave(
            parts,
            keys,
        ),
{
    let parts2 = parts.update(i, left).insert(i + 1, right);
    let keys2 = keys.insert(i, mid);
    lemma_weave_around(parts, keys, i);
    lemma_weave_around(parts2, keys2, i);
    lemma_before_same(parts, keys, parts2, keys2, i);
    lemma_after_same(parts, keys, i, parts2, keys2, 1);
    assert(after(parts2, keys2, i) == seq![mid] + right + after(parts2, keys2, i + 1));
    assert(weave(parts2, keys2) =~= weave(parts, keys));
}

/// Joining parts `i` and `i + 1` around the key between them, and taking
/// that key from the keys, leaves the weave as it was.
pub proof fn lemma_weave_merge<T>(parts: Seq<Seq<T>>, keys: Seq<T>, i: int)
    requires
        0 <= i < keys.len(),
        parts.len() == keys.len() + 1,
    ensures
        weave(
            parts.update(i, parts[i] + seq![keys[i]] + parts[i + 1]).remove(i + 1),
            keys.remove(i),
        ) == weave(parts, keys),
{
    let joined = parts[i] + seq![keys[i]] + parts[i + 1];
    let parts2 = parts.update(i, joined).remove(i + 1);
    let keys2 = keys.remove(i);
    lemma_weave_split(parts2, keys2, i, parts[i], keys[i], parts[i + 1]);
    assert(parts2.update(i, parts[i]).insert(i + 1, parts[i + 1]) =~= parts);
    assert(keys2.insert(i, keys[i]) =~= keys);
}

/// Part `i` ends in an element `up` and a tail. Moving `up` into key `i`,
/// and that key with the tail in front of it to the front of part `i + 1`,
/// leaves the weave as it was.
pub proof fn lemma_weave_rotate_right<T>(
    parts: Seq<Seq<T>>,
    keys: Seq<T>,
    i: int,
    rest: Seq<T>,
    up: T,
    tail: Seq<T>,
)
    requires
        0 <= i < keys.len(),
        parts.len() == keys.len() + 1,
        parts[i] == rest + seq![up] + tail,
    ensures
        weave(
            parts.update(i, rest).update(i + 1, tail + seq![keys[i]] + parts[i + 1]),
            keys.update(i, up),
        ) == weave(parts, keys),
{
    let parts2 = parts.update(i, rest).update(i + 1, tail + seq![keys[i]] + parts[i + 1]);
    let keys2 = keys.update(i, up);
    lemma_weave_around(parts, keys, i);
    lemma_weave_around(parts2, keys2, i);
    lemma_before_same(parts, keys, parts2, keys2, i);
    lemma_after_same(parts, keys, i + 1, parts2, keys2, 0);
    assert(after(parts, keys, i) == seq![keys[i]] + parts[i + 1] + after(parts, keys, i + 1));
    assert(after(parts2, keys2, i) == seq![keys2[i]] + parts2[i + 1] + after(
        parts2,
        keys2,
        i + 1,
    ));
    assert(weave(parts2, keys2) =~= weave(parts, keys));
}

/// Part `i + 1` begins with a head and an element `up`. Moving `up` into
/// key `i`, and that key with the head behind it to the end of part `i`,
/// leaves the weave as it was.
pub proof fn lemma_weave_rotate_left<T>(
    parts: Seq<Seq<T>>,
    keys: Seq<T>,
    i: int,
    head: Seq<T>,
    up: T,
    rest: Seq<T>,
)
    requires
        0 <= i < keys.len(),
        parts.len() == keys.len() + 1,
        parts[i + 1] == head + seq![up] + rest,
    ensures
        weave(
            parts.update(i, parts[i] + seq![keys[i]] + head).update(i + 1, rest),
            keys.update(i, up),
        ) == weave(parts, keys),
{
    let parts2 = parts.update(i, parts[i] + seq![keys[i]] + head).update(i + 1, rest);
    let keys2 = keys.update(i, up);
    lemma_weave_around(parts, keys, i);
    lemma_weave_around(parts2, keys2, i);
    lemma_before_same(parts, keys, parts2, keys2, i);
    lemma_after_same(parts, keys, i + 1, parts2, keys2, 0);
    assert(after(parts, keys, i) == seq![keys[i]] + parts[i + 1] + after(parts, keys, i + 1));
    assert(after(parts2, keys2, i) == seq![keys2[i]] + parts2[i + 1] + after(
        parts2,
        keys2,
        i + 1,
    ));
    assert(weave(parts2, keys2) =~= weave(parts, keys));
}

/// Where key `i` stands in the weave.
pub open spec fn key_position<T>(parts: Seq<Seq<T>>, keys: Seq<T>, i: int) -> int {
    (before(parts, keys, i).len() + parts[i].len()) as int
}

/// Key `i` stands at its position in the weave; without it, the parts
/// on its two sides stand side by side.
pub proof fn lemma_key_position<T>(parts: Seq<Seq<T>>, keys: Seq<T>, i: int)
    requires
        0 <= i < keys.len(),
    ensures
        0 <= key_position(parts, keys, i) < weave(parts, keys).len(),
        weave(parts, keys)[key_position(parts, keys, i)] == keys[i],
        weave(parts, keys).remove(key_position(parts, keys, i)) == before(parts, keys, i)
            + parts[i] + parts[i + 1] + after(parts, keys, i + 1),
{
    lemma_weave_around(parts, keys, i);
    assert(after(parts, keys, i) == seq![keys[i]] + parts[i + 1] + after(parts, keys, i + 1));
    assert(weave(parts, keys).remove(key_position(parts, keys, i)) =~= before(parts, keys, i)
        + parts[i] + parts[i + 1] + after(parts, keys, i + 1));
}

/// Putting the last element of part `i` in the place of key `i` takes that
/// key out of the weave.
pub proof fn lemma_weave_key_from_left<T>(parts: Seq<Seq<T>>, keys: Seq<T>, i: int)
    requires
        0 <= i < keys.len(),
        parts.len() == keys.len() + 1,
        parts[i].len() > 0,
    ensures
        weave(parts.update(i, parts[i].drop_last()), keys.update(i, parts[i].last())) == weave(
            parts,
            keys,
        ).remove(key_position(parts, keys, i)),
{
    let parts2 = parts.update(i, parts[i].drop_last());
    let keys2 = keys.update(i, parts[i].last());
    lemma_key_position(parts, keys, i);
    lemma_weave_around(parts2, keys2, i);
    lemma_before_same(parts, keys, parts2, keys2, i);
    lemma_after_same(parts, keys, i + 1, parts2, keys2, 0);
    assert(after(parts2, keys2, i) == seq![keys2[i]] + parts2[i + 1] + after(
        parts2,
        keys2,
        i + 1,
    ));
    assert(parts[i] =~= parts[i].drop_last() + seq![parts[i].last()]);
    assert(weave(parts2, keys2) =~= before(parts, keys, i) + parts[i] + parts[i + 1] + after(
        parts,
        keys,
        i + 1,
    ));
}

/// Putting the first element of part `i + 1` in the place of key `i` takes
/// that key out of the weave.
pub proof fn lemma_weave_key_from_right<T>(parts: Seq<Seq<T>>, keys: Seq<T>, i: int)
    requires
        0 <= i < keys.len(),
        parts.len() == keys.len() + 1,
        parts[i + 1].len() > 0,
    ensures
        weave(
            parts.update(i + 1, parts[i + 1].drop_first()),
            keys.update(i, parts[i + 1].first()),
        ) == weave(parts, keys).remove(key_position(parts, keys, i)),
{
    let parts2 = parts.update(i + 1, parts[i + 1].drop_first());
    let keys2 = keys.update(i, parts[i + 1].first());
    lemma_key_position(parts, keys, i);
    lemma_weave_around(parts2, keys2, i);
    lemma_before_same(parts, keys, parts2, keys2, i);
    lemma_after_same(parts, keys, i + 1, parts2, keys2, 0);
    assert(after(parts2, keys2, i) == seq![keys2[i]] + parts2[i + 1] + after(
        parts2,
        keys2,
        i + 1,
    ));
    assert(parts[i + 1] =~= seq![parts[i + 1].first()] + parts[i + 1].drop_first());
    assert(weave(parts2, keys2) =~= before(parts, keys, i) + parts[i] + parts[i + 1] + after(
        parts,
        keys,
        i + 1,
    ));
}

} // verus!
