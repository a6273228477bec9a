use core::cmp::Ordering;
use vstd::prelude::*;
use vstd::std_specs::cmp::OrdSpec;

verus! {

/// `a` comes strictly before `b` in the key order.
pub open spec fn lt<T: Ord>(a: T, b: T) -> bool {
    a.cmp_spec(&b) == Ordering::Less
}

/// `a` does not come after `b`.
pub open spec fn le<T: Ord>(a: T, b: T) -> bool {
    !lt(b, a)
}

/// What the tree asks of its key type: the comparison is a total order, two
/// keys that compare equal are the same value, and a clone of a key is that key.
pub open spec fn lawful<T: Ord + Clone>() -> bool {
    &&& vstd::laws_cmp::obeys_cmp::<T>()
    &&& vstd::laws_eq::obeys_concrete_eq::<T>()
    &&& forall|a: T, b: T| #[trigger] cloned(a, b) ==> a == b
}

proof fn lemma_three_way<T: Ord + Clone>(a: T, b: T)
    requires
        lawful::<T>(),
    ensures
        T::obeys_cmp_spec(),
        a.cmp_spec(&b) == Ordering::Equal <==> a == b,
        a.cmp_spec(&b) == Ordering::Greater <==> lt(b, a),
{
    reveal(vstd::laws_cmp::obeys_cmp_ord);
    reveal(vstd::laws_cmp::obeys_cmp_partial_ord);
    reveal(vstd::laws_cmp::obeys_partial_cmp_spec_properties);
    reveal(vstd::laws_eq::obeys_concrete_eq);
    reveal(vstd::laws_eq::obeys_eq_spec_properties);
}

/// The order is strict and connected: no key comes before itself, of two
/// different keys exactly one comes first.
pub proof fn lemma_connected<T: Ord + Clone>(a: T, b: T)
    requires
        lawful::<T>(),
    ensures
        !lt(a, a),
        lt(a, b) || a == b || lt(b, a),
        lt(a, b) ==> !lt(b, a),
        le(a, a),
        le(a, b) && le(b, a) ==> a == b,
{
    lemma_three_way(a, b);
    lemma_three_way(a, a);
}

/// The order is transitive, in each mix of strict and weak steps.
pub proof fn lemma_transitive<T: Ord + Clone>(a: T, b: T, c: T)
    requires
        lawful::<T>(),
    ensures
        lt(a, b) && lt(b, c) ==> lt(a, c),
        le(a, b) && lt(b, c) ==> lt(a, c),
        lt(a, b) && le(b, c) ==> lt(a, c),
        le(a, b) && le(b, c) ==> le(a, c),
{
    lemma_three_way(a, b);
    lemma_three_way(b, c);
    lemma_three_way(a, c);
    lemma_three_way(c, a);
    lemma_three_way(b, a);
    lemma_three_way(c, b);
    reveal(vstd::laws_cmp::obeys_cmp_ord);
    reveal(vstd::laws_cmp::obeys_cmp_partial_ord);
    reveal(vstd::laws_cmp::obeys_partial_cmp_spec_properties);
}

/// Where one key stands relative to another.
pub enum Side {
    Before,
    Same,
    After,
}

/// Compares two keys with the key type's own `cmp`.
pub fn compare<T: Ord + Clone>(a: &T, b: &T) -> (r: Side)
    requires
        lawful::<T>(),
    ensures
        r is Before <==> lt(*a, *b),
        r is Same <==> *a == *b,
        r is After <==> lt(*b, *a),
{
    proof {
        lemma_three_way(*a, *b);
    }
    match a.cmp(b) {
        Ordering::Less => Side::Before,
        Ordering::Equal => Side::Same,
        Ordering::Greater => Side::After,
    }
}

/// A copy of a key, made with the key type's own `clone`.
pub fn duplicate<T: Ord + Clone>(a: &T) -> (r: T)
    requires
        lawful::<T>(),
    ensures
        r == *a,
{
    let r = a.clone();
    assert(cloned(*a, r));
    r
}

/// `u8` is a lawful key type.
pub proof fn lemma_lawful_u8()
    ensures
        lawful::<u8>(),
{
    broadcast use vstd::laws_cmp::group_laws_cmp;
    broadcast use vstd::laws_eq::group_laws_eq;
}

/// `u16` is a lawful key type.
pub proof fn lemma_lawful_u16()
    ensures
        lawful::<u16>(),
{
    broadcast use vstd::laws_cmp::group_laws_cmp;
    broadcast use vstd::laws_eq::group_laws_eq;
}

/// `u32` is a lawful key type.
pub proof fn lemma_lawful_u32()
    ensures
        lawful::<u32>(),
{
    broadcast use vstd::laws_cmp::group_laws_cmp;
    broadcast use vstd::laws_eq::group_laws_eq;
}

/// `u64` is a lawful key type.
pub proof fn lemma_lawful_u64()
    ensures
        lawful::<u64>(),
{
    broadcast use vstd::laws_cmp::group_laws_cmp;
    broadcast use vstd::laws_eq::group_laws_eq;
}

/// `u128` is a lawful key type.
pub proof fn lemma_lawful_u128()
    ensures
        lawful::<u128>(),
{
    broadcast use vstd::laws_cmp::group_laws_cmp;
    broadcast use vstd::laws_eq::group_laws_eq;
}

/// `usize` is a lawful key type.
pub proof fn lemma_lawful_usize()
    ensures
        lawful::<usize>(),
{
    broadcast use vstd::laws_cmp::group_laws_cmp;
    broadcast use vstd::laws_eq::group_laws_eq;
}

/// `i8` is a lawful key type.
pub proof fn lemma_lawful_i8()
    ensures
        lawful::<i8>(),
{
    broadcast use vstd::laws_cmp::group_laws_cmp;
    broadcast use vstd::laws_eq::group_laws_eq;
}

/// `i16` is a lawful key type.
pub proof fn lemma_lawful_i16()
    ensures
        lawful::<i16>(),
{
    broadcast use vstd::laws_cmp::group_laws_cmp;
    broadcast use vstd::laws_eq::group_laws_eq;
}

/// `i32` is a lawful key type.
pub proof fn lemma_lawful_i32()
    ensures
        lawful::<i32>(),
{
    broadcast use vstd::laws_cmp::group_laws_cmp;
    broadcast use vstd::laws_eq::group_laws_eq;
}

/// `i64` is a lawful key type.
pub proof fn lemma_lawful_i64()
    ensures
        lawful::<i64>(),
{
    broadcast use vstd::laws_cmp::group_laws_cmp;
    broadcast use vstd::laws_eq::group_laws_eq;
}

/// `i128` is a lawful key type.
pub proof fn lemma_lawful_i128()
    ensures
        lawful::<i128>(),
{
    broadcast use vstd::laws_cmp::group_laws_cmp;
    broadcast use vstd::laws_eq::group_laws_eq;
}

/// `isize` is a lawful key type.
pub proof fn lemma_lawful_isize()
    ensures
        lawful::<isize>(),
{
    broadcast use vstd::laws_cmp::group_laws_cmp;
    broadcast use vstd::laws_eq::group_laws_eq;
}

} // verus!
