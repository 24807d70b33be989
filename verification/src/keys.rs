//! What the cache asks of a key type.
use vstd::laws_cmp::obeys_cmp;
use vstd::laws_eq::obeys_concrete_eq;
use vstd::prelude::*;

verus! {

/// Keys are totally ordered, `==` on them decides equality, and a clone of a
/// key is that key.
pub open spec fn key_model<K: Ord + Clone>() -> bool {
    &&& obeys_cmp::<K>()
    &&& obeys_concrete_eq::<K>()
    &&& forall|a: K, b: K| cloned(a, b) ==> a == b
}

/// Whether two keys are the same key.
pub fn same_key<K: Ord + Clone>(a: &K, b: &K) -> (same: bool)
    requires
        key_model::<K>(),
    ensures
        same == (*a == *b),
{
    proof {
        reveal(obeys_concrete_eq);
    }
    *a == *b
}

/// A second handle on a key, for the structure that does not own the first.
pub fn copy_key<K: Ord + Clone>(key: &K) -> (copy: K)
    requires
        key_model::<K>(),
    ensures
        copy == *key,
{
    let copy = key.clone();
    assert(cloned(*key, copy));
    copy
}

/// Unsigned 64-bit integers are keys.
pub proof fn lemma_u64_is_key()
    ensures
        key_model::<u64>(),
{
    broadcast use vstd::laws_cmp::group_laws_cmp;
    broadcast use vstd::laws_eq::group_laws_eq;
}

/// Pointer-sized unsigned integers are keys.
pub proof fn lemma_usize_is_key()
    ensures
        key_model::<usize>(),
{
    broadcast use vstd::laws_cmp::group_laws_cmp;
    broadcast use vstd::laws_eq::group_laws_eq;
}

} // verus!
