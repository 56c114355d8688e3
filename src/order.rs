//! The access order of a list of keys, kept by `linked_hash_map`.
use linked_hash_map::LinkedHashMap;
use vstd::prelude::*;

verus! {

#[verifier::external_type_specification]
#[verifier::external_body]
#[verifier::reject_recursive_types(K)]
#[verifier::reject_recursive_types(V)]
#[verifier::reject_recursive_types(S)]
pub struct ExLinkedHashMap<K, V, S>(LinkedHashMap<K, V, S>);

/// The keys of a map, least recently touched first.
pub uninterp spec fn keys_in_order(m: LinkedHashMap<u64, ()>) -> Seq<u64>;

/// Relies on `LinkedHashMap::with_capacity`: a new map holds no key.
#[verifier::external_body]
pub(crate) fn order_new(capacity: usize) -> (r: LinkedHashMap<u64, ()>)
    ensures
        keys_in_order(r) == Seq::<u64>::empty(),
{
    LinkedHashMap::with_capacity(capacity)
}

/// Relies on `LinkedHashMap::insert`: a key already there is moved to the
/// back (most recently touched), a new key is appended at the back; the
/// result says whether the key was there.
#[verifier::external_body]
pub(crate) fn order_insert(m: &mut LinkedHashMap<u64, ()>, k: u64) -> (r: bool)
    ensures
        r == keys_in_order(*old(m)).contains(k),
        keys_in_order(*final(m)) == keys_in_order(*old(m)).remove_value(k).push(k),
{
    m.insert(k, ()).is_some()
}

/// Relies on `LinkedHashMap::contains_key`: whether the key is there.
#[verifier::external_body]
pub(crate) fn order_contains(m: &LinkedHashMap<u64, ()>, k: u64) -> (r: bool)
    ensures
        r == keys_in_order(*m).contains(k),
{
    m.contains_key(&k)
}

/// Relies on `LinkedHashMap::remove`: the key leaves, the others keep their
/// order; the result says whether the key was there.
#[verifier::external_body]
pub(crate) fn order_remove(m: &mut LinkedHashMap<u64, ()>, k: u64) -> (r: bool)
    ensures
        r == keys_in_order(*old(m)).contains(k),
        keys_in_order(*final(m)) == keys_in_order(*old(m)).remove_value(k),
{
    m.remove(&k).is_some()
}

/// Relies on `LinkedHashMap::pop_front`: removes and returns the least
/// recently touched key, `None` on an empty map.
#[verifier::external_body]
pub(crate) fn order_pop_front(m: &mut LinkedHashMap<u64, ()>) -> (r: Option<u64>)
    ensures
        keys_in_order(*old(m)).len() == 0 ==> r is None && keys_in_order(*final(m))
            == keys_in_order(*old(m)),
        keys_in_order(*old(m)).len() > 0 ==> r == Some(keys_in_order(*old(m))[0])
            && keys_in_order(*final(m)) == keys_in_order(*old(m)).drop_first(),
{
    m.pop_front().map(|e| e.0)
}

/// Relies on `LinkedHashMap::len`: the number of keys.
#[verifier::external_body]
pub(crate) fn order_len(m: &LinkedHashMap<u64, ()>) -> (r: usize)
    ensures
        r == keys_in_order(*m).len(),
{
    m.len()
}

/// Relies on `LinkedHashMap::clone`: the copy holds the same keys in the
/// same order.
#[verifier::external_body]
pub(crate) fn order_clone(m: &LinkedHashMap<u64, ()>) -> (r: LinkedHashMap<u64, ()>)
    ensures
        keys_in_order(r) == keys_in_order(*m),
{
    m.clone()
}

} // verus!
