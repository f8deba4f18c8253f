use vstd::prelude::*;

use crate::models::order::Order;

verus! {

/// The order ledger is a `slab::Slab<Order>`: a pool that hands out a stable
/// integer index on insert, gives random access by index, and releases by
/// index, reusing released indices for later inserts. This declaration lets
/// the slab stand in fields and signatures; its contents are modelled by
/// [`slab_view`].
#[verifier::external_type_specification]
#[verifier::external_body]
#[verifier::reject_recursive_types(T)]
pub struct ExSlab<T>(slab::Slab<T>);

/// The ledger's storage type.
pub type OrderSlab = slab::Slab<Order>;

/// The occupied entries of the ledger, as a map from slab index to the order
/// stored there.
pub uninterp spec fn slab_view(s: OrderSlab) -> Map<usize, Order>;

/// Relies on `slab::Slab::new`: a fresh slab has no occupied entry.
#[verifier::external_body]
pub fn slab_new() -> (r: OrderSlab)
    ensures
        forall|k: usize| !slab_view(r).contains_key(k),
{
    slab::Slab::new()
}

/// Relies on `slab::Slab::insert`: the value is stored at a previously
/// vacant index, which is returned; every other entry is untouched.
#[verifier::external_body]
pub fn slab_insert(s: &mut OrderSlab, order: Order) -> (r: usize)
    ensures
        !slab_view(*old(s)).contains_key(r),
        slab_view(*final(s)) == slab_view(*old(s)).insert(r, order),
{
    s.insert(order)
}

/// Relies on `slab::Slab::remove`: the entry at an occupied index is taken
/// out and returned; every other entry is untouched. (`remove` panics on a
/// vacant index, so one is excluded here.)
#[verifier::external_body]
pub fn slab_remove(s: &mut OrderSlab, index: usize) -> (r: Order)
    requires
        slab_view(*old(s)).contains_key(index),
    ensures
        r == slab_view(*old(s))[index],
        slab_view(*final(s)) == slab_view(*old(s)).remove(index),
{
    s.remove(index)
}

/// Relies on `slab::Slab`'s `Index` impl: the entry at an occupied index.
/// (Indexing panics on a vacant index, so one is excluded here.)
#[verifier::external_body]
pub fn slab_get_copy(s: &OrderSlab, index: usize) -> (r: Order)
    requires
        slab_view(*s).contains_key(index),
    ensures
        r == slab_view(*s)[index],
{
    s[index].clone()
}

/// Relies on `slab::Slab`'s `IndexMut` impl: replaces the entry at an
/// occupied index; every other entry is untouched. (Indexing panics on a
/// vacant index, so one is excluded here.)
#[verifier::external_body]
pub fn slab_set(s: &mut OrderSlab, index: usize, order: Order)
    requires
        slab_view(*old(s)).contains_key(index),
    ensures
        slab_view(*final(s)) == slab_view(*old(s)).insert(index, order),
{
    s[index] = order;
}

} // verus!
