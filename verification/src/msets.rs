//! Trusted view of the `mset` crate's `MultiSet`, which holds the transaction
//! hashes that touched an address, with multiplicity.
//!
//! `mset::MultiSet` keeps a hash map from element to a strictly positive
//! count; the wrappers below state, over the abstract contents
//! `tx_multiset`, exactly what its source shows for each call.

use vstd::prelude::*;
use vstd::multiset::Multiset;

verus! {

#[verifier::external_type_specification]
#[verifier::external_body]
#[verifier::reject_recursive_types(T)]
#[verifier::reject_recursive_types(S)]
pub struct ExMultiSet<T, S>(mset::MultiSet<T, S>);

/// The abstract contents of a multiset of transaction hashes.
pub uninterp spec fn tx_multiset(m: mset::MultiSet<u64>) -> Multiset<u64>;

/// Relies on mset::MultiSet::new: a fresh multiset holds nothing.
#[verifier::external_body]
pub(crate) fn mset_new() -> (r: mset::MultiSet<u64>)
    ensures
        tx_multiset(r) == Multiset::<u64>::empty(),
{
    mset::MultiSet::new()
}

/// Relies on mset::MultiSet::insert: raises the element's count by one and
/// returns whether the element was absent before. The count is stored as a
/// machine word, so a full count cannot be raised further.
#[verifier::external_body]
pub(crate) fn mset_insert(m: &mut mset::MultiSet<u64>, v: u64) -> (r: bool)
    requires
        tx_multiset(*old(m)).count(v) < usize::MAX,
    ensures
        tx_multiset(*final(m)) == tx_multiset(*old(m)).insert(v),
        r <==> tx_multiset(*old(m)).count(v) == 0,
{
    m.insert(v)
}

/// Relies on mset::MultiSet::remove: lowers a present element's count by one
/// and returns whether the element was present; an absent element leaves the
/// multiset unchanged.
#[verifier::external_body]
pub(crate) fn mset_remove(m: &mut mset::MultiSet<u64>, v: u64) -> (r: bool)
    ensures
        tx_multiset(*final(m)) == tx_multiset(*old(m)).remove(v),
        r <==> tx_multiset(*old(m)).count(v) > 0,
{
    m.remove(&v)
}

/// Relies on mset::MultiSet::get: the stored count of an element, where an
/// absent element reports no count (counts held are strictly positive).
#[verifier::external_body]
pub(crate) fn mset_count(m: &mset::MultiSet<u64>, v: u64) -> (r: usize)
    ensures
        r == tx_multiset(*m).count(v),
{
    m.get(&v).unwrap_or(0)
}

/// Relies on mset::MultiSet::is_empty: the element-to-count map is empty
/// exactly when no element has a positive count.
#[verifier::external_body]
pub(crate) fn mset_is_empty(m: &mset::MultiSet<u64>) -> (r: bool)
    ensures
        r <==> tx_multiset(*m) == Multiset::<u64>::empty(),
{
    m.is_empty()
}

/// Relies on mset::MultiSet::distinct_elements: one entry for each element
/// with a positive count, in no promised order.
#[verifier::external_body]
pub(crate) fn mset_distinct(m: &mset::MultiSet<u64>) -> (r: Vec<u64>)
    ensures
        forall|x: u64| #[trigger] r@.contains(x) <==> tx_multiset(*m).count(x) > 0,
        r@.no_duplicates(),
{
    m.distinct_elements().copied().collect()
}

/// Relies on mset::MultiSet::clone (derived): the clone holds the same
/// element counts.
#[verifier::external_body]
pub(crate) fn mset_clone(m: &mset::MultiSet<u64>) -> (r: mset::MultiSet<u64>)
    ensures
        tx_multiset(r) == tx_multiset(*m),
{
    m.clone()
}

} // verus!
