//! The approximate-membership filter each SST carries, held behind
//! trusted wrappers: it answers "is this user key definitely absent?".

use vstd::prelude::*;

verus! {

use tinysearch_cuckoofilter::CuckooFilter;
use crate::errors::Error;

#[verifier::external_type_specification]
#[verifier::external_body]
#[verifier::reject_recursive_types(H)]
pub struct ExCuckooFilter<H>(CuckooFilter<H>);

#[verifier::external_type_specification]
#[verifier::external_body]
pub struct ExFarmHasher(farmhash::FarmHasher);

/// What the filter holds: the set of 32-bit fingerprints added to it.
pub uninterp spec fn filter_items(f: CuckooFilter<farmhash::FarmHasher>) -> Set<u32>;

/// What the filter exports for storage: its raw fingerprint data and the
/// number of items it holds, both pure functions of the filter value.
pub uninterp spec fn filter_export_parts(f: CuckooFilter<farmhash::FarmHasher>) -> (Seq<u8>,
    u64);

/// Relies on tinysearch_cuckoofilter::CuckooFilter::with_capacity: a new
/// filter holds nothing.
#[verifier::external_body]
pub(crate) fn filter_new(capacity: usize) -> (f: CuckooFilter<farmhash::FarmHasher>)
    ensures
        forall|x: u32| !(#[trigger] filter_items(f).contains(x)),
{
    CuckooFilter::with_capacity(capacity)
}

/// Relies on tinysearch_cuckoofilter::CuckooFilter::add. The filter
/// stores one-byte fingerprints, so distinct values alias: storing one
/// item's fingerprint can make other values members too. On success,
/// therefore, only containment holds: everything that was a member stays
/// one, and the item becomes one. On a NotEnoughSpace failure the item's
/// fingerprint was stored but an arbitrary other fingerprint was
/// dropped, so nothing is promised of the contents.
#[verifier::external_body]
pub(crate) fn filter_add(f: &mut CuckooFilter<farmhash::FarmHasher>, item: u32) -> (r: Result<
    (), Error>)
    ensures
        r is Ok ==> filter_items(*old(f)).insert(item).subset_of(filter_items(*final(f))),
        r matches Err(e) ==> e is Filter,
{
    match f.add(&item) {
        Ok(()) => Ok(()),
        Err(_) => Err(Error::filter_error("filter is full")),
    }
}

/// Relies on tinysearch_cuckoofilter::CuckooFilter::contains: an item
/// that is in the filter is never reported absent.
#[verifier::external_body]
pub(crate) fn filter_contains(f: &CuckooFilter<farmhash::FarmHasher>, item: u32) -> (r: bool)
    ensures
        filter_items(*f).contains(item) ==> r,
{
    f.contains(&item)
}

/// Relies on tinysearch_cuckoofilter::CuckooFilter::export: hands out the
/// filter's raw fingerprint data and its item count, both determined by
/// the filter value alone.
#[verifier::external_body]
pub(crate) fn filter_export(f: &CuckooFilter<farmhash::FarmHasher>) -> (r: (Vec<u8>, u64))
    ensures
        (r.0@, r.1) == filter_export_parts(*f),
{
    let e = f.export();
    let n = e.length as u64;
    (e.values, n)
}

} // verus!
