//! The table of tracker clients: for each live client, the parts it offers.
//! The table is a `slab::Slab`, which hands out the client ids.

use vstd::prelude::*;

verus! {

/// `slab::Slab`, declared so that a table can be held and handed on;
/// nothing is known of what is inside but through `table_entries`.
#[verifier::external_type_specification]
#[verifier::external_body]
#[verifier::reject_recursive_types(T)]
pub struct ExSlab<T>(slab::Slab<T>);

/// The table itself: a slab of offer lists.
pub type OfferTable = slab::Slab<Vec<crate::hash::Hash>>;

/// What a client table holds: the offers of each live client, by client id.
pub uninterp spec fn table_entries(table: OfferTable) -> Map<usize, Seq<crate::hash::Hash>>;

/// The contents of a table without clients.
pub open spec fn no_entries() -> Map<usize, Seq<crate::hash::Hash>> {
    Map::empty()
}

/// Calls `slab::Slab::new`: a table without clients.
#[verifier::external_body]
pub(crate) fn table_new() -> (r: OfferTable)
    ensures
        table_entries(r) == no_entries(),
{
    slab::Slab::new()
}

/// Calls `slab::Slab::insert`: files `offers` under a key that was vacant
/// and returns that key; the other entries stay as they were.
#[verifier::external_body]
pub(crate) fn table_insert(table: &mut OfferTable, offers: Vec<crate::hash::Hash>) -> (key: usize)
    ensures
        !table_entries(*old(table)).dom().contains(key),
        table_entries(*final(table)) == table_entries(*old(table)).insert(key, offers@),
{
    table.insert(offers)
}

/// Calls `slab::Slab::contains`: whether a value is filed under `key`.
#[verifier::external_body]
pub(crate) fn table_contains(table: &OfferTable, key: usize) -> (r: bool)
    ensures
        r == table_entries(*table).dom().contains(key),
{
    table.contains(key)
}

/// Calls `slab::Slab::get`: the value filed under `key`, if there is one.
#[verifier::external_body]
pub(crate) fn table_get(table: &OfferTable, key: usize) -> (r: Option<&Vec<crate::hash::Hash>>)
    ensures
        match r {
            Some(offers) => table_entries(*table).dom().contains(key) && offers@ == table_entries(*table)[key],
            None => !table_entries(*table).dom().contains(key),
        },
{
    table.get(key)
}

/// Calls `slab::Slab::try_remove`: takes out the value filed under `key`, if
/// there is one, and leaves the other entries as they were.
#[verifier::external_body]
pub(crate) fn table_try_remove(table: &mut OfferTable, key: usize) -> (r: Option<Vec<crate::hash::Hash>>)
    ensures
        match r {
            Some(offers) => table_entries(*old(table)).dom().contains(key) && offers@ == table_entries(*old(table))[key]
                && table_entries(*final(table)) == table_entries(*old(table)).remove(key),
            None => !table_entries(*old(table)).dom().contains(key) && table_entries(*final(table)) == table_entries(*old(table)),
        },
{
    table.try_remove(key)
}

/// Calls `slab::Slab::get_mut` and `std::mem::replace` on the slot it
/// returns: the value filed under `key` becomes `offers`, the value that was
/// there is handed back, and the other entries stay as they were.
#[verifier::external_body]
pub(crate) fn table_swap(table: &mut OfferTable, key: usize, offers: Vec<crate::hash::Hash>) -> (r: Vec<crate::hash::Hash>)
    requires
        table_entries(*old(table)).dom().contains(key),
    ensures
        r@ == table_entries(*old(table))[key],
        table_entries(*final(table)) == table_entries(*old(table)).insert(key, offers@),
{
    match table.get_mut(key) {
        Some(slot) => std::mem::replace(slot, offers),
        None => offers,
    }
}

} // verus!
