//! Insertion-ordered string sets from the `indexmap` crate, as the palette
//! writers use them to number the distinct entries in first-use order.

use vstd::prelude::*;
use indexmap::IndexSet;

verus! {

#[verifier::external_type_specification]
#[verifier::external_body]
#[verifier::reject_recursive_types(T)]
#[verifier::reject_recursive_types(S)]
pub struct ExIndexSet<T, S>(IndexSet<T, S>);

/// The strings an `IndexSet<String>` holds, in insertion order.
pub uninterp spec fn index_set_items(s: IndexSet<String>) -> Seq<Seq<char>>;

/// `IndexSet::new`: an empty set.
#[verifier::external_body]
pub fn index_set_new() -> (s: IndexSet<String>)
    ensures
        index_set_items(s) == Seq::<Seq<char>>::empty(),
{
    IndexSet::new()
}

/// `IndexSet::insert_full`: when an equal string is present, its index and
/// `false`, the set unchanged; otherwise the string is appended and its
/// index (the old length) is returned with `true`.
#[verifier::external_body]
pub fn index_set_insert_full(s: &mut IndexSet<String>, value: String) -> (r: (usize, bool))
    ensures
        index_set_items(*old(s)).contains(value@) ==> {
            &&& r.1 == false
            &&& r.0 < index_set_items(*old(s)).len()
            &&& index_set_items(*old(s))[r.0 as int] == value@
            &&& index_set_items(*final(s)) == index_set_items(*old(s))
        },
        !index_set_items(*old(s)).contains(value@) ==> {
            &&& r.1 == true
            &&& r.0 == index_set_items(*old(s)).len()
            &&& index_set_items(*final(s)) == index_set_items(*old(s)).push(value@)
        },
{
    s.insert_full(value)
}

/// The set's strings in insertion order (`IntoIterator` for `IndexSet`).
#[verifier::external_body]
pub fn index_set_into_vec(s: IndexSet<String>) -> (r: Vec<String>)
    ensures
        r@.map_values(|x: String| x@) == index_set_items(s),
{
    s.into_iter().collect()
}

} // verus!
