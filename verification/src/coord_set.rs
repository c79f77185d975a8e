//! A hash set of chunk coordinates, used for constant-time membership tests.
//!
//! The set itself is `bevy_utils::HashSet`; nothing in this file is proved.
//! Each function below states what the corresponding method of the set does
//! to its contents, as the set's documentation describes it.

use vstd::prelude::*;

verus! {

/// A `bevy_utils::HashSet` of coordinate triples. Its contents are opaque to
/// the verifier and are spoken of through [`coord_set_contents`].
#[verifier::external_body]
pub struct CoordSet {
    inner: bevy_utils::HashSet<(i64, i64, i64)>,
}

/// The triples that a [`CoordSet`] holds.
pub uninterp spec fn coord_set_contents(set: CoordSet) -> Set<(i64, i64, i64)>;

/// `HashSet::default`: a new set, which holds nothing.
#[verifier::external_body]
pub(crate) fn coord_set_new() -> (set: CoordSet)
    ensures
        coord_set_contents(set) == Set::<(i64, i64, i64)>::empty(),
{
    CoordSet { inner: bevy_utils::HashSet::default() }
}

/// `HashSet::contains`: whether the set holds the triple.
#[verifier::external_body]
pub(crate) fn coord_set_contains(set: &CoordSet, x: i64, y: i64, z: i64) -> (found: bool)
    ensures
        found == coord_set_contents(*set).contains((x, y, z)),
{
    set.inner.contains(&(x, y, z))
}

/// `HashSet::insert`: adds the triple to the set, and returns whether the set
/// did not hold it before.
#[verifier::external_body]
pub(crate) fn coord_set_insert(set: &mut CoordSet, x: i64, y: i64, z: i64) -> (fresh: bool)
    ensures
        coord_set_contents(*final(set)) == coord_set_contents(*old(set)).insert((x, y, z)),
        fresh == !coord_set_contents(*old(set)).contains((x, y, z)),
{
    set.inner.insert((x, y, z))
}

/// `HashSet::remove`: takes the triple out of the set, and returns whether the
/// set held it before.
#[verifier::external_body]
pub(crate) fn coord_set_remove(set: &mut CoordSet, x: i64, y: i64, z: i64) -> (present: bool)
    ensures
        coord_set_contents(*final(set)) == coord_set_contents(*old(set)).remove((x, y, z)),
        present == coord_set_contents(*old(set)).contains((x, y, z)),
{
    set.inner.remove(&(x, y, z))
}

} // verus!
