use vstd::prelude::*;
use ahash::HashSetExt;
use ahash::RandomState;
use std::collections::HashSet;

verus! {

/// The hasher state of the `ahash` crate; the sets of cells below are hashed
/// with it. Nothing is known of what it holds.
#[verifier::external_type_specification]
#[verifier::external_body]
pub struct ExRandomState(RandomState);

/// The cells that a set of cells holds.
pub uninterp spec fn marked(set: HashSet<(u8, u8), RandomState>) -> Set<(u8, u8)>;

/// Calls `ahash::HashSetExt::new`, which makes an empty set.
#[verifier::external_body]
pub(crate) fn marks_new() -> (set: HashSet<(u8, u8), RandomState>)
    ensures
        marked(set) == Set::<(u8, u8)>::empty(),
{
    <HashSet<(u8, u8), RandomState> as HashSetExt>::new()
}

/// Calls `HashSet::contains`: whether the set holds `cell`.
#[verifier::external_body]
pub(crate) fn marks_contains(set: &HashSet<(u8, u8), RandomState>, cell: (u8, u8)) -> (found: bool)
    ensures
        found == marked(*set).contains(cell),
{
    set.contains(&cell)
}

/// Calls `HashSet::insert`: afterwards the set holds `cell` besides what it
/// held.
#[verifier::external_body]
pub(crate) fn marks_insert(set: &mut HashSet<(u8, u8), RandomState>, cell: (u8, u8))
    ensures
        marked(*final(set)) == marked(*old(set)).insert(cell),
{
    set.insert(cell);
}

} // verus!
