//! Slot identifier allocation on top of `slab`.
//!
//! The message queue correlates sub-requests with their response slots
//! through small integer identifiers.  Identifiers must be unique among
//! the live slots and may be reused once a slot has been emitted; the
//! `slab` crate's allocator provides exactly that.  The slab stores unit
//! values: it is used purely as a set of occupied keys, while the slot
//! payloads live in the queue itself.

use vstd::prelude::*;

verus! {

#[verifier::external_type_specification]
#[verifier::external_body]
#[verifier::reject_recursive_types(T)]
pub struct ExSlab<T>(slab::Slab<T>);

/// The set of keys currently occupied in an identifier slab.
pub uninterp spec fn slab_keys(s: slab::Slab<()>) -> Set<usize>;

/// Relies on slab::Slab::new: a fresh slab holds no entries.
#[verifier::external_body]
pub(crate) fn slab_new() -> (s: slab::Slab<()>)
    ensures
        slab_keys(s) == Set::<usize>::empty(),
        slab_keys(s).finite(),
{
    slab::Slab::new()
}

/// Relies on slab::Slab::insert: the key assigned to the inserted value
/// was vacant before the call and is occupied after it.
#[verifier::external_body]
pub(crate) fn slab_insert(s: &mut slab::Slab<()>) -> (k: usize)
    ensures
        !slab_keys(*old(s)).contains(k),
        slab_keys(*final(s)) == slab_keys(*old(s)).insert(k),
{
    s.insert(())
}

/// Relies on slab::Slab::try_remove: the key is vacated and may be
/// assigned again later; a vacant key is left alone.
#[verifier::external_body]
pub(crate) fn slab_release(s: &mut slab::Slab<()>, k: usize)
    ensures
        slab_keys(*final(s)) == slab_keys(*old(s)).remove(k),
{
    let _ = s.try_remove(k);
}

/// Relies on slab::Slab::contains: whether the key is occupied.
#[verifier::external_body]
pub(crate) fn slab_contains(s: &slab::Slab<()>, k: usize) -> (r: bool)
    ensures
        r == slab_keys(*s).contains(k),
{
    s.contains(k)
}

} // verus!
