use vstd::prelude::*;
use crate::utility::borrow_state::BorrowState;

verus! {

// The borrow protocol of a resource store: the store's own state guards its collection,
// and each resource has a state of its own. Reading or writing one resource only borrows
// the collection shared, so that it stays put; changing the collection borrows it
// exclusively.

/// Takes a shared lock on one resource: the collection and the resource are both borrowed
/// shared.
pub fn lock_shared(store: &mut BorrowState, resource: &mut BorrowState)
    requires
        old(store)@ >= 0,
        old(store)@ < isize::MAX,
        old(resource)@ >= 0,
        old(resource)@ < isize::MAX,
    ensures
        final(store)@ == old(store)@ + 1,
        final(resource)@ == old(resource)@ + 1,
{
    store.borrow();
    resource.borrow();
}

/// Releases a shared lock on one resource.
pub fn unlock_shared(store: &mut BorrowState, resource: &mut BorrowState)
    requires
        old(store)@ >= 1,
        old(resource)@ >= 1,
    ensures
        final(store)@ == old(store)@ - 1,
        final(resource)@ == old(resource)@ - 1,
{
    resource.unborrow();
    store.unborrow();
}

/// Takes an exclusive lock on one resource: the collection is borrowed shared, the
/// resource exclusively.
pub fn lock_exclusive(store: &mut BorrowState, resource: &mut BorrowState)
    requires
        old(store)@ >= 0,
        old(store)@ < isize::MAX,
        old(resource)@ == 0,
    ensures
        final(store)@ == old(store)@ + 1,
        final(resource)@ == -1,
{
    store.borrow();
    resource.borrow_mut();
}

/// Releases an exclusive lock on one resource.
pub fn unlock_exclusive(store: &mut BorrowState, resource: &mut BorrowState)
    requires
        old(store)@ >= 1,
        old(resource)@ == -1,
    ensures
        final(store)@ == old(store)@ - 1,
        final(resource)@ == 0,
{
    resource.unborrow_mut();
    store.unborrow();
}

/// Locks the whole collection exclusively, for a change to it.
pub fn lock_collection(store: &mut BorrowState)
    requires
        old(store)@ == 0,
    ensures
        final(store)@ == -1,
{
    store.borrow_mut();
}

/// Releases the exclusive lock on the whole collection.
pub fn unlock_collection(store: &mut BorrowState)
    requires
        old(store)@ == -1,
    ensures
        final(store)@ == 0,
{
    store.unborrow_mut();
}

/// Releasing an exclusive lock on a resource undoes taking it, and while it is held the
/// collection counts as borrowed, so it cannot be changed, and no other lock on the resource
/// can be taken.
pub proof fn lemma_exclusive_lock_roundtrip(
    store0: BorrowState, resource0: BorrowState,
    store1: BorrowState, resource1: BorrowState,
    store2: BorrowState, resource2: BorrowState,
)
    requires
        store0@ >= 0,
        resource0@ == 0,
        store1@ == store0@ + 1,
        resource1@ == -1,
        store2@ == store1@ - 1,
        resource2@ == 0,
    ensures
        store2@ == store0@,
        resource2@ == resource0@,
        store1@ != 0,
        resource1@ < 0,
{
}

/// Releasing a shared lock on a resource undoes taking it, and while it is held neither the
/// collection nor the resource can be locked exclusively.
pub proof fn lemma_shared_lock_roundtrip(
    store0: BorrowState, resource0: BorrowState,
    store1: BorrowState, resource1: BorrowState,
    store2: BorrowState, resource2: BorrowState,
)
    requires
        store0@ >= 0,
        resource0@ >= 0,
        store1@ == store0@ + 1,
        resource1@ == resource0@ + 1,
        store2@ == store1@ - 1,
        resource2@ == resource1@ - 1,
    ensures
        store2@ == store0@,
        resource2@ == resource0@,
        store1@ != 0,
        resource1@ != 0,
{
}

} // verus!
