use toybox::utility::BorrowState;
use toybox::utility::resource_lock::{lock_shared, unlock_shared, lock_exclusive, unlock_exclusive, lock_collection, unlock_collection};
use toybox::utility::resource_scope::{alive_from_count, partition_by_liveness, ResourceScopeAllocator, ResourceScopeID};

#[test]
fn borrow_state_starts_unborrowed() {
    let s = BorrowState::new();
    assert!(!s.is_borrowed());
}

#[test]
fn shared_borrows_count_up_and_down() {
    let mut s = BorrowState::new();
    s.borrow();
    s.borrow();
    assert!(s.is_borrowed());
    s.unborrow();
    assert!(s.is_borrowed());
    s.unborrow();
    assert!(!s.is_borrowed());
}

#[test]
fn exclusive_borrow_roundtrip() {
    let mut s = BorrowState::new();
    s.borrow_mut();
    assert!(s.is_borrowed());
    s.unborrow_mut();
    assert!(!s.is_borrowed());
    // A shared borrow is allowed again afterwards.
    s.borrow();
    assert!(s.is_borrowed());
}

#[test]
fn resource_locks_release_what_they_take() {
    let mut store = BorrowState::new();
    let mut a = BorrowState::new();
    let mut b = BorrowState::new();
    lock_shared(&mut store, &mut a);
    lock_exclusive(&mut store, &mut b);
    assert!(store.is_borrowed() && a.is_borrowed() && b.is_borrowed());
    unlock_exclusive(&mut store, &mut b);
    assert!(!b.is_borrowed());
    assert!(store.is_borrowed());
    unlock_shared(&mut store, &mut a);
    assert!(!store.is_borrowed() && !a.is_borrowed());
    lock_collection(&mut store);
    assert!(store.is_borrowed());
    unlock_collection(&mut store);
    assert!(!store.is_borrowed());
}

#[test]
fn allocator_hands_out_increasing_ids() {
    let mut alloc = ResourceScopeAllocator::new();
    assert_eq!(alloc.global_scope_token().id(), ResourceScopeID(0));
    let a = alloc.new_resource_scope();
    let b = alloc.new_resource_scope();
    assert_eq!(a.id(), ResourceScopeID(1));
    assert_eq!(b.id(), ResourceScopeID(2));
}

#[test]
fn weak_token_follows_the_strong_ones() {
    let mut alloc = ResourceScopeAllocator::new();
    let token = alloc.new_resource_scope();
    let weak = token.to_weak();
    assert_eq!(weak.id(), token.id());
    assert!(weak.is_alive());
    let copy = token.clone();
    drop(token);
    assert!(weak.is_alive());
    drop(copy);
    assert!(!weak.is_alive());
}

#[test]
fn reap_reports_dead_scopes_once_in_order() {
    let mut alloc = ResourceScopeAllocator::new();
    let a = alloc.new_resource_scope();
    let b = alloc.new_resource_scope();
    let c = alloc.new_resource_scope();
    assert_eq!(alloc.reap_dead_scopes(), Vec::<ResourceScopeID>::new());
    drop(c);
    drop(a);
    assert_eq!(alloc.reap_dead_scopes(), vec![ResourceScopeID(1), ResourceScopeID(3)]);
    // Already reported scopes are not reported again.
    assert_eq!(alloc.reap_dead_scopes(), Vec::<ResourceScopeID>::new());
    drop(b);
    assert_eq!(alloc.reap_dead_scopes(), vec![ResourceScopeID(2)]);
}

#[test]
fn global_scope_is_never_reaped() {
    let mut alloc = ResourceScopeAllocator::new();
    let global = alloc.global_scope_token();
    drop(global);
    assert_eq!(alloc.reap_dead_scopes(), Vec::<ResourceScopeID>::new());
    assert_eq!(alloc.global_scope_token().id(), ResourceScopeID(0));
}

#[test]
fn a_scope_is_alive_while_it_has_strong_tokens() {
    assert!(alive_from_count(1));
    assert!(alive_from_count(3));
    assert!(!alive_from_count(0));
}

#[test]
fn watched_scopes_split_by_the_liveness_observed() {
    let mut alloc = ResourceScopeAllocator::new();
    let t1 = alloc.new_resource_scope();
    let t2 = alloc.new_resource_scope();
    let t3 = alloc.new_resource_scope();
    let watched = vec![t1.to_weak(), t2.to_weak(), t3.to_weak()];
    let (dead, kept) = partition_by_liveness(watched, &vec![true, false, true]);
    assert_eq!(dead, vec![ResourceScopeID(2)]);
    assert_eq!(kept.iter().map(|t| t.id()).collect::<Vec<_>>(), vec![ResourceScopeID(1), ResourceScopeID(3)]);
    let (dead, kept) = partition_by_liveness(Vec::new(), &Vec::new());
    assert!(dead.is_empty() && kept.is_empty());
}

#[test]
fn a_dropped_token_is_reaped_once_while_the_other_lives() {
    let mut a = ResourceScopeAllocator::new();
    let t1 = a.new_resource_scope();
    let t2 = a.new_resource_scope();
    let i1 = t1.id();
    drop(t1);
    assert_eq!(a.reap_dead_scopes(), vec![i1]);
    assert_eq!(a.reap_dead_scopes(), Vec::<ResourceScopeID>::new());
    drop(t2);
}
