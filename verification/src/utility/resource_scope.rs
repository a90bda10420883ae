use vstd::prelude::*;
use std::rc::{Rc, Weak};

verus! {

/// Unique identifier for a resource scope.
#[derive(Copy, Clone, Debug, Hash, PartialEq, Eq, PartialOrd, Ord, Structural)]
pub struct ResourceScopeID(pub usize);

/// A weak reference to the shared count of a scope's tokens.
///
/// `std::rc::Weak` carries an allocator parameter, so it cannot be declared to Verus
/// as an outside type; it is held here, out of Verus's sight, and read only through
/// `downgrade` and `strong_count` below.
#[verifier::external_body]
#[derive(Debug)]
pub struct WeakCount {
    inner: Weak<()>,
}

impl Clone for WeakCount {
    /// `Weak::clone`: another weak reference to the same count.
    #[verifier::external_body]
    fn clone(&self) -> Self {
        WeakCount { inner: Weak::clone(&self.inner) }
    }
}

/// `Rc::downgrade`: a weak reference to the count shared by the clones of `rc`.
/// Nothing is claimed of it: whether the count is still held depends on which clones
/// are alive when it is read.
#[verifier::external_body]
fn downgrade(rc: &Rc<()>) -> WeakCount {
    WeakCount { inner: Rc::downgrade(rc) }
}

/// `Weak::strong_count`: how many strong references to the count remain now. It
/// depends on the clones alive at the time of the call, so nothing is claimed of it.
#[verifier::external_body]
fn strong_count(w: &WeakCount) -> usize {
    w.inner.strong_count()
}

/// `Rc::clone`: one more strong reference to the same count.
#[verifier::external_body]
fn clone_count(rc: &Rc<()>) -> Rc<()> {
    Rc::clone(rc)
}

/// A reference counted token associated with a resource scope. The scope lives as long
/// as any clone of its token does.
#[derive(Clone, Debug)]
pub struct ResourceScopeToken {
    ref_count: Rc<()>,
    id: ResourceScopeID,
}

impl View for ResourceScopeToken {
    type V = ResourceScopeID;

    closed spec fn view(&self) -> ResourceScopeID {
        self.id
    }
}

impl ResourceScopeToken {
    fn new(id: ResourceScopeID) -> (t: ResourceScopeToken)
        ensures
            t@ == id,
    {
        ResourceScopeToken { ref_count: Rc::new(()), id }
    }

    pub fn id(&self) -> (r: ResourceScopeID)
        ensures
            r == self@,
    {
        self.id
    }

    /// A token that observes the scope without keeping it alive.
    pub fn to_weak(&self) -> (w: ResourceScopeTokenWeak)
        ensures
            w@ == self@,
    {
        ResourceScopeTokenWeak { ref_count: downgrade(&self.ref_count), id: self.id }
    }
}

/// Whether a scope with `count` strong tokens is alive.
pub fn alive_from_count(count: usize) -> (r: bool)
    ensures
        r == (count > 0),
{
    count > 0
}

/// Observes a resource scope without keeping it alive.
#[derive(Clone, Debug)]
pub struct ResourceScopeTokenWeak {
    ref_count: WeakCount,
    id: ResourceScopeID,
}

impl View for ResourceScopeTokenWeak {
    type V = ResourceScopeID;

    closed spec fn view(&self) -> ResourceScopeID {
        self.id
    }
}

impl ResourceScopeTokenWeak {
    /// Whether any strong token of the scope is still alive: whether the count that
    /// `strong_count` reads now is above zero. The count depends on what the rest of the
    /// program still holds, so the answer is stated of the count, in `alive_from_count`.
    pub fn is_alive(&self) -> bool {
        alive_from_count(strong_count(&self.ref_count))
    }

    pub fn id(&self) -> (r: ResourceScopeID)
        ensures
            r == self@,
    {
        self.id
    }
}

/// The ids are strictly increasing.
pub open spec fn ids_increasing(ids: Seq<ResourceScopeID>) -> bool {
    forall|i: int, j: int| 0 <= i < j < ids.len() ==> ids[i].0 < ids[j].0
}

/// The ids of `s` at the positions where `dead` is `want`, in order.
pub open spec fn split_ids(s: Seq<ResourceScopeID>, dead: Seq<bool>, want: bool) -> Seq<ResourceScopeID>
    decreases s.len(),
{
    if s.len() == 0 || dead.len() == 0 {
        Seq::empty()
    } else {
        let rest = split_ids(s.drop_last(), dead.drop_last(), want);
        if dead.last() == want { rest.push(s.last()) } else { rest }
    }
}

/// Hands out scope ids and keeps watch over the scopes that are still alive.
///
/// Ids are handed out in increasing order, starting with the global scope's `0`.
pub struct ResourceScopeAllocator {
    next_id: usize,
    global_scope_token: ResourceScopeToken,
    scopes: Vec<ResourceScopeTokenWeak>,
}

impl ResourceScopeAllocator {
    /// The global scope is `0`; the watched ids are increasing and lie strictly between it
    /// and the next id.
    pub closed spec fn wf(self) -> bool {
        &&& self.global_scope_token@ == ResourceScopeID(0)
        &&& self.next_id >= 1
        &&& ids_increasing(self.scope_ids())
        &&& forall|i: int| 0 <= i < self.scopes@.len() ==>
            0 < (#[trigger] self.scopes@[i])@.0 < self.next_id
    }

    /// The ids of the scopes being watched, oldest first.
    pub closed spec fn scope_ids(self) -> Seq<ResourceScopeID> {
        self.scopes@.map_values(|t: ResourceScopeTokenWeak| t@)
    }

    /// The id that the next scope will get.
    pub closed spec fn next_id(self) -> nat {
        self.next_id as nat
    }

    pub closed spec fn global_id(self) -> ResourceScopeID {
        self.global_scope_token@
    }

    /// What well-formedness says of the allocator's ids.
    pub proof fn lemma_wf(self)
        requires
            self.wf(),
        ensures
            self.global_id() == ResourceScopeID(0),
            self.next_id() >= 1,
            ids_increasing(self.scope_ids()),
            forall|i: int| 0 <= i < self.scope_ids().len() ==>
                0 < (#[trigger] self.scope_ids()[i]).0 < self.next_id(),
    {
    }

    /// The id that the next scope gets is fresh: it is neither the global scope's nor that
    /// of any scope being watched.
    pub proof fn lemma_next_id_fresh(self)
        requires
            self.wf(),
        ensures
            ResourceScopeID(self.next_id() as usize) != self.global_id(),
            !self.scope_ids().contains(ResourceScopeID(self.next_id() as usize)),
    {
        if self.scope_ids().contains(ResourceScopeID(self.next_id() as usize)) {
            let i = choose|i: int| 0 <= i < self.scope_ids().len() && self.scope_ids()[i] == ResourceScopeID(self.next_id() as usize);
            assert(self.scope_ids()[i] == self.scopes@[i]@);
        }
    }

    pub fn new() -> (a: ResourceScopeAllocator)
        ensures
            a.wf(),
            a.global_id() == ResourceScopeID(0),
            a.next_id() == 1,
            a.scope_ids() == Seq::<ResourceScopeID>::empty(),
    {
        let a = ResourceScopeAllocator {
            next_id: 1,
            global_scope_token: ResourceScopeToken::new(ResourceScopeID(0)),
            scopes: Vec::new(),
        };
        assert(a.scope_ids() =~= Seq::<ResourceScopeID>::empty());
        a
    }

    /// Creates a new scope, watched from now on, and returns its token. The scope ends
    /// once no clone of the token remains.
    pub fn new_resource_scope(&mut self) -> (t: ResourceScopeToken)
        requires
            old(self).wf(),
            old(self).next_id() < usize::MAX,
        ensures
            final(self).wf(),
            t@ == ResourceScopeID(old(self).next_id() as usize),
            final(self).next_id() == old(self).next_id() + 1,
            final(self).global_id() == old(self).global_id(),
            final(self).scope_ids() == old(self).scope_ids().push(t@),
    {
        let id = ResourceScopeID(self.next_id);
        let token = ResourceScopeToken::new(id);
        let ghost old_ids = self.scope_ids();
        self.scopes.push(token.to_weak());
        self.next_id = self.next_id + 1;
        assert(self.scope_ids() =~= old_ids.push(id));
        token
    }

    pub fn global_scope_token(&self) -> (t: ResourceScopeToken)
        ensures
            t@ == self.global_id(),
    {
        ResourceScopeToken {
            ref_count: clone_count(&self.global_scope_token.ref_count),
            id: self.global_scope_token.id,
        }
    }

    /// Stops watching the scopes whose tokens are all gone and returns their ids, in
    /// increasing order. Each watched token is asked, oldest first, whether its scope is
    /// alive, and `partition_by_liveness` splits the watched scopes by the answers; the
    /// answers depend on what the rest of the program holds, so the contract speaks of
    /// whatever was observed (`alive`).
    pub fn reap_dead_scopes(&mut self) -> (r: Vec<ResourceScopeID>)
        requires
            old(self).wf(),
        ensures
            final(self).wf(),
            exists|alive: Seq<bool>| #![trigger split_ids(old(self).scope_ids(), dead_flags(alive), true)]
                alive.len() == old(self).scope_ids().len()
                && r@ == split_ids(old(self).scope_ids(), dead_flags(alive), true)
                && final(self).scope_ids() == split_ids(old(self).scope_ids(), dead_flags(alive), false),
            ids_increasing(r@),
            forall|id: ResourceScopeID| #[trigger] old(self).scope_ids().contains(id) <==>
                (r@.contains(id) || final(self).scope_ids().contains(id)),
            forall|id: ResourceScopeID| #[trigger] r@.contains(id) ==> !final(self).scope_ids().contains(id),
            final(self).next_id() == old(self).next_id(),
            final(self).global_id() == old(self).global_id(),
    {
        let ghost ids = self.scope_ids();
        let ghost all = self.scopes@;
        let mut watched: Vec<ResourceScopeTokenWeak> = Vec::new();
        std::mem::swap(&mut watched, &mut self.scopes);
        let mut alive: Vec<bool> = Vec::new();
        let mut i: usize = 0;
        while i < watched.len()
            invariant
                i <= watched@.len(),
                alive@.len() == i,
            decreases watched@.len() - i,
        {
            alive.push(watched[i].is_alive());
            i = i + 1;
        }
        assert(token_ids(watched@) == ids);
        let (dead_ids, kept) = partition_by_liveness(watched, &alive);
        self.scopes = kept;
        proof {
            let dead = dead_flags(alive@);
            assert(self.scope_ids() == token_ids(self.scopes@));
            lemma_split_ids(ids, dead, true);
            lemma_split_ids(ids, dead, false);
            assert forall|id: ResourceScopeID| #[trigger] ids.contains(id) <==>
                (dead_ids@.contains(id) || self.scope_ids().contains(id)) by {
                if ids.contains(id) {
                    lemma_split_ids_cover(ids, dead, id);
                }
            }
            assert forall|id: ResourceScopeID| #[trigger] dead_ids@.contains(id)
                implies !self.scope_ids().contains(id) by {
                lemma_split_ids_disjoint(ids, dead, id);
            }
            let f = self.scope_ids();
            assert forall|i: int| 0 <= i < self.scopes@.len() implies
                0 < (#[trigger] self.scopes@[i])@.0 < self.next_id by {
                assert(f[i] == self.scopes@[i]@);
                assert(f.contains(f[i]));
                let k = choose|k: int| 0 <= k < ids.len() && ids[k] == f[i];
                assert(ids[k] == all[k]@);
            }
        }
        dead_ids
    }
}

/// The ids of some tokens, in order.
pub open spec fn token_ids(s: Seq<ResourceScopeTokenWeak>) -> Seq<ResourceScopeID> {
    s.map_values(|t: ResourceScopeTokenWeak| t@)
}

/// "Dead" for each "alive" flag that is false.
pub open spec fn dead_flags(alive: Seq<bool>) -> Seq<bool> {
    alive.map_values(|a: bool| !a)
}

/// Splits watched tokens by the liveness observed for each, in order: the ids of those
/// observed dead, and the tokens observed alive.
pub fn partition_by_liveness(watched: Vec<ResourceScopeTokenWeak>, alive: &Vec<bool>) -> (r: (Vec<ResourceScopeID>, Vec<ResourceScopeTokenWeak>))
    requires
        alive@.len() == watched@.len(),
    ensures
        r.0@ == split_ids(token_ids(watched@), dead_flags(alive@), true),
        token_ids(r.1@) == split_ids(token_ids(watched@), dead_flags(alive@), false),
{
    let ghost all = watched@;
    let ghost ids = token_ids(watched@);
    let ghost flags = dead_flags(alive@);
    let mut taken = watched;
    // Take the tokens out newest first, so that popping them again goes through them
    // oldest first.
    let mut pending: Vec<ResourceScopeTokenWeak> = Vec::new();
    while taken.len() > 0
        invariant
            taken@ == all.take(taken@.len() as int),
            pending@.len() + taken@.len() == all.len(),
            forall|k: int| 0 <= k < pending@.len() ==> pending@[k] == all[all.len() - 1 - k],
        decreases taken@.len(),
    {
        let t = taken.pop().unwrap();
        pending.push(t);
        assert(taken@ =~= all.take(taken@.len() as int));
    }
    let mut dead_ids: Vec<ResourceScopeID> = Vec::new();
    let mut kept: Vec<ResourceScopeTokenWeak> = Vec::new();
    let mut done: usize = 0;
    let total = pending.len();
    assert(all.len() == total);
    assert(token_ids(kept@) =~= Seq::<ResourceScopeID>::empty());
    assert(ids.take(0) =~= Seq::<ResourceScopeID>::empty());
    assert(flags.take(0) =~= Seq::<bool>::empty());
    while pending.len() > 0
        invariant
            ids == token_ids(all),
            flags == dead_flags(alive@),
            all.len() <= usize::MAX,
            alive@.len() == all.len(),
            pending@.len() <= all.len(),
            forall|k: int| 0 <= k < pending@.len() ==> pending@[k] == all[all.len() - 1 - k],
            done == all.len() - pending@.len(),
            dead_ids@ == split_ids(ids.take(done as int), flags.take(done as int), true),
            token_ids(kept@) == split_ids(ids.take(done as int), flags.take(done as int), false),
        decreases pending@.len(),
    {
        let ghost before = kept@;
        let t = pending.pop().unwrap();
        assert(t == all[done as int]);
        let is_alive = alive[done];
        if is_alive {
            kept.push(t);
        } else {
            dead_ids.push(t.id());
        }
        proof {
            let d = done as int;
            let s = ids.take(d + 1);
            let f = flags.take(d + 1);
            assert(s.drop_last() =~= ids.take(d));
            assert(f.drop_last() =~= flags.take(d));
            assert(s.last() == t@);
            assert(f.last() == !is_alive);
            if is_alive {
                assert(token_ids(kept@) =~= token_ids(before).push(t@));
            } else {
                assert(token_ids(kept@) =~= token_ids(before));
            }
        }
        done = done + 1;
    }
    proof {
        assert(ids.take(all.len() as int) =~= ids);
        assert(flags.take(all.len() as int) =~= flags);
    }
    (dead_ids, kept)
}

/// Each part of a split keeps the order of `s` and holds only ids of `s`.
pub proof fn lemma_split_ids(s: Seq<ResourceScopeID>, dead: Seq<bool>, want: bool)
    requires
        dead.len() == s.len(),
    ensures
        forall|id: ResourceScopeID| #[trigger] split_ids(s, dead, want).contains(id) ==> s.contains(id),
        ids_increasing(s) ==> ids_increasing(split_ids(s, dead, want)),
    decreases s.len(),
{
    if s.len() > 0 {
        let s0 = s.drop_last();
        let d0 = dead.drop_last();
        lemma_split_ids(s0, d0, want);
        let rest = split_ids(s0, d0, want);
        assert forall|id: ResourceScopeID| #[trigger] split_ids(s, dead, want).contains(id) implies s.contains(id) by {
            if rest.contains(id) {
                let k = choose|k: int| 0 <= k < s0.len() && s0[k] == id;
                assert(s[k] == id);
            } else {
                assert(s[s.len() - 1] == id);
            }
        }
        if ids_increasing(s) && dead.last() == want {
            let r = split_ids(s, dead, want);
            assert forall|i: int, j: int| 0 <= i < j < r.len() implies r[i].0 < r[j].0 by {
                if j == r.len() - 1 {
                    assert(rest.contains(r[i]));
                    let k = choose|k: int| 0 <= k < s0.len() && s0[k] == r[i];
                    assert(s[k] == r[i]);
                } else {
                    assert(r[i] == rest[i] && r[j] == rest[j]);
                }
            }
        }
    }
}

/// Every id of `s` lands in one of the two parts of a split.
pub proof fn lemma_split_ids_cover(s: Seq<ResourceScopeID>, dead: Seq<bool>, id: ResourceScopeID)
    requires
        dead.len() == s.len(),
        s.contains(id),
    ensures
        split_ids(s, dead, true).contains(id) || split_ids(s, dead, false).contains(id),
    decreases s.len(),
{
    let s0 = s.drop_last();
    let d0 = dead.drop_last();
    let k = choose|k: int| 0 <= k < s.len() && s[k] == id;
    if k == s.len() - 1 {
        if dead.last() {
            assert(split_ids(s, dead, true).last() == id);
        } else {
            assert(split_ids(s, dead, false).last() == id);
        }
    } else {
        assert(s0[k] == id);
        lemma_split_ids_cover(s0, d0, id);
        let t0 = split_ids(s0, d0, true);
        let f0 = split_ids(s0, d0, false);
        if t0.contains(id) {
            let m = choose|m: int| 0 <= m < t0.len() && t0[m] == id;
            assert(split_ids(s, dead, true)[m] == id);
        } else {
            let m = choose|m: int| 0 <= m < f0.len() && f0[m] == id;
            assert(split_ids(s, dead, false)[m] == id);
        }
    }
}

/// When the ids are distinct, no id lands in both parts of a split.
pub proof fn lemma_split_ids_disjoint(s: Seq<ResourceScopeID>, dead: Seq<bool>, id: ResourceScopeID)
    requires
        dead.len() == s.len(),
        ids_increasing(s),
    ensures
        !(split_ids(s, dead, true).contains(id) && split_ids(s, dead, false).contains(id)),
    decreases s.len(),
{
    if s.len() > 0 {
        let s0 = s.drop_last();
        let d0 = dead.drop_last();
        assert(ids_increasing(s0));
        lemma_split_ids_disjoint(s0, d0, id);
        lemma_split_ids(s0, d0, true);
        lemma_split_ids(s0, d0, false);
        let t0 = split_ids(s0, d0, true);
        let f0 = split_ids(s0, d0, false);
        let t = split_ids(s, dead, true);
        let f = split_ids(s, dead, false);
        if t.contains(id) && f.contains(id) {
            let a = choose|a: int| 0 <= a < t.len() && t[a] == id;
            let b = choose|b: int| 0 <= b < f.len() && f[b] == id;
            if dead.last() {
                if a == t.len() - 1 {
                    assert(f0.contains(id));
                    let k = choose|k: int| 0 <= k < s0.len() && s0[k] == id;
                    assert(s[k].0 < s[s.len() - 1].0);
                } else {
                    assert(t0.contains(id));
                    assert(f0.contains(id));
                }
            } else {
                if b == f.len() - 1 {
                    assert(t0.contains(id));
                    let k = choose|k: int| 0 <= k < s0.len() && s0[k] == id;
                    assert(s[k].0 < s[s.len() - 1].0);
                } else {
                    assert(t0.contains(id));
                    assert(f0.contains(id));
                }
            }
        }
    }
}

} // verus!
