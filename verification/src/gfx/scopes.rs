use vstd::prelude::*;
use crate::gfx::resource_scope::{ResourceScope, ResourceScopeID, ResourceScopeToken, ScopedResourceHandle};

verus! {

/// A scope as the registry sees it: its id and the resources it owns, oldest first.
pub type ScopeView = (ResourceScopeID, Seq<ScopedResourceHandle>);

/// The scopes that a cleanup keeps: those whose token count is not down to the registry's
/// own token.
pub open spec fn kept_scopes(v: Seq<ScopeView>, counts: Seq<usize>) -> Seq<ScopeView>
    decreases v.len(),
{
    if v.len() == 0 || counts.len() == 0 {
        Seq::empty()
    } else {
        let rest = kept_scopes(v.drop_last(), counts.drop_last());
        if counts.last() == 1 { rest } else { rest.push(v.last()) }
    }
}

/// The resources that a cleanup frees: those of the scopes it drops, scope by scope.
pub open spec fn freed_resources(v: Seq<ScopeView>, counts: Seq<usize>) -> Seq<ScopedResourceHandle>
    decreases v.len(),
{
    if v.len() == 0 || counts.len() == 0 {
        Seq::empty()
    } else {
        let rest = freed_resources(v.drop_last(), counts.drop_last());
        if counts.last() == 1 { rest + v.last().1 } else { rest }
    }
}

/// The scope that a resource goes to: the one named, or the global scope.
pub open spec fn scope_target(id: Option<ResourceScopeID>) -> ResourceScopeID {
    match id {
        Some(id) => id,
        None => ResourceScopeID(0),
    }
}

/// The scopes after `handle` is given to scope `target`.
pub open spec fn with_resource(v: Seq<ScopeView>, target: ResourceScopeID, handle: ScopedResourceHandle) -> Seq<ScopeView> {
    v.map_values(|s: ScopeView| if s.0 == target { (s.0, s.1.push(handle)) } else { s })
}

/// Every resource scope of the graphics system, oldest first, the global scope `0` first.
pub struct ResourceScopes {
    resource_scope_counter: usize,
    global_resource_scope_token: ResourceScopeToken,
    resource_scopes: Vec<ResourceScope>,
}

impl ResourceScopes {
    pub closed spec fn spec_scopes(self) -> Seq<ScopeView> {
        self.resource_scopes@.map_values(|s: ResourceScope| (s.spec_id(), s.spec_resources()))
    }

    /// The id that the next scope gets.
    pub closed spec fn next_id(self) -> usize {
        self.resource_scope_counter
    }

    /// The ids are increasing and below the next id.
    pub open spec fn wf(self) -> bool {
        &&& forall|i: int, j: int| 0 <= i < j < self.spec_scopes().len() ==>
            self.spec_scopes()[i].0.0 < self.spec_scopes()[j].0.0
        &&& forall|i: int| 0 <= i < self.spec_scopes().len() ==> (#[trigger] self.spec_scopes()[i]).0.0 < self.next_id()
    }

    /// The registry with only the global scope, `0`, which owns nothing yet.
    pub fn new() -> (r: ResourceScopes)
        ensures
            r.wf(),
            r.next_id() == 1,
            r.spec_scopes() == seq![(ResourceScopeID(0), Seq::<ScopedResourceHandle>::empty())],
    {
        let token = ResourceScopeToken::new(ResourceScopeID(0));
        let scope = ResourceScope::new(token.share());
        let mut scopes: Vec<ResourceScope> = Vec::new();
        scopes.push(scope);
        let r = ResourceScopes { resource_scope_counter: 1, global_resource_scope_token: token, resource_scopes: scopes };
        assert(r.spec_scopes() =~= seq![(ResourceScopeID(0), Seq::<ScopedResourceHandle>::empty())]);
        r
    }

    /// Opens a new scope, which owns nothing yet, and returns its token.
    pub fn new_resource_scope(&mut self) -> (t: ResourceScopeToken)
        requires
            old(self).wf(),
            old(self).next_id() < usize::MAX,
        ensures
            final(self).wf(),
            t@ == ResourceScopeID(old(self).next_id()),
            final(self).next_id() == old(self).next_id() + 1,
            final(self).spec_scopes() == old(self).spec_scopes().push((t@, Seq::<ScopedResourceHandle>::empty())),
    {
        let id = ResourceScopeID(self.resource_scope_counter);
        self.resource_scope_counter = self.resource_scope_counter + 1;
        let token = ResourceScopeToken::new(id);
        let ghost before = self.spec_scopes();
        self.resource_scopes.push(ResourceScope::new(token.share()));
        assert(self.spec_scopes() =~= before.push((id, Seq::<ScopedResourceHandle>::empty())));
        assert forall|i: int, j: int| 0 <= i < j < self.spec_scopes().len() implies
            self.spec_scopes()[i].0.0 < self.spec_scopes()[j].0.0 by {
            assert(before == old(self).spec_scopes());
            if j == before.len() {
                assert(old(self).spec_scopes()[i].0.0 < old(self).next_id());
            } else {
                assert(before[i] == self.spec_scopes()[i] && before[j] == self.spec_scopes()[j]);
            }
        }
        assert forall|i: int| 0 <= i < self.spec_scopes().len() implies (#[trigger] self.spec_scopes()[i]).0.0 < self.next_id() by {
            if i < before.len() {
                assert(before[i] == self.spec_scopes()[i]);
                assert(old(self).spec_scopes()[i].0.0 < old(self).next_id());
            }
        }
        token
    }

    /// Whether the scope `id` is still open.
    pub fn has_scope(&self, id: ResourceScopeID) -> (r: bool)
        ensures
            r == exists|i: int| 0 <= i < self.spec_scopes().len() && (#[trigger] self.spec_scopes()[i]).0 == id,
    {
        let mut k: usize = 0;
        while k < self.resource_scopes.len()
            invariant
                k <= self.resource_scopes@.len(),
                forall|m: int| 0 <= m < k ==> self.spec_scopes()[m].0 != id,
            decreases self.resource_scopes@.len() - k,
        {
            if self.resource_scopes[k].id() == id {
                assert(self.spec_scopes()[k as int].0 == id);
                return true;
            }
            k = k + 1;
        }
        false
    }

    /// Gives a new resource to the scope `resource_scope_id`, or to the global scope.
    pub fn insert_resource(&mut self, resource_scope_id: Option<ResourceScopeID>, handle: ScopedResourceHandle)
        requires
            old(self).wf(),
            exists|i: int| 0 <= i < old(self).spec_scopes().len()
                && (#[trigger] old(self).spec_scopes()[i]).0 == scope_target(resource_scope_id),
        ensures
            final(self).wf(),
            final(self).next_id() == old(self).next_id(),
            final(self).spec_scopes() == with_resource(old(self).spec_scopes(), scope_target(resource_scope_id), handle),
    {
        let target = match resource_scope_id {
            Some(id) => id,
            None => ResourceScopeID(0),
        };
        let ghost before = self.spec_scopes();
        let mut k: usize = 0;
        while k < self.resource_scopes.len()
            invariant
                k <= self.resource_scopes@.len(),
                self.spec_scopes() == before,
                before == old(self).spec_scopes(),
                target == scope_target(resource_scope_id),
                self.resource_scope_counter == old(self).resource_scope_counter,
                forall|i: int, j: int| 0 <= i < j < before.len() ==> before[i].0.0 < before[j].0.0,
                forall|i: int| 0 <= i < before.len() ==> (#[trigger] before[i]).0.0 < self.resource_scope_counter,
                forall|m: int| 0 <= m < k ==> self.resource_scopes@[m].spec_id() != target,
            decreases self.resource_scopes@.len() - k,
        {
            if self.resource_scopes[k].id() == target {
                let mut scope = self.resource_scopes.remove(k);
                scope.insert(handle);
                self.resource_scopes.insert(k, scope);
                proof {
                    let want = with_resource(before, target, handle);
                    assert forall|m: int| 0 <= m < before.len() implies before[m].0 != target || m == k by {
                        if m != k && before[m].0 == target {
                            if m < k {
                                assert(self.resource_scopes@[m].spec_id() == before[m].0);
                            } else {
                                assert(before[k as int].0.0 < before[m].0.0);
                            }
                        }
                    }
                    assert(self.spec_scopes() =~= want);
                    assert forall|i: int| 0 <= i < want.len() implies want[i].0 == before[i].0 by {}
                }
                return;
            }
            k = k + 1;
        }
        assert(false) by {
            let i = choose|i: int| 0 <= i < before.len() && before[i].0 == target;
            assert(self.resource_scopes@[i].spec_id() == before[i].0);
        }
    }

    /// For each scope in order, how many of its tokens are alive now, the scope's own
    /// included, so at least one. How many more depends on the rest of the program.
    pub fn ref_counts(&self) -> (r: Vec<usize>)
        ensures
            r@.len() == self.spec_scopes().len(),
            forall|i: int| 0 <= i < r@.len() ==> #[trigger] r@[i] >= 1,
    {
        let mut r: Vec<usize> = Vec::new();
        let mut k: usize = 0;
        while k < self.resource_scopes.len()
            invariant
                k <= self.resource_scopes@.len(),
                r@.len() == k,
                forall|i: int| 0 <= i < r@.len() ==> #[trigger] r@[i] >= 1,
            decreases self.resource_scopes@.len() - k,
        {
            r.push(self.resource_scopes[k].ref_count());
            k = k + 1;
        }
        r
    }

    /// Drops the scopes whose count is `1`, as given in `counts` scope by scope, and hands
    /// over their resources for destruction.
    pub fn cleanup_with_counts(&mut self, counts: &Vec<usize>) -> (freed: Vec<ScopedResourceHandle>)
        requires
            old(self).wf(),
            counts@.len() == old(self).spec_scopes().len(),
        ensures
            final(self).wf(),
            final(self).next_id() == old(self).next_id(),
            final(self).spec_scopes() == kept_scopes(old(self).spec_scopes(), counts@),
            freed@ == freed_resources(old(self).spec_scopes(), counts@),
    {
        let ghost all = self.spec_scopes();
        let mut taken: Vec<ResourceScope> = Vec::new();
        std::mem::swap(&mut taken, &mut self.resource_scopes);
        let mut pending: Vec<ResourceScope> = Vec::new();
        while taken.len() > 0
            invariant
                taken@.map_values(|s: ResourceScope| (s.spec_id(), s.spec_resources())) == all.take(taken@.len() as int),
                pending@.len() + taken@.len() == all.len(),
                forall|k: int| 0 <= k < pending@.len() ==>
                    ((#[trigger] pending@[k]).spec_id(), pending@[k].spec_resources()) == all[all.len() - 1 - k],
            decreases taken@.len(),
        {
            let ghost n = taken@.len() as int;
            assert(taken@.map_values(|s: ResourceScope| (s.spec_id(), s.spec_resources()))[n - 1] == all[n - 1]);
            let s = taken.pop().unwrap();
            pending.push(s);
            assert(taken@.map_values(|s: ResourceScope| (s.spec_id(), s.spec_resources())) =~= all.take(taken@.len() as int));
        }
        let mut freed: Vec<ScopedResourceHandle> = Vec::new();
        proof {
            assert(self.resource_scopes@.map_values(|s: ResourceScope| (s.spec_id(), s.spec_resources())) =~= Seq::<ScopeView>::empty());
            assert(all.take(0) =~= Seq::<ScopeView>::empty());
            assert(counts@.take(0) =~= Seq::<usize>::empty());
        }
        let n = counts.len();
        let mut k: usize = 0;
        while pending.len() > 0
            invariant
                n == counts@.len(),
                pending@.len() + k == all.len(),
                counts@.len() == all.len(),
                forall|m: int| 0 <= m < pending@.len() ==>
                    ((#[trigger] pending@[m]).spec_id(), pending@[m].spec_resources()) == all[all.len() - 1 - m],
                self.spec_scopes() == kept_scopes(all.take(k as int), counts@.take(k as int)),
                freed@ == freed_resources(all.take(k as int), counts@.take(k as int)),
                self.resource_scope_counter == old(self).resource_scope_counter,
            decreases pending@.len(),
        {
            let mut s = pending.pop().unwrap();
            let ghost sv = (s.spec_id(), s.spec_resources());
            assert(sv == all[k as int]);
            let ghost before = self.spec_scopes();
            let ghost freed0 = freed@;
            if counts[k] == 1 {
                let mut handles = s.take_resources();
                freed.append(&mut handles);
            } else {
                self.resource_scopes.push(s);
                assert(self.spec_scopes() =~= before.push(sv));
            }
            proof {
                assert(all.take(k + 1).drop_last() =~= all.take(k as int));
                assert(counts@.take(k + 1).drop_last() =~= counts@.take(k as int));
                assert(all.take(k + 1).last() == sv);
            }
            k = k + 1;
        }
        proof {
            assert(all.take(all.len() as int) =~= all);
            assert(counts@.take(counts@.len() as int) =~= counts@);
            lemma_kept_scopes(all, counts@);
        }
        freed
    }

    /// Whether the first scope is the global scope `0`.
    pub open spec fn global_first(self) -> bool {
        self.spec_scopes().len() > 0 && self.spec_scopes()[0].0 == ResourceScopeID(0)
    }

    /// Drops every scope whose tokens are all gone but the registry's own, and hands over
    /// their resources for destruction. Which scopes those are depends on the rest of the
    /// program; `cleanup_with_counts` states what happens for each count. The global scope
    /// is never dropped: the registry holds a token of it besides the scope's own.
    pub fn cleanup_resources(&mut self) -> (freed: Vec<ScopedResourceHandle>)
        requires
            old(self).wf(),
        ensures
            final(self).wf(),
            final(self).next_id() == old(self).next_id(),
            exists|counts: Seq<usize>| #![trigger kept_scopes(old(self).spec_scopes(), counts)]
                counts.len() == old(self).spec_scopes().len()
                && (forall|i: int| 0 <= i < counts.len() ==> #[trigger] counts[i] >= 1)
                && (old(self).global_first() ==> counts[0] != 1)
                && final(self).spec_scopes() == kept_scopes(old(self).spec_scopes(), counts)
                && freed@ == freed_resources(old(self).spec_scopes(), counts),
            old(self).global_first() ==> final(self).global_first(),
    {
        let mut counts = self.ref_counts();
        if self.resource_scopes.len() > 0 && self.resource_scopes[0].id() == ResourceScopeID(0) {
            // The global scope's count takes in the registry's own token as well as the
            // scope's, so it is never down to one.
            counts.set(0, 2);
        }
        let ghost c = counts@;
        proof {
            if self.global_first() {
                lemma_kept_first(self.spec_scopes(), c);
            }
        }
        self.cleanup_with_counts(&counts)
    }
}

/// A cleanup that keeps the first scope keeps it first.
pub proof fn lemma_kept_first(v: Seq<ScopeView>, counts: Seq<usize>)
    requires
        v.len() > 0,
        counts.len() == v.len(),
        counts[0] != 1,
    ensures
        kept_scopes(v, counts).len() > 0,
        kept_scopes(v, counts)[0] == v[0],
    decreases v.len(),
{
    let t = v.drop_last();
    let c = counts.drop_last();
    if v.len() > 1 {
        lemma_kept_first(t, c);
        assert(t[0] == v[0]);
        let rest = kept_scopes(t, c);
        assert(counts.last() == 1 ==> kept_scopes(v, counts) == rest);
        assert(counts.last() != 1 ==> kept_scopes(v, counts) == rest.push(v.last()));
    } else {
        assert(kept_scopes(t, c).len() == 0);
        assert(kept_scopes(v, counts) == kept_scopes(t, c).push(v.last()));
    }
}

/// What a cleanup keeps is a part of what was there, in order.
pub proof fn lemma_kept_scopes(v: Seq<ScopeView>, counts: Seq<usize>)
    requires
        counts.len() == v.len(),
        forall|i: int, j: int| 0 <= i < j < v.len() ==> v[i].0.0 < v[j].0.0,
    ensures
        forall|i: int, j: int| 0 <= i < j < kept_scopes(v, counts).len() ==>
            kept_scopes(v, counts)[i].0.0 < kept_scopes(v, counts)[j].0.0,
        forall|i: int| 0 <= i < kept_scopes(v, counts).len() ==> exists|j: int| 0 <= j < v.len()
            && #[trigger] kept_scopes(v, counts)[i] == v[j],
    decreases v.len(),
{
    if v.len() > 0 {
        let t = v.drop_last();
        let c = counts.drop_last();
        lemma_kept_scopes(t, c);
        let kt = kept_scopes(t, c);
        let k = kept_scopes(v, counts);
        assert forall|i: int| 0 <= i < k.len() implies exists|j: int| 0 <= j < v.len() && #[trigger] k[i] == v[j] by {
            if i < kt.len() {
                let j = choose|j: int| 0 <= j < t.len() && kt[i] == t[j];
                assert(v[j] == t[j]);
            } else {
                assert(k[i] == v[v.len() - 1]);
            }
        }
        assert forall|i: int, j: int| 0 <= i < j < k.len() implies k[i].0.0 < k[j].0.0 by {
            if j < kt.len() {
                assert(k[i] == kt[i] && k[j] == kt[j]);
            } else {
                let m = choose|m: int| 0 <= m < t.len() && kt[i] == t[m];
                assert(v[m] == t[m]);
                assert(k[j] == v[v.len() - 1]);
            }
        }
    }
}

} // verus!
