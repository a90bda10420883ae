use vstd::prelude::*;
use crate::input::context_group::ContextGroupID;

verus! {

/// What the registry reads of an input context: its id, the group it belongs to, if any,
/// and its priority (contexts of higher priority receive actions first).
#[derive(Copy, Clone, Debug, PartialEq, Eq, Structural)]
pub struct ContextInfo {
    pub id: u64,
    pub group: Option<ContextGroupID>,
    pub priority: i32,
}

/// The position of the first context with id `id`.
pub open spec fn context_index(contexts: Seq<ContextInfo>, id: u64) -> Option<int>
    decreases contexts.len(),
{
    if contexts.len() == 0 {
        None
    } else {
        match context_index(contexts.drop_last(), id) {
            Some(i) => Some(i),
            None => if contexts.last().id == id { Some(contexts.len() - 1) } else { None },
        }
    }
}

/// `context_index` finds the first context with the id, and none where there is none.
pub proof fn lemma_context_index(contexts: Seq<ContextInfo>, id: u64)
    ensures
        context_index(contexts, id) matches Some(i) ==> 0 <= i < contexts.len() && contexts[i].id == id
            && forall|j: int| 0 <= j < i ==> contexts[j].id != id,
        context_index(contexts, id) is None ==> forall|j: int| 0 <= j < contexts.len() ==> contexts[j].id != id,
    decreases contexts.len(),
{
    if contexts.len() > 0 {
        let d = contexts.drop_last();
        lemma_context_index(d, id);
        match context_index(d, id) {
            Some(i) => {
                assert(d[i] == contexts[i]);
                assert forall|j: int| 0 <= j < i implies contexts[j].id != id by {
                    assert(d[j] == contexts[j]);
                }
            },
            None => {
                assert forall|j: int| 0 <= j < contexts.len() - 1 implies contexts[j].id != id by {
                    assert(d[j] == contexts[j]);
                }
            },
        }
    }
}

/// The position of the first context with id `id`.
fn find_context(contexts: &Vec<ContextInfo>, id: u64) -> (r: Option<usize>)
    ensures
        match r {
            Some(i) => context_index(contexts@, id) == Some(i as int),
            None => context_index(contexts@, id) is None,
        },
{
    proof {
        lemma_context_index(contexts@, id);
    }
    let mut i: usize = 0;
    while i < contexts.len()
        invariant
            i <= contexts@.len(),
            forall|j: int| 0 <= j < i ==> contexts@[j].id != id,
        decreases contexts@.len() - i,
    {
        if contexts[i].id == id {
            proof {
                lemma_context_index(contexts@, id);
                if let Some(k) = context_index(contexts@, id) {
                    if k > i as int {
                        assert(contexts@[i as int].id != id);
                    }
                }
            }
            return Some(i);
        }
        i = i + 1;
    }
    proof {
        lemma_context_index(contexts@, id);
        if let Some(k) = context_index(contexts@, id) {
            assert(contexts@[k].id != id);
        }
    }
    None
}

/// No element occurs twice.
pub open spec fn distinct<T>(s: Seq<T>) -> bool {
    forall|i: int, j: int| 0 <= i < j < s.len() ==> s[i] != s[j]
}

/// `s` after setting whether `x` is in it: added at the end if it was missing, taken out
/// where it was if it is to go, as it was otherwise.
pub open spec fn with_membership<T>(s: Seq<T>, x: T, member: bool) -> Seq<T> {
    if member && !s.contains(x) {
        s.push(x)
    } else if !member && s.contains(x) {
        s.remove(s.index_of(x))
    } else {
        s
    }
}

/// Where `x` first occurs in `s`, if it does.
fn position_of_context(s: &Vec<u64>, x: u64) -> (r: Option<usize>)
    requires
        distinct(s@),
    ensures
        match r {
            Some(k) => s@.contains(x) && k == s@.index_of(x),
            None => !s@.contains(x),
        },
{
    let mut k: usize = 0;
    while k < s.len()
        invariant
            k <= s@.len(),
            distinct(s@),
            forall|j: int| 0 <= j < k ==> s@[j] != x,
        decreases s@.len() - k,
    {
        if s[k] == x {
            proof {
                assert(s@[k as int] == x);
                assert(s@.contains(x));
                let i = s@.index_of(x);
                assert(s@[i] == x);
            }
            return Some(k);
        }
        k = k + 1;
    }
    None
}

/// Where `x` first occurs in `s`, if it does.
fn position_of_group(s: &Vec<ContextGroupID>, x: ContextGroupID) -> (r: Option<usize>)
    requires
        distinct(s@),
    ensures
        match r {
            Some(k) => s@.contains(x) && k == s@.index_of(x),
            None => !s@.contains(x),
        },
{
    let mut k: usize = 0;
    while k < s.len()
        invariant
            k <= s@.len(),
            distinct(s@),
            forall|j: int| 0 <= j < k ==> s@[j] != x,
        decreases s@.len() - k,
    {
        if s[k] == x {
            proof {
                assert(s@[k as int] == x);
                assert(s@.contains(x));
                let i = s@.index_of(x);
                assert(s@[i] == x);
            }
            return Some(k);
        }
        k = k + 1;
    }
    None
}

/// Whether context `id` is active: it has been entered and, if it belongs to a group,
/// that group is active too.
pub open spec fn context_active(contexts: Seq<ContextInfo>, active: Seq<u64>, groups: Seq<ContextGroupID>, id: u64) -> bool {
    &&& active.contains(id)
    &&& match context_index(contexts, id) {
        Some(i) => match contexts[i].group {
            Some(g) => groups.contains(g),
            None => true,
        },
        None => true,
    }
}

/// Which input contexts and context groups are active, and whether that changed since the
/// contexts were last put in order.
pub struct ActiveContexts {
    active_contexts: Vec<u64>,
    active_groups: Vec<ContextGroupID>,
    changed: bool,
}

impl ActiveContexts {
    /// The entered contexts, in the order kept for them.
    pub closed spec fn contexts(self) -> Seq<u64> {
        self.active_contexts@
    }

    /// The active groups, in the order they were activated.
    pub closed spec fn groups(self) -> Seq<ContextGroupID> {
        self.active_groups@
    }

    /// Whether a context or group was entered or left since the last `refresh`.
    pub closed spec fn spec_changed(self) -> bool {
        self.changed
    }

    /// Nothing is active twice.
    pub open spec fn wf(self) -> bool {
        distinct(self.contexts()) && distinct(self.groups())
    }

    pub fn new() -> (a: ActiveContexts)
        ensures
            a.wf(),
            a.contexts() == Seq::<u64>::empty(),
            a.groups() == Seq::<ContextGroupID>::empty(),
            !a.spec_changed(),
    {
        ActiveContexts { active_contexts: Vec::new(), active_groups: Vec::new(), changed: false }
    }

    /// Enters (`active`) or leaves context `id`; entering an entered context or leaving one
    /// that was not entered changes nothing.
    pub fn set_context_active(&mut self, id: u64, active: bool)
        requires
            old(self).wf(),
        ensures
            final(self).wf(),
            final(self).contexts() == with_membership(old(self).contexts(), id, active),
            final(self).groups() == old(self).groups(),
            final(self).spec_changed() == (old(self).spec_changed() || active != old(self).contexts().contains(id)),
    {
        let ghost s0 = self.active_contexts@;
        match (position_of_context(&self.active_contexts, id), active) {
            (None, true) => {
                self.active_contexts.push(id);
                self.changed = true;
                proof {
                    assert forall|i: int, j: int| 0 <= i < j < self.active_contexts@.len() implies
                        self.active_contexts@[i] != self.active_contexts@[j] by {
                        if j == s0.len() {
                            assert(s0[i] != id) by {
                                if s0[i] == id { assert(s0.contains(id)); }
                            }
                        }
                    }
                }
            },
            (Some(pos), false) => {
                self.active_contexts.remove(pos);
                self.changed = true;
                proof {
                    assert forall|i: int, j: int| 0 <= i < j < self.active_contexts@.len() implies
                        self.active_contexts@[i] != self.active_contexts@[j] by {
                        let i0 = if i < pos { i } else { i + 1 };
                        let j0 = if j < pos { j } else { j + 1 };
                        assert(self.active_contexts@[i] == s0[i0]);
                        assert(self.active_contexts@[j] == s0[j0]);
                    }
                }
            },
            _ => {},
        }
    }

    /// Activates or deactivates group `group`, as `set_context_active` does for contexts.
    pub fn set_context_group_active(&mut self, group: ContextGroupID, active: bool)
        requires
            old(self).wf(),
        ensures
            final(self).wf(),
            final(self).groups() == with_membership(old(self).groups(), group, active),
            final(self).contexts() == old(self).contexts(),
            final(self).spec_changed() == (old(self).spec_changed() || active != old(self).groups().contains(group)),
    {
        let ghost s0 = self.active_groups@;
        match (position_of_group(&self.active_groups, group), active) {
            (None, true) => {
                self.active_groups.push(group);
                self.changed = true;
                proof {
                    assert forall|i: int, j: int| 0 <= i < j < self.active_groups@.len() implies
                        self.active_groups@[i] != self.active_groups@[j] by {
                        if j == s0.len() {
                            assert(s0[i] != group) by {
                                if s0[i] == group { assert(s0.contains(group)); }
                            }
                        }
                    }
                }
            },
            (Some(pos), false) => {
                self.active_groups.remove(pos);
                self.changed = true;
                proof {
                    assert forall|i: int, j: int| 0 <= i < j < self.active_groups@.len() implies
                        self.active_groups@[i] != self.active_groups@[j] by {
                        let i0 = if i < pos { i } else { i + 1 };
                        let j0 = if j < pos { j } else { j + 1 };
                        assert(self.active_groups@[i] == s0[i0]);
                        assert(self.active_groups@[j] == s0[j0]);
                    }
                }
            },
            _ => {},
        }
    }

    pub fn is_context_group_active(&self, group: ContextGroupID) -> (r: bool)
        requires
            self.wf(),
        ensures
            r == self.groups().contains(group),
    {
        position_of_group(&self.active_groups, group).is_some()
    }

    /// Whether context `id` is active: entered, and in an active group if it has one.
    pub fn is_context_active(&self, contexts: &Vec<ContextInfo>, id: u64) -> (r: bool)
        requires
            self.wf(),
        ensures
            r == context_active(contexts@, self.contexts(), self.groups(), id),
    {
        proof {
            lemma_context_index(contexts@, id);
        }
        match find_context(contexts, id) {
            Some(i) => match contexts[i].group {
                Some(g) => {
                    if position_of_group(&self.active_groups, g).is_none() {
                        return false;
                    }
                },
                None => {},
            },
            None => {},
        }
        position_of_context(&self.active_contexts, id).is_some()
    }
}

/// The key contexts are put in order by: their priority, below every priority for an id
/// that names no context.
pub open spec fn priority_key(contexts: Seq<ContextInfo>, id: u64) -> int {
    match context_index(contexts, id) {
        Some(i) => contexts[i].priority as int,
        None => i32::MIN as int - 1,
    }
}

/// `r` is `s` put in order of priority, stably: the same ids, ordered by priority, and in
/// their order in `s` where priorities are equal.
pub open spec fn priority_ordered(contexts: Seq<ContextInfo>, s: Seq<u64>, r: Seq<u64>) -> bool {
    &&& r.len() == s.len()
    &&& distinct(r)
    &&& forall|x: u64| #[trigger] r.contains(x) <==> s.contains(x)
    &&& forall|i: int, j: int| 0 <= i < j < r.len() ==>
        priority_key(contexts, r[i]) < priority_key(contexts, r[j])
        || (priority_key(contexts, r[i]) == priority_key(contexts, r[j]) && s.index_of(r[i]) < s.index_of(r[j]))
}

/// The key `priority_key` gives an id.
fn key_of(contexts: &Vec<ContextInfo>, id: u64) -> (r: i64)
    ensures
        r as int == priority_key(contexts@, id),
{
    proof {
        lemma_context_index(contexts@, id);
    }
    match find_context(contexts, id) {
        Some(i) => contexts[i].priority as i64,
        None => i32::MIN as i64 - 1,
    }
}

/// The ids of `active` in order of priority, stably (see `priority_ordered`).
pub fn sort_by_priority(contexts: &Vec<ContextInfo>, active: &Vec<u64>) -> (r: Vec<u64>)
    requires
        distinct(active@),
    ensures
        priority_ordered(contexts@, active@, r@),
{
    let ghost s = active@;
    let mut out: Vec<u64> = Vec::new();
    let mut k: usize = 0;
    while k < active.len()
        invariant
            s == active@,
            distinct(s),
            k <= s.len(),
            out@.len() == k,
            distinct(out@),
            forall|x: u64| #[trigger] out@.contains(x) <==> s.take(k as int).contains(x),
            forall|i: int, j: int| 0 <= i < j < out@.len() ==>
                priority_key(contexts@, out@[i]) < priority_key(contexts@, out@[j])
                || (priority_key(contexts@, out@[i]) == priority_key(contexts@, out@[j]) && s.index_of(out@[i]) < s.index_of(out@[j])),
        decreases s.len() - k,
    {
        let x = active[k];
        let kx = key_of(contexts, x);
        let mut p: usize = 0;
        while p < out.len() && key_of(contexts, out[p]) <= kx
            invariant
                p <= out@.len(),
                forall|i: int| 0 <= i < p ==> priority_key(contexts@, #[trigger] out@[i]) <= kx,
            decreases out@.len() - p,
        {
            p = p + 1;
        }
        let ghost before = out@;
        out.insert(p, x);
        proof {
            assert(s[k as int] == x);
            assert(s.index_of(x) == k) by {
                let t = s.index_of(x);
                assert(s.contains(x)) by { assert(s[k as int] == x); }
                assert(s[t] == x);
            }
            assert forall|y: u64| #[trigger] before.contains(y) implies s.index_of(y) < k by {
                assert(s.take(k as int).contains(y));
                let t0 = s.take(k as int);
                let t = choose|t: int| 0 <= t < t0.len() && #[trigger] t0[t] == y;
                assert(s[t] == y);
                let u = s.index_of(y);
                assert(s.contains(y)) by { assert(s[t] == y); }
                assert(s[u] == y);
            }
            assert(!before.contains(x)) by {
                if before.contains(x) {
                    assert(s.take(k as int).contains(x));
                    let t0 = s.take(k as int);
                    let t = choose|t: int| 0 <= t < t0.len() && #[trigger] t0[t] == x;
                    assert(s[t] == x);
                }
            }
            if p < before.len() {
                assert(priority_key(contexts@, before[p as int]) > kx);
            }
            assert forall|i: int| p <= i < before.len() implies priority_key(contexts@, #[trigger] before[i]) > kx by {
                if i > p {
                    assert(before.contains(before[p as int]));
                    assert(before.contains(before[i]));
                    assert(s.index_of(before[p as int]) < k);
                }
            }
            assert forall|i: int| 0 <= i < out@.len() implies #[trigger] out@[i] == (if i < p { before[i] } else if i == p { x } else { before[i - 1] }) by {}
            assert(s.take(k + 1) =~= s.take(k as int).push(x));
            assert forall|y: u64| #[trigger] out@.contains(y) implies s.take(k + 1).contains(y) by {
                let t = choose|t: int| 0 <= t < out@.len() && out@[t] == y;
                if t < p {
                    assert(before[t] == y);
                    assert(before.contains(y));
                } else if t > p {
                    assert(before[t - 1] == y);
                    assert(before.contains(y));
                }
                if y != x {
                    assert(s.take(k as int).contains(y));
                    let t0 = s.take(k as int);
                    let u = choose|u: int| 0 <= u < t0.len() && #[trigger] t0[u] == y;
                    assert(s.take(k + 1)[u] == y);
                } else {
                    assert(s.take(k + 1)[k as int] == y);
                }
            }
            assert forall|y: u64| #[trigger] s.take(k + 1).contains(y) implies out@.contains(y) by {
                let t1 = s.take(k + 1);
                let t = choose|t: int| 0 <= t < t1.len() && #[trigger] t1[t] == y;
                if t < k {
                    assert(s.take(k as int)[t] == y);
                    assert(s.take(k as int).contains(y));
                    assert(before.contains(y));
                    let u = choose|u: int| 0 <= u < before.len() && before[u] == y;
                    if u < p { assert(out@[u] == y); } else { assert(out@[u + 1] == y); }
                } else {
                    assert(y == x);
                    assert(out@[p as int] == y);
                }
            }
            assert forall|i: int, j: int| 0 <= i < j < out@.len() implies out@[i] != out@[j] by {
                if i == p as int {
                    assert(before.contains(out@[j]));
                } else if j == p as int {
                    assert(before.contains(out@[i]));
                }
            }
            assert forall|i: int, j: int| 0 <= i < j < out@.len() implies
                priority_key(contexts@, out@[i]) < priority_key(contexts@, out@[j])
                || (priority_key(contexts@, out@[i]) == priority_key(contexts@, out@[j]) && s.index_of(out@[i]) < s.index_of(out@[j])) by {
                if i == p as int {
                    assert(before.contains(out@[j]));
                } else if j == p as int {
                    assert(before.contains(out@[i]));
                }
            }
        }
        k = k + 1;
    }
    proof {
        assert(s.take(s.len() as int) =~= s);
    }
    out
}

/// Holds of the ids of active contexts.
pub open spec fn active_in(contexts: Seq<ContextInfo>, active: Seq<u64>, groups: Seq<ContextGroupID>) -> spec_fn(u64) -> bool {
    |id: u64| context_active(contexts, active, groups, id)
}

impl ActiveContexts {
    /// Once contexts or groups were entered or left: puts the entered contexts in order of
    /// priority (stably, see `priority_ordered`; the last receives actions first) and gives
    /// those of them that are active, in that order. `None` when nothing changed.
    pub fn refresh(&mut self, contexts: &Vec<ContextInfo>) -> (r: Option<Vec<u64>>)
        requires
            old(self).wf(),
        ensures
            final(self).wf(),
            final(self).groups() == old(self).groups(),
            !final(self).spec_changed(),
            !old(self).spec_changed() ==> r is None && final(self).contexts() == old(self).contexts(),
            old(self).spec_changed() ==> priority_ordered(contexts@, old(self).contexts(), final(self).contexts())
                && r is Some,
            r matches Some(v) ==> v@ == final(self).contexts().filter(
                active_in(contexts@, final(self).contexts(), final(self).groups())),
    {
        if !self.changed {
            return None;
        }
        self.changed = false;
        let sorted = sort_by_priority(contexts, &self.active_contexts);
        self.active_contexts = sorted;
        let ghost pred = active_in(contexts@, self.contexts(), self.groups());
        let mut filtered: Vec<u64> = Vec::new();
        let mut i: usize = 0;
        while i < self.active_contexts.len()
            invariant
                self.wf(),
                i <= self.contexts().len(),
                pred == active_in(contexts@, self.contexts(), self.groups()),
                filtered@ == self.contexts().take(i as int).filter(pred),
            decreases self.contexts().len() - i,
        {
            let id = self.active_contexts[i];
            let keep = self.is_context_active(contexts, id);
            proof {
                assert(self.contexts().take(i + 1) =~= self.contexts().take(i as int).push(id));
                self.contexts().take(i as int).lemma_filter_push(id, pred);
            }
            if keep {
                filtered.push(id);
            }
            i = i + 1;
        }
        proof {
            assert(self.contexts().take(self.contexts().len() as int) =~= self.contexts());
        }
        Some(filtered)
    }
}

} // verus!
