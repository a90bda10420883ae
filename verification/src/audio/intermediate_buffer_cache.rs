use vstd::prelude::*;

verus! {

/// A buffer that holds a node's output until all of its readers have read it.
pub struct InUseBuffer<B> {
    pub buffer: B,
    /// The node whose output the buffer holds, by its key's bits.
    pub associated_node: u64,
    /// Reads still to come; the buffer is reclaimed when it reaches zero.
    pub uses: usize,
}

/// Keys strictly increasing and every count of uses positive.
pub open spec fn in_use_wf<B>(s: Seq<InUseBuffer<B>>) -> bool {
    &&& forall|i: int, j: int| 0 <= i < j < s.len() ==> s[i].associated_node < s[j].associated_node
    &&& forall|i: int| 0 <= i < s.len() ==> #[trigger] s[i].uses > 0
}

/// The buffers in use, by node: the buffer and the reads still to come.
pub open spec fn in_use_map<B>(s: Seq<InUseBuffer<B>>) -> Map<u64, (B, usize)>
    decreases s.len(),
{
    if s.len() == 0 {
        Map::empty()
    } else {
        in_use_map(s.drop_last()).insert(s.last().associated_node, (s.last().buffer, s.last().uses))
    }
}

/// One read of `node`'s buffer: its count of reads drops, and after the last read the
/// buffer is reclaimed. Nothing changes for a node without a buffer in use.
pub open spec fn after_read<B>(in_use: Map<u64, (B, usize)>, unused: Seq<B>, node: u64) -> (Map<u64, (B, usize)>, Seq<B>) {
    if !in_use.contains_key(node) {
        (in_use, unused)
    } else if in_use[node].1 <= 1 {
        (in_use.remove(node), unused.push(in_use[node].0))
    } else {
        (in_use.insert(node, (in_use[node].0, (in_use[node].1 - 1) as usize)), unused)
    }
}

/// `n` reads of `node`'s buffer in a row.
pub open spec fn after_reads<B>(in_use: Map<u64, (B, usize)>, unused: Seq<B>, node: u64, n: nat) -> (Map<u64, (B, usize)>, Seq<B>)
    decreases n,
{
    if n == 0 {
        (in_use, unused)
    } else {
        let prev = after_reads(in_use, unused, node, (n - 1) as nat);
        after_read(prev.0, prev.1, node)
    }
}

/// A buffer posted for `uses` reads stays in use, with the reads left counted down, until
/// the last of them, which reclaims it; the other buffers are left alone.
pub proof fn lemma_reclaimed_after_last_read<B>(
    in_use: Map<u64, (B, usize)>,
    unused: Seq<B>,
    node: u64,
    buffer: B,
    uses: usize,
    n: nat,
)
    requires
        uses > 0,
        n <= uses,
    ensures
        ({
            let r = after_reads(in_use.insert(node, (buffer, uses)), unused, node, n);
            &&& n < uses ==> r.0 == in_use.insert(node, (buffer, (uses - n) as usize)) && r.1 == unused
            &&& n == uses ==> r.0 == in_use.remove(node) && r.1 == unused.push(buffer)
        }),
    decreases n,
{
    if n > 0 {
        lemma_reclaimed_after_last_read(in_use, unused, node, buffer, uses, (n - 1) as nat);
        let prev = after_reads(in_use.insert(node, (buffer, uses)), unused, node, (n - 1) as nat);
        assert(prev.0.contains_key(node));
        if n < uses {
            assert(prev.0.insert(node, (buffer, (uses - n) as usize)) =~= in_use.insert(node, (buffer, (uses - n) as usize)));
        } else {
            assert(prev.0.remove(node) =~= in_use.remove(node));
        }
    }
}

/// What `get_buffer` gives for a node after its buffer, posted for `uses > 0` reads, has
/// been marked read `n` times: the buffer while `n < uses`; nothing once `n >= uses`, the
/// buffer having gone to the unused ones at the last read; further reads change nothing.
/// Other nodes keep their buffers.
pub proof fn lemma_reads_of_posted_buffer<B>(
    in_use: Map<u64, (B, usize)>,
    unused: Seq<B>,
    node: u64,
    buffer: B,
    uses: usize,
    n: nat,
)
    requires
        uses > 0,
    ensures
        ({
            let r = after_reads(in_use.insert(node, (buffer, uses)), unused, node, n);
            &&& n < uses ==> r.0.contains_key(node) && r.0[node].0 == buffer && r.1 == unused
            &&& n >= uses ==> !r.0.contains_key(node) && r.1 == unused.push(buffer)
            &&& forall|k: u64| k != node ==> (#[trigger] r.0.contains_key(k) == in_use.contains_key(k)
                && (in_use.contains_key(k) ==> r.0[k] == in_use[k]))
        }),
    decreases n,
{
    if n <= uses {
        lemma_reclaimed_after_last_read(in_use, unused, node, buffer, uses, n);
    } else {
        lemma_reads_of_posted_buffer(in_use, unused, node, buffer, uses, (n - 1) as nat);
        let prev = after_reads(in_use.insert(node, (buffer, uses)), unused, node, (n - 1) as nat);
        assert(!prev.0.contains_key(node));
    }
}

/// A buffer posted for some reads is the one that its node's readers get.
pub proof fn lemma_posted_buffer_is_read<B>(in_use: Map<u64, (B, usize)>, node: u64, buffer: B, uses: usize)
    ensures
        in_use.insert(node, (buffer, uses)).contains_key(node),
        in_use.insert(node, (buffer, uses))[node].0 == buffer,
{
}

/// Recycles the buffers that carry audio between nodes: a node posts its output with the
/// number of its readers, each read is marked, and the buffer is reclaimed after the last.
pub struct IntermediateBufferCache<B> {
    unused_buffers: Vec<B>,
    /// Sorted by node.
    in_use_buffers: Vec<InUseBuffer<B>>,
    buffer_size: usize,
}

impl<B> IntermediateBufferCache<B> {
    pub closed spec fn wf(self) -> bool {
        in_use_wf(self.in_use_buffers@)
    }

    /// The buffers waiting to be reused, oldest first.
    pub closed spec fn unused(self) -> Seq<B> {
        self.unused_buffers@
    }

    /// The buffers in use, by node.
    pub closed spec fn in_use(self) -> Map<u64, (B, usize)> {
        in_use_map(self.in_use_buffers@)
    }

    /// The buffers in use, in the order of their nodes.
    pub closed spec fn in_use_seq(self) -> Seq<InUseBuffer<B>> {
        self.in_use_buffers@
    }

    pub closed spec fn spec_buffer_size(self) -> usize {
        self.buffer_size
    }

    pub fn new(buffer_size: usize) -> (c: IntermediateBufferCache<B>)
        ensures
            c.wf(),
            c.unused() == Seq::<B>::empty(),
            c.in_use() == Map::<u64, (B, usize)>::empty(),
            c.spec_buffer_size() == buffer_size,
    {
        IntermediateBufferCache { unused_buffers: Vec::new(), in_use_buffers: Vec::new(), buffer_size }
    }

    pub fn buffer_size(&self) -> (r: usize)
        ensures
            r == self.spec_buffer_size(),
    {
        self.buffer_size
    }

    /// The most recently reclaimed buffer, if any, taken for reuse.
    pub fn take_unused(&mut self) -> (r: Option<B>)
        ensures
            final(self).in_use() == old(self).in_use(),
            final(self).wf() == old(self).wf(),
            final(self).spec_buffer_size() == old(self).spec_buffer_size(),
            old(self).unused().len() == 0 ==> r is None && final(self).unused() == old(self).unused(),
            old(self).unused().len() > 0 ==> r == Some(old(self).unused().last())
                && final(self).unused() == old(self).unused().drop_last(),
    {
        self.unused_buffers.pop()
    }

    /// Where the buffer of `node` is, or where it would go.
    fn position(&self, node: u64) -> (r: Result<usize, usize>)
        requires
            self.wf(),
        ensures
            match r {
                Ok(p) => p < self.in_use_buffers@.len() && self.in_use_buffers@[p as int].associated_node == node,
                Err(p) => p <= self.in_use_buffers@.len()
                    && (forall|i: int| 0 <= i < p ==> self.in_use_buffers@[i].associated_node < node)
                    && (forall|i: int| p <= i < self.in_use_buffers@.len() ==> self.in_use_buffers@[i].associated_node > node),
            },
    {
        let mut lo: usize = 0;
        let mut hi: usize = self.in_use_buffers.len();
        while lo < hi
            invariant
                self.wf(),
                lo <= hi <= self.in_use_buffers@.len(),
                forall|i: int| 0 <= i < lo ==> self.in_use_buffers@[i].associated_node < node,
                forall|i: int| hi <= i < self.in_use_buffers@.len() ==> self.in_use_buffers@[i].associated_node > node,
            decreases hi - lo,
        {
            let mid = lo + (hi - lo) / 2;
            let k = self.in_use_buffers[mid].associated_node;
            if k == node {
                return Ok(mid);
            } else if k < node {
                lo = mid + 1;
            } else {
                hi = mid;
            }
        }
        Err(lo)
    }

    /// The buffer that holds `node`'s output, while it is in use.
    pub fn get_buffer(&self, associated_node: u64) -> (r: Option<&B>)
        requires
            self.wf(),
        ensures
            match r {
                Some(b) => self.in_use().contains_key(associated_node) && *b == self.in_use()[associated_node].0,
                None => !self.in_use().contains_key(associated_node),
            },
    {
        proof {
            lemma_in_use_map(self.in_use_buffers@);
        }
        match self.position(associated_node) {
            Ok(p) => Some(&self.in_use_buffers[p].buffer),
            Err(p) => None,
        }
    }

    /// Posts `node`'s output, to be read `uses` times. A buffer posted for no reads is
    /// reclaimed at once; one posted over an earlier buffer of the same node reclaims that.
    pub fn post_buffer(&mut self, associated_node: u64, buffer: B, uses: usize)
        requires
            old(self).wf(),
        ensures
            final(self).wf(),
            final(self).spec_buffer_size() == old(self).spec_buffer_size(),
            uses == 0 ==> final(self).in_use() == old(self).in_use()
                && final(self).unused() == old(self).unused().push(buffer),
            uses > 0 ==> final(self).in_use() == old(self).in_use().insert(associated_node, (buffer, uses)),
            uses > 0 && old(self).in_use().contains_key(associated_node) ==>
                final(self).unused() == old(self).unused().push(old(self).in_use()[associated_node].0),
            uses > 0 && !old(self).in_use().contains_key(associated_node) ==>
                final(self).unused() == old(self).unused(),
    {
        proof {
            lemma_in_use_map(self.in_use_buffers@);
        }
        if uses == 0 {
            self.unused_buffers.push(buffer);
            return;
        }
        let entry = InUseBuffer { buffer, associated_node, uses };
        let ghost s0 = self.in_use_buffers@;
        match self.position(associated_node) {
            Ok(p) => {
                let prev = self.in_use_buffers.remove(p);
                self.in_use_buffers.insert(p, entry);
                self.unused_buffers.push(prev.buffer);
                proof {
                    let s1 = self.in_use_buffers@;
                    assert(s1 =~= s0.update(p as int, entry));
                    lemma_in_use_update(s0, p as int, entry);
                }
            },
            Err(p) => {
                self.in_use_buffers.insert(p, entry);
                proof {
                    lemma_in_use_insert(s0, p as int, entry);
                }
            },
        }
    }

    /// Marks one read of `node`'s output; after the last read the buffer is reclaimed.
    /// Nothing happens for a node without a buffer in use.
    pub fn mark_used(&mut self, associated_node: u64)
        requires
            old(self).wf(),
        ensures
            final(self).wf(),
            final(self).spec_buffer_size() == old(self).spec_buffer_size(),
            (final(self).in_use(), final(self).unused()) == after_read(old(self).in_use(), old(self).unused(), associated_node),
    {
        proof {
            lemma_in_use_map(self.in_use_buffers@);
        }
        let ghost s0 = self.in_use_buffers@;
        match self.position(associated_node) {
            Ok(p) => {
                let mut entry = self.in_use_buffers.remove(p);
                entry.uses = entry.uses - 1;
                if entry.uses == 0 {
                    self.unused_buffers.push(entry.buffer);
                    proof {
                        lemma_in_use_remove(s0, p as int);
                    }
                } else {
                    let ghost e = entry;
                    self.in_use_buffers.insert(p, entry);
                    proof {
                        assert(self.in_use_buffers@ =~= s0.update(p as int, e));
                        lemma_in_use_update(s0, p as int, e);
                    }
                }
            },
            Err(_) => {},
        }
    }

    /// Reclaims every buffer in use, in the order of their nodes.
    pub fn mark_all_unused(&mut self)
        requires
            old(self).wf(),
        ensures
            final(self).wf(),
            final(self).spec_buffer_size() == old(self).spec_buffer_size(),
            final(self).in_use() == Map::<u64, (B, usize)>::empty(),
            final(self).unused() == old(self).unused() + old(self).in_use_seq().map_values(|e: InUseBuffer<B>| e.buffer),
    {
        let mut rev: Vec<InUseBuffer<B>> = Vec::new();
        let ghost all = self.in_use_buffers@;
        while self.in_use_buffers.len() > 0
            invariant
                self.in_use_buffers@ == all.take(self.in_use_buffers@.len() as int),
                self.in_use_buffers@.len() + rev@.len() == all.len(),
                forall|k: int| 0 <= k < rev@.len() ==> #[trigger] rev@[k] == all[all.len() - 1 - k],
                self.unused_buffers@ == old(self).unused_buffers@,
                self.buffer_size == old(self).buffer_size,
            decreases self.in_use_buffers@.len(),
        {
            let e = self.in_use_buffers.pop().unwrap();
            rev.push(e);
            assert(self.in_use_buffers@ =~= all.take(self.in_use_buffers@.len() as int));
        }
        let ghost u0 = self.unused_buffers@;
        while rev.len() > 0
            invariant
                rev@.len() <= all.len(),
                forall|k: int| 0 <= k < rev@.len() ==> #[trigger] rev@[k] == all[all.len() - 1 - k],
                self.unused_buffers@ == u0 + all.take(all.len() - rev@.len()).map_values(|e: InUseBuffer<B>| e.buffer),
                self.in_use_buffers@ == Seq::<InUseBuffer<B>>::empty(),
                self.buffer_size == old(self).buffer_size,
            decreases rev@.len(),
        {
            let ghost done = all.len() - rev@.len();
            let e = rev.pop().unwrap();
            assert(e == all[done]);
            self.unused_buffers.push(e.buffer);
            assert(self.unused_buffers@ =~= u0 + all.take(done + 1).map_values(|e: InUseBuffer<B>| e.buffer));
        }
        assert(all.take(all.len() as int) =~= all);
        assert(in_use_map(self.in_use_buffers@) =~= Map::<u64, (B, usize)>::empty());
    }
}

/// The map holds exactly the keys of the list, with the entry of each.
pub proof fn lemma_in_use_map<B>(s: Seq<InUseBuffer<B>>)
    requires
        in_use_wf(s),
    ensures
        forall|k: u64| #[trigger] in_use_map(s).contains_key(k) <==> exists|i: int| 0 <= i < s.len() && s[i].associated_node == k,
        forall|i: int| 0 <= i < s.len() ==> #[trigger] in_use_map(s)[s[i].associated_node] == (s[i].buffer, s[i].uses),
        forall|k: u64| #[trigger] in_use_map(s).contains_key(k) ==> in_use_map(s)[k].1 > 0,
    decreases s.len(),
{
    if s.len() > 0 {
        let t = s.drop_last();
        let l = s.last();
        assert(in_use_wf(t));
        lemma_in_use_map(t);
        let mt = in_use_map(t);
        let m = in_use_map(s);
        assert(m == mt.insert(l.associated_node, (l.buffer, l.uses)));
        assert(s[s.len() - 1] == l);
        assert forall|k: u64| #[trigger] m.contains_key(k) <==> exists|i: int| 0 <= i < s.len() && s[i].associated_node == k by {
            if m.contains_key(k) {
                if k == l.associated_node {
                    assert(s[s.len() - 1].associated_node == k);
                } else {
                    assert(mt.contains_key(k));
                    let i = choose|i: int| 0 <= i < t.len() && t[i].associated_node == k;
                    assert(t[i] == s[i]);
                    assert(s[i].associated_node == k);
                }
            }
            if exists|i: int| 0 <= i < s.len() && s[i].associated_node == k {
                let i = choose|i: int| 0 <= i < s.len() && s[i].associated_node == k;
                if i < s.len() - 1 {
                    assert(t[i] == s[i]);
                    assert(t[i].associated_node == k);
                    assert(mt.contains_key(k));
                }
            }
        }
        assert forall|i: int| 0 <= i < s.len() implies #[trigger] m[s[i].associated_node] == (s[i].buffer, s[i].uses) by {
            if i < s.len() - 1 {
                assert(t[i] == s[i]);
                assert(s[i].associated_node < l.associated_node);
                assert(mt[t[i].associated_node] == (t[i].buffer, t[i].uses));
            }
        }
        assert forall|k: u64| #[trigger] m.contains_key(k) implies m[k].1 > 0 by {
            if k != l.associated_node {
                assert(mt.contains_key(k));
            } else {
                assert(s[s.len() - 1].uses > 0);
            }
        }
    }
}

/// Two well formed lists with the same entries for the same keys give the same map.
proof fn lemma_in_use_map_eq<B>(s: Seq<InUseBuffer<B>>, m: Map<u64, (B, usize)>)
    requires
        in_use_wf(s),
        forall|k: u64| #[trigger] m.contains_key(k) <==> exists|i: int| 0 <= i < s.len() && s[i].associated_node == k,
        forall|i: int| 0 <= i < s.len() ==> #[trigger] m[s[i].associated_node] == (s[i].buffer, s[i].uses),
    ensures
        in_use_map(s) == m,
{
    lemma_in_use_map(s);
    assert forall|k: u64| #[trigger] in_use_map(s).contains_key(k) implies in_use_map(s)[k] == m[k] by {
        let i = choose|i: int| 0 <= i < s.len() && s[i].associated_node == k;
    }
    assert(in_use_map(s) =~= m);
}

proof fn lemma_in_use_update<B>(s: Seq<InUseBuffer<B>>, p: int, e: InUseBuffer<B>)
    requires
        in_use_wf(s),
        0 <= p < s.len(),
        s[p].associated_node == e.associated_node,
        e.uses > 0,
    ensures
        in_use_wf(s.update(p, e)),
        in_use_map(s.update(p, e)) == in_use_map(s).insert(e.associated_node, (e.buffer, e.uses)),
{
    let t = s.update(p, e);
    lemma_in_use_map(s);
    assert(in_use_wf(t)) by {
        assert forall|i: int, j: int| 0 <= i < j < t.len() implies t[i].associated_node < t[j].associated_node by {
            assert(s[i].associated_node < s[j].associated_node);
        }
        assert forall|i: int| 0 <= i < t.len() implies #[trigger] t[i].uses > 0 by {
            if i != p {
                assert(s[i].uses > 0);
            }
        }
    }
    let m = in_use_map(s).insert(e.associated_node, (e.buffer, e.uses));
    assert forall|k: u64| #[trigger] m.contains_key(k) <==> exists|i: int| 0 <= i < t.len() && t[i].associated_node == k by {
        if m.contains_key(k) && k != e.associated_node {
            let i = choose|i: int| 0 <= i < s.len() && s[i].associated_node == k;
            assert(t[i].associated_node == k);
        }
        if k == e.associated_node {
            assert(t[p].associated_node == k);
        }
        if exists|i: int| 0 <= i < t.len() && t[i].associated_node == k {
            let i = choose|i: int| 0 <= i < t.len() && t[i].associated_node == k;
            if i != p {
                assert(s[i].associated_node == k);
            }
        }
    }
    assert forall|i: int| 0 <= i < t.len() implies #[trigger] m[t[i].associated_node] == (t[i].buffer, t[i].uses) by {
        if i != p {
            assert(s[i].associated_node != s[p].associated_node) by {
                if i < p {
                    assert(s[i].associated_node < s[p].associated_node);
                } else {
                    assert(s[p].associated_node < s[i].associated_node);
                }
            }
            assert(m[t[i].associated_node] == in_use_map(s)[s[i].associated_node]);
        }
    }
    lemma_in_use_map_eq(t, m);
}

proof fn lemma_in_use_insert<B>(s: Seq<InUseBuffer<B>>, p: int, e: InUseBuffer<B>)
    requires
        in_use_wf(s),
        0 <= p <= s.len(),
        forall|i: int| 0 <= i < p ==> s[i].associated_node < e.associated_node,
        forall|i: int| p <= i < s.len() ==> s[i].associated_node > e.associated_node,
        e.uses > 0,
    ensures
        in_use_wf(s.insert(p, e)),
        in_use_map(s.insert(p, e)) == in_use_map(s).insert(e.associated_node, (e.buffer, e.uses)),
{
    let t = s.insert(p, e);
    lemma_in_use_map(s);
    assert(in_use_wf(t)) by {
        assert forall|i: int, j: int| 0 <= i < j < t.len() implies t[i].associated_node < t[j].associated_node by {
            if j < p {
                assert(t[i] == s[i] && t[j] == s[j]);
            } else if j == p {
                assert(t[i] == s[i]);
            } else if i < p {
                assert(t[i] == s[i] && t[j] == s[j - 1]);
            } else if i == p {
                assert(t[j] == s[j - 1]);
            } else {
                assert(t[i] == s[i - 1] && t[j] == s[j - 1]);
            }
        }
        assert forall|i: int| 0 <= i < t.len() implies #[trigger] t[i].uses > 0 by {
            if i < p {
                assert(t[i] == s[i]);
            } else if i > p {
                assert(t[i] == s[i - 1]);
            }
        }
    }
    let m = in_use_map(s).insert(e.associated_node, (e.buffer, e.uses));
    assert forall|k: u64| #[trigger] m.contains_key(k) <==> exists|i: int| 0 <= i < t.len() && t[i].associated_node == k by {
        if m.contains_key(k) && k != e.associated_node {
            let i = choose|i: int| 0 <= i < s.len() && s[i].associated_node == k;
            if i < p {
                assert(t[i] == s[i]);
            } else {
                assert(t[i + 1] == s[i]);
            }
        }
        if k == e.associated_node {
            assert(t[p].associated_node == k);
        }
        if exists|i: int| 0 <= i < t.len() && t[i].associated_node == k {
            let i = choose|i: int| 0 <= i < t.len() && t[i].associated_node == k;
            if i < p {
                assert(s[i] == t[i]);
            } else if i > p {
                assert(s[i - 1] == t[i]);
            }
        }
    }
    assert forall|i: int| 0 <= i < t.len() implies #[trigger] m[t[i].associated_node] == (t[i].buffer, t[i].uses) by {
        if i < p {
            assert(t[i] == s[i]);
        } else if i > p {
            assert(t[i] == s[i - 1]);
        }
    }
    lemma_in_use_map_eq(t, m);
}

proof fn lemma_in_use_remove<B>(s: Seq<InUseBuffer<B>>, p: int)
    requires
        in_use_wf(s),
        0 <= p < s.len(),
    ensures
        in_use_wf(s.remove(p)),
        in_use_map(s.remove(p)) == in_use_map(s).remove(s[p].associated_node),
{
    let t = s.remove(p);
    lemma_in_use_map(s);
    assert(in_use_wf(t)) by {
        assert forall|i: int, j: int| 0 <= i < j < t.len() implies t[i].associated_node < t[j].associated_node by {
            if j < p {
                assert(t[i] == s[i] && t[j] == s[j]);
            } else if i < p {
                assert(t[i] == s[i] && t[j] == s[j + 1]);
            } else {
                assert(t[i] == s[i + 1] && t[j] == s[j + 1]);
            }
        }
        assert forall|i: int| 0 <= i < t.len() implies #[trigger] t[i].uses > 0 by {
            if i < p {
                assert(t[i] == s[i]);
            } else {
                assert(t[i] == s[i + 1]);
            }
        }
    }
    let key = s[p].associated_node;
    let m = in_use_map(s).remove(key);
    assert forall|k: u64| #[trigger] m.contains_key(k) <==> exists|i: int| 0 <= i < t.len() && t[i].associated_node == k by {
        if m.contains_key(k) {
            let i = choose|i: int| 0 <= i < s.len() && s[i].associated_node == k;
            if i < p {
                assert(t[i] == s[i]);
            } else {
                assert(i != p);
                assert(t[i - 1] == s[i]);
            }
        }
        if exists|i: int| 0 <= i < t.len() && t[i].associated_node == k {
            let i = choose|i: int| 0 <= i < t.len() && t[i].associated_node == k;
            if i < p {
                assert(s[i] == t[i]);
                assert(s[i].associated_node < key);
            } else {
                assert(s[i + 1] == t[i]);
                assert(s[i + 1].associated_node > key);
            }
        }
    }
    assert forall|i: int| 0 <= i < t.len() implies #[trigger] m[t[i].associated_node] == (t[i].buffer, t[i].uses) by {
        if i < p {
            assert(t[i] == s[i]);
            assert(s[i].associated_node < key);
        } else {
            assert(t[i] == s[i + 1]);
            assert(s[i + 1].associated_node > key);
        }
    }
    lemma_in_use_map_eq(t, m);
}

} // verus!
