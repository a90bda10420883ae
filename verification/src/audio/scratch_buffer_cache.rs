use vstd::prelude::*;

verus! {

/// Hands out scratch buffers, mono and stereo, for one run of the graph: `reset` makes
/// sure there are enough of each kind and starts handing them out again from the first;
/// `new_buffer` hands out the next one of a kind. The buffers themselves hold samples and
/// live with the caller, by the positions handed out here.
pub struct ScratchBufferCache {
    mono_count: usize,
    mono_allocated_index: usize,
    stereo_count: usize,
    stereo_allocated_index: usize,
    buffer_size: usize,
}

impl ScratchBufferCache {
    /// How many buffers of a kind there are.
    pub closed spec fn count(self, stereo: bool) -> nat {
        if stereo { self.stereo_count as nat } else { self.mono_count as nat }
    }

    /// How many buffers of a kind have been handed out since the last reset.
    pub closed spec fn handed_out(self, stereo: bool) -> nat {
        if stereo { self.stereo_allocated_index as nat } else { self.mono_allocated_index as nat }
    }

    pub closed spec fn spec_buffer_size(self) -> usize {
        self.buffer_size
    }

    pub fn new(buffer_size: usize) -> (c: ScratchBufferCache)
        ensures
            c.count(false) == 0 && c.count(true) == 0,
            c.handed_out(false) == 0 && c.handed_out(true) == 0,
            c.spec_buffer_size() == buffer_size,
    {
        ScratchBufferCache { mono_count: 0, mono_allocated_index: 0, stereo_count: 0, stereo_allocated_index: 0, buffer_size }
    }

    pub fn buffer_size(&self) -> (r: usize)
        ensures
            r == self.spec_buffer_size(),
    {
        self.buffer_size
    }

    /// How many buffers of a kind there are: the caller keeps that many.
    pub fn buffer_count(&self, stereo: bool) -> (r: usize)
        ensures
            r == self.count(stereo),
    {
        if stereo { self.stereo_count } else { self.mono_count }
    }

    /// Grows each kind to at least the count asked for (never shrinks it), and starts
    /// handing buffers out from the first again.
    pub fn reset(&mut self, mono_buffer_count: usize, stereo_buffer_count: usize)
        ensures
            final(self).count(false) == (if old(self).count(false) < mono_buffer_count { mono_buffer_count as nat } else { old(self).count(false) }),
            final(self).count(true) == (if old(self).count(true) < stereo_buffer_count { stereo_buffer_count as nat } else { old(self).count(true) }),
            final(self).handed_out(false) == 0 && final(self).handed_out(true) == 0,
            final(self).spec_buffer_size() == old(self).spec_buffer_size(),
    {
        if self.mono_count < mono_buffer_count {
            self.mono_count = mono_buffer_count;
        }
        if self.stereo_count < stereo_buffer_count {
            self.stereo_count = stereo_buffer_count;
        }
        self.mono_allocated_index = 0;
        self.stereo_allocated_index = 0;
    }

    /// The position of the next buffer of a kind, which is handed out. There must be one
    /// left since the last reset.
    pub fn new_buffer(&mut self, stereo: bool) -> (r: usize)
        requires
            old(self).handed_out(stereo) < old(self).count(stereo),
        ensures
            r == old(self).handed_out(stereo),
            final(self).handed_out(stereo) == old(self).handed_out(stereo) + 1,
            final(self).handed_out(!stereo) == old(self).handed_out(!stereo),
            final(self).count(true) == old(self).count(true),
            final(self).count(false) == old(self).count(false),
            final(self).spec_buffer_size() == old(self).spec_buffer_size(),
    {
        if stereo {
            let r = self.stereo_allocated_index;
            self.stereo_allocated_index = r + 1;
            r
        } else {
            let r = self.mono_allocated_index;
            self.mono_allocated_index = r + 1;
            r
        }
    }

    /// Whether a buffer of a kind is left to hand out.
    pub fn has_free(&self, stereo: bool) -> (r: bool)
        ensures
            r == (self.handed_out(stereo) < self.count(stereo)),
    {
        if stereo { self.stereo_allocated_index < self.stereo_count } else { self.mono_allocated_index < self.mono_count }
    }
}

} // verus!
