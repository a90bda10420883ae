use vstd::prelude::*;
use std::marker::PhantomData;

verus! {

/// `GL_STATIC_DRAW`.
pub const STATIC_DRAW: u32 = 0x88E4;
/// `GL_STREAM_DRAW`.
pub const STREAM_DRAW: u32 = 0x88E0;
/// `GL_DYNAMIC_DRAW`.
pub const DYNAMIC_DRAW: u32 = 0x88E8;

/// A hint to the driver about how a buffer will be used.
#[derive(Copy, Clone, Debug, PartialEq, Eq, Structural)]
pub enum BufferUsage {
    /// Contents will be updated infrequently, and are mostly unchanging.
    Static,
    /// Contents will be updated frequently, e.g. every frame.
    Stream,
    /// Contents will be modified frequently.
    Dynamic,
}

/// The GL usage enum that stands for a usage hint.
pub open spec fn usage_gl(usage: BufferUsage) -> u32 {
    match usage {
        BufferUsage::Static => STATIC_DRAW,
        BufferUsage::Dynamic => DYNAMIC_DRAW,
        BufferUsage::Stream => STREAM_DRAW,
    }
}

impl BufferUsage {
    pub fn into_gl(self) -> (r: u32)
        ensures
            r == usage_gl(self),
    {
        match self {
            BufferUsage::Static => STATIC_DRAW,
            BufferUsage::Dynamic => DYNAMIC_DRAW,
            BufferUsage::Stream => STREAM_DRAW,
        }
    }
}

/// The upload that a buffer asks for: `count` elements into buffer `handle`, with the
/// GL usage enum `usage`.
#[derive(Copy, Clone, Debug, PartialEq, Eq, Structural)]
pub struct BufferUpload {
    pub handle: u32,
    pub usage: u32,
    pub count: usize,
}

/// What an upload of `count` elements into a buffer asks for: nothing when there is
/// nothing to upload.
pub open spec fn upload_for(handle: u32, usage: BufferUsage, count: nat) -> Option<BufferUpload> {
    if count == 0 {
        None
    } else {
        Some(BufferUpload { handle, usage: usage_gl(usage), count: count as usize })
    }
}

/// A typed GL buffer: its handle, the number of elements last uploaded and its usage hint.
///
/// This is not an RAII type: no attempt is made to clean up the managed buffer.
#[derive(Copy, Debug)]
pub struct Buffer<T: Copy> {
    handle: u32,
    length: u32,
    usage: BufferUsage,
    _phantom: PhantomData<T>,
}

impl<T: Copy> Clone for Buffer<T> {
    fn clone(&self) -> (r: Self)
        ensures
            r == *self,
    {
        *self
    }
}

impl<T: Copy> Buffer<T> {
    pub closed spec fn spec_handle(self) -> u32 {
        self.handle
    }

    pub closed spec fn spec_len(self) -> u32 {
        self.length
    }

    pub closed spec fn spec_usage(self) -> BufferUsage {
        self.usage
    }

    /// Wraps a freshly created GL buffer; it holds nothing yet.
    pub fn from_raw(handle: u32, usage: BufferUsage) -> (b: Buffer<T>)
        ensures
            b.spec_handle() == handle,
            b.spec_len() == 0,
            b.spec_usage() == usage,
    {
        Buffer { handle, usage, length: 0, _phantom: PhantomData }
    }

    pub fn handle(&self) -> (r: u32)
        ensures
            r == self.spec_handle(),
    {
        self.handle
    }

    /// Records `data` as the buffer's contents. The length is the element count taken
    /// modulo 2^32; nothing needs uploading when `data` is empty.
    pub fn upload(&mut self, data: &[T]) -> (cmd: Option<BufferUpload>)
        ensures
            final(self).spec_handle() == old(self).spec_handle(),
            final(self).spec_usage() == old(self).spec_usage(),
            final(self).spec_len() == data@.len() as u32,
            cmd == upload_for(old(self).spec_handle(), old(self).spec_usage(), data@.len()),
    {
        let n = data.len();
        self.length = n as u32;
        if n == 0 {
            None
        } else {
            Some(BufferUpload { handle: self.handle, usage: self.usage.into_gl(), count: n })
        }
    }

    /// Records a single element as the buffer's contents.
    pub fn upload_single(&mut self, data: &T) -> (cmd: BufferUpload)
        ensures
            final(self).spec_handle() == old(self).spec_handle(),
            final(self).spec_usage() == old(self).spec_usage(),
            final(self).spec_len() == 1,
            cmd == (BufferUpload {
                handle: old(self).spec_handle(),
                usage: usage_gl(old(self).spec_usage()),
                count: 1,
            }),
    {
        self.length = 1;
        BufferUpload { handle: self.handle, usage: self.usage.into_gl(), count: 1 }
    }

    pub fn len(&self) -> (r: u32)
        ensures
            r == self.spec_len(),
    {
        self.length
    }

    pub fn is_empty(&self) -> (r: bool)
        ensures
            r == (self.spec_len() == 0),
    {
        self.length == 0
    }
}

} // verus!
