use vstd::prelude::*;

verus! {

/// The most blocks the producer renders in one wake-up, so that a consumer that outpaces
/// it cannot hold it in its loop.
pub const MAX_BLOCKS_PER_WAKE: u32 = 5;

/// Room left in a sample buffer of `capacity` that holds `len` samples.
pub fn free_capacity(capacity: usize, len: usize) -> (r: usize)
    ensures
        r == (if len < capacity { capacity - len } else { 0 }),
{
    if len < capacity { capacity - len } else { 0 }
}

/// Whether the producer renders another block: it has rendered fewer than
/// `MAX_BLOCKS_PER_WAKE` since waking, and a whole block of `block_len` samples fits.
pub fn should_produce_block(blocks_done: u32, capacity: usize, len: usize, block_len: usize) -> (r: bool)
    ensures
        r == (blocks_done < MAX_BLOCKS_PER_WAKE && (if len < capacity { capacity - len } else { 0 }) >= block_len),
{
    blocks_done < MAX_BLOCKS_PER_WAKE && free_capacity(capacity, len) >= block_len
}

/// However fast the consumer drains the buffer, a wake-up renders at most
/// `MAX_BLOCKS_PER_WAKE` blocks: once that many are done, no more is produced.
pub proof fn lemma_blocks_bounded(blocks_done: u32, capacity: usize, len: usize, block_len: usize)
    requires
        blocks_done >= MAX_BLOCKS_PER_WAKE,
    ensures
        !(blocks_done < MAX_BLOCKS_PER_WAKE && (if len < capacity { capacity - len } else { 0 }) >= block_len),
{
}

} // verus!
