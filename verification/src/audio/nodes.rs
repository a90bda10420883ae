use vstd::prelude::*;

verus! {

/// A sound loaded into the audio system, by its key's bits.
#[derive(Copy, Clone, Debug, Hash, PartialEq, Eq, Structural)]
pub struct SoundId(pub u64);

/// Plays a loaded sound once, from its start.
pub struct SamplerNode {
    pub sound_id: SoundId,
    pub position: usize,
}

impl SamplerNode {
    pub fn new(sound_id: SoundId) -> (n: SamplerNode)
        ensures
            n.sound_id == sound_id,
            n.position == 0,
    {
        SamplerNode { sound_id, position: 0 }
    }

    /// Whether the whole sound, of `sound_len` samples, has been played.
    pub fn finished_playing(&self, sound_len: usize) -> (r: bool)
        ensures
            r == (self.position >= sound_len),
    {
        self.position >= sound_len
    }

    /// Plans the next block of `output_len` samples of a sound of `sound_len` samples: the
    /// samples to copy, `start..start + count`, the rest of the block being silence. Once
    /// the sound is over the block is all silence and the position stays.
    pub fn next_block(&mut self, sound_len: usize, output_len: usize) -> (r: Option<(usize, usize)>)
        requires
            old(self).position < sound_len ==> old(self).position + output_len <= usize::MAX,
        ensures
            final(self).sound_id == old(self).sound_id,
            old(self).position >= sound_len ==> r is None && final(self).position == old(self).position,
            old(self).position < sound_len ==> {
                &&& r == Some((old(self).position,
                    if sound_len - old(self).position < output_len { (sound_len - old(self).position) as usize } else { output_len }))
                &&& final(self).position == old(self).position + output_len
            },
    {
        if self.position >= sound_len {
            return None;
        }
        let remaining = sound_len - self.position;
        let count = if remaining < output_len { remaining } else { output_len };
        let start = self.position;
        self.position = self.position + output_len;
        Some((start, count))
    }
}

} // verus!
