use vstd::prelude::*;

verus! {

/// A mono source followed by an effect applied to each of its frames.
pub struct EffectStage<N, E> {
    pub inner: N,
    pub effect: E,
}

impl<N, E> EffectStage<N, E> {
    pub fn new(inner: N, effect: E) -> (s: Self)
        ensures
            s.inner == inner,
            s.effect == effect,
    {
        EffectStage { inner, effect }
    }
}

/// A mono node that applies an effect to its first input.
pub struct EffectNode<E> {
    pub effect: E,
}

impl<E> EffectNode<E> {
    pub fn new(effect: E) -> (n: Self)
        ensures
            n.effect == effect,
    {
        EffectNode { effect }
    }
}

/// A stereo node that applies an effect to each channel of its first input, with a copy
/// of the effect for each channel.
pub struct StereoEffectNode<E> {
    pub left: E,
    pub right: E,
}

impl<E: Clone> StereoEffectNode<E> {
    /// The left channel gets a clone of `effect`, the right channel `effect` itself.
    pub fn new(effect: E) -> (n: Self)
        ensures
            cloned::<E>(effect, n.left),
            n.right == effect,
    {
        StereoEffectNode { left: effect.clone(), right: effect }
    }
}

} // verus!
