use vstd::prelude::*;

verus! {

/// Sums the frames of a tuple of node builders.
pub struct TupleAddNode<T>(pub T);

/// Multiplies the frames of a tuple of node builders.
pub struct TupleMultiplyNode<T>(pub T);

/// Combines a tuple of node builders into one.
pub trait NodeBuilderTuple: Sized {
    fn add(self) -> (r: TupleAddNode<Self>)
        ensures
            r.0 == self,
    {
        TupleAddNode(self)
    }

    fn multiply(self) -> (r: TupleMultiplyNode<Self>)
        ensures
            r.0 == self,
    {
        TupleMultiplyNode(self)
    }
}

impl<N0> NodeBuilderTuple for (N0,) {}
impl<N0, N1> NodeBuilderTuple for (N0, N1) {}
impl<N0, N1, N2> NodeBuilderTuple for (N0, N1, N2) {}
impl<N0, N1, N2, N3> NodeBuilderTuple for (N0, N1, N2, N3) {}
impl<N0, N1, N2, N3, N4> NodeBuilderTuple for (N0, N1, N2, N3, N4) {}
impl<N0, N1, N2, N3, N4, N5> NodeBuilderTuple for (N0, N1, N2, N3, N4, N5) {}
impl<N0, N1, N2, N3, N4, N5, N6> NodeBuilderTuple for (N0, N1, N2, N3, N4, N5, N6) {}
impl<N0, N1, N2, N3, N4, N5, N6, N7> NodeBuilderTuple for (N0, N1, N2, N3, N4, N5, N6, N7) {}
impl<N0, N1, N2, N3, N4, N5, N6, N7, N8> NodeBuilderTuple for (N0, N1, N2, N3, N4, N5, N6, N7, N8) {}

} // verus!
