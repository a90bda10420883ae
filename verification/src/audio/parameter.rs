use vstd::prelude::*;

verus! {

/// A parameter whose value is generated, frame by frame, by a mono node builder.
pub struct NodeBuilderParameter<N>(pub N);

} // verus!
