use vstd::prelude::*;

verus! {

/// Identifies a group of input contexts.
#[derive(Copy, Clone, Debug, Hash, PartialEq, Eq, PartialOrd, Ord, Structural)]
pub struct ContextGroupID(pub usize);

/// A collection of input contexts that are enabled and disabled together.
pub struct ContextGroup {
    pub id: ContextGroupID,
    pub name: String,
}

impl ContextGroup {
    pub fn new_empty(name: String, id: ContextGroupID) -> (g: ContextGroup)
        ensures
            g.id == id,
            g.name@ == name@,
    {
        ContextGroup { id, name }
    }
}

} // verus!
