use vstd::prelude::*;

verus! {

/// Tracks whether a value is currently borrowed immutably (any number of times)
/// or mutably (exactly once), in the manner of `RefCell`.
///
/// The state is a count: `0` means not borrowed, a positive count is the number
/// of live shared borrows, and `-1` means one live exclusive borrow.
#[derive(Debug)]
pub struct BorrowState {
    state: isize,
}

impl View for BorrowState {
    type V = int;

    closed spec fn view(&self) -> int {
        self.state as int
    }
}

impl BorrowState {
    #[verifier::type_invariant]
    spec fn inv(self) -> bool {
        self.state >= -1
    }

    pub fn new() -> (s: BorrowState)
        ensures
            s@ == 0,
    {
        BorrowState { state: 0 }
    }

    /// Registers one more shared borrow. Not allowed while exclusively borrowed.
    pub fn borrow(&mut self)
        requires
            old(self)@ >= 0,
            old(self)@ < isize::MAX,
        ensures
            final(self)@ == old(self)@ + 1,
    {
        self.state = self.state + 1;
    }

    /// Releases one shared borrow.
    pub fn unborrow(&mut self)
        requires
            old(self)@ >= 1,
        ensures
            final(self)@ == old(self)@ - 1,
    {
        self.state = self.state - 1;
    }

    /// Registers the exclusive borrow. Only allowed when not borrowed at all.
    pub fn borrow_mut(&mut self)
        requires
            old(self)@ == 0,
        ensures
            final(self)@ == -1,
    {
        self.state = -1;
    }

    /// Releases the exclusive borrow.
    pub fn unborrow_mut(&mut self)
        requires
            old(self)@ == -1,
        ensures
            final(self)@ == 0,
    {
        self.state = 0;
    }

    pub fn is_borrowed(&self) -> (r: bool)
        ensures
            r == (self@ != 0),
    {
        self.state != 0
    }
}

/// A shared borrow followed by its release leaves the state as it was.
pub proof fn lemma_borrow_release(before: BorrowState, borrowed: BorrowState, after: BorrowState)
    requires
        before@ >= 0,
        borrowed@ == before@ + 1,
        after@ == borrowed@ - 1,
    ensures
        after@ == before@,
        borrowed@ != 0,
{
}

/// An exclusive borrow followed by its release leaves the value unborrowed, and while it
/// lasts the value counts as borrowed and no shared borrow is allowed.
pub proof fn lemma_borrow_mut_release(before: BorrowState, borrowed: BorrowState, after: BorrowState)
    requires
        before@ == 0,
        borrowed@ == -1,
        after@ == 0,
    ensures
        after@ == before@,
        borrowed@ != 0,
        !(borrowed@ >= 0),
{
}

} // verus!
