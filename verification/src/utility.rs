pub mod borrow_state;
pub mod resource_scope;
pub mod resource_lock;

pub use borrow_state::BorrowState;
