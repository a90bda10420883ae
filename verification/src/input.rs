pub mod context_group;
pub mod raw;
pub mod frame_state;
pub mod contexts;
