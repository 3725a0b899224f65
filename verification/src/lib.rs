pub mod bit_set;
pub mod bits;
pub mod buddy;
pub mod laws;
pub mod list;
pub mod lvl;
pub mod map;
pub mod node;
pub mod page;
pub mod queue;
pub mod sizes;
pub mod state;

pub use buddy::BuddyAllocator;
pub use page::{AllocError, Align, Page};
