//! A bounded order-book price ladder: an ordered mapping from 32-bit prices
//! to 64-bit quantities, split into a primary tier that holds the smallest
//! live keys and a preempt (overflow) tier for everything above the primary's
//! range. Every public operation carries a contract over the ladder's view as
//! one finite map.
pub mod extmap;
pub mod glass;
pub mod laws;
pub mod seqmap;

pub use glass::Glass;
pub use glass::LeafNode;
pub use glass::MAX_SIZE;
