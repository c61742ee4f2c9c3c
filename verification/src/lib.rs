//! Fair in-memory containers that interleave items across dynamically
//! discovered groups: a round-robin queue of FIFO buckets and a round-robin
//! stack of LIFO buckets.

pub mod group;
pub mod queue;
pub mod rotation;
pub mod stack;

pub use group::FairGroup;
pub use queue::FairQueue;
pub use queue::QueueGroupHeads;
pub use stack::FairStack;
pub use stack::StackGroupHeads;
