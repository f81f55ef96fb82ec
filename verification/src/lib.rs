//! Two linear containers with verified contracts: a LIFO [`Stack`] and a FIFO
//! [`Queue`]. Each is described by the sequence of values it holds, and every
//! operation states how that sequence changes.

pub mod model;
pub mod queue;
pub mod stack;

pub use queue::Queue;
pub use stack::{Stack, StackError};
