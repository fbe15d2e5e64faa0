//! Dirty-tracking scheduler for incremental re-computation in a reactive
//! component tree.
//!
//! Producers mark component scopes dirty and queue asynchronous tasks against
//! them; a driver loop repeatedly asks for the next unit of work. The
//! scheduler guarantees that ancestors (lower tree height) are serviced before
//! descendants, that ties break deterministically by scope identity, and that
//! a scope which is simultaneously dirty and holds completed tasks is serviced
//! exactly once, carrying both signals.

pub mod laws;
pub mod order;
pub mod scheduler;

pub use order::ScopeId;
pub use order::ScopeOrder;
pub use order::Task;
pub use scheduler::DirtyScopes;
pub use scheduler::DirtyTasks;
pub use scheduler::Work;
