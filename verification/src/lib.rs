//! A discrete-time simulator of CPU process scheduling.
//!
//! A process is a queue of bursts that alternate between time on the
//! processor and time waiting for I/O.  A scheduler owns the ready queues,
//! the I/O-wait queue and the collection of completed processes, and advances
//! one global clock until every process has run out of bursts.

pub mod laws;
pub mod metrics;
pub mod model;
pub mod ordering;
pub mod process;
pub mod scheduler;
pub mod tally;
