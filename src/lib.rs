//! Track bookkeeping, radar scheduling and search budgets for an autonomous
//! fire-control agent that runs in fixed discrete ticks.
pub mod class;
pub mod contacts;
pub mod radar;
pub mod search;
