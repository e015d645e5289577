//! Bookkeeping for distributed semaphores: peers acquire locks with a count to named semaphores,
//! locks are granted fairly, expire unless kept alive, and follow lock hierarchies.
pub mod application_cfg;
pub mod cli;
pub mod error;
pub mod event_loop;
pub mod laws;
pub mod leases;
pub mod name_map;
pub mod protocol;
pub mod state;
pub mod text;
pub mod tally;
