//! The state replication core of an authoritative real-time game server:
//! a fixed-step simulation of agents in a rectangular world, change
//! detection against the values last broadcast, interest management by
//! view radius, and the per-client choice between full and delta syncs.
//!
//! World math is fixed-point: lengths in hundredths of a unit, so the
//! values sent to clients are already rounded to two decimal places.

pub mod fixed;
pub mod physics;
pub mod world;
pub mod replication;
pub mod session;
pub mod ids;
pub mod mailbox;
pub mod server;
pub mod tick;
pub mod laws;
