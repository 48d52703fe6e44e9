//! User-space shared-memory ring communication.
//!
//! A shared memory file holds a table of point-to-point message rings. A server lays the file out
//! and hands slots of the rings to clients; the two clients of a ring exchange fixed size entries
//! through it. The crate holds the rules of that exchange: the layout of the file, the life of a
//! client slot, the ring queues, what a wait is armed with and how its outcome reads, and the
//! control protocol. System calls are left to the program around it.

pub mod atomic;
pub mod client;
pub mod control;
pub mod controller;
pub mod data;
pub mod frame;
pub mod io_uring;
pub mod layout;
pub mod linux;
pub mod mapping;
pub mod options;
pub mod queue;
pub mod ring;
pub mod serve;
pub mod server;
pub mod tracker;
pub mod uapi;
