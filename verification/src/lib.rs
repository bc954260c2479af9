//! The decision logic of an asynchronous PGAS runtime: how distributed arrays
//! are laid out over processing elements (PEs), how active messages are
//! batched, encoded and answered, how distributed reference counts, barriers
//! and memory regions behave.
//!
//! Every function states what it computes over mathematical models of its
//! arguments. Transport, locks, timers and task scheduling live outside.
pub mod active_messaging;
pub mod array;
pub mod barrier;
pub mod darc;
pub mod lamellae;
pub mod lamellar_team;
pub mod math;
pub mod memregion;
pub mod wire;
