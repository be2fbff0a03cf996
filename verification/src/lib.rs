//! A deferred mutation queue: commands are recorded while a store is shared,
//! and replayed against it later, in submission order, by a single owner.
//!
//! * `fault`: the value with which a command reports that it failed.
//! * `raw_queue`: the storage of a queue, and a flush of it step by step.
//! * `world`: commands, the store they are applied to, and the flush of the
//!   store's own queue, which commands may push onto while it runs.
//! * `queue`: the queue that producers push onto and the owner applies.
//! * `model`: what a flush does, as functions on sequences of commands.
//! * `laws`: what follows for every queue, proved from the model.

pub mod fault;
pub mod laws;
pub mod model;
pub mod queue;
pub mod raw_queue;
pub mod world;
