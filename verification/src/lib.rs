//! Continuous local testing of a moving set of revisions: the decisions of the
//! test manager, its resource pools, its result cache and its job supervisor,
//! each stated as a contract and proved.
//!
//! The library decides and never acts. A program around it hands the
//! [`manager::Manager`] what happens, the revisions that are wanted now
//! ([`manager::Manager::set_revisions`]) and what became of a job's
//! supervisor and process ([`manager::Manager::job_event`]), and gets back
//! the [`manager::Effect`]s that it is to carry out, in order: notifications
//! to send, supervisors to spawn, processes to start, to interrupt and to
//! kill. A job asks for its resources at the first turn of its supervisor,
//! not when it is enqueued.
//!
//! What the manager does is given by a model of it as plain values
//! ([`model::ManagerView`]), and what holds of every run of that model is
//! proved in [`lifecycle`] and [`lending`].

pub mod config;
pub mod git;
pub mod job;
pub mod lending;
pub mod lifecycle;
pub mod lists;
pub mod manager;
pub mod model;
pub mod pool;
pub mod process;
pub mod resource;
pub mod result;
pub mod test;
pub mod text;
