//! What holds of a manager over its whole life. Each property is stated of
//! the steps of the manager's model and proved for every state that a
//! manager can come to.
//!
//! - `order`: tickets only rise; a job is live from its spawn to its end,
//!   which is told exactly once (`lemma_report_stores`); a job that is over
//!   is never started (`lemma_over_is_over`); after a change of the wanted
//!   set the identities in flight are the wanted ones that no earlier result
//!   stood for (`lemma_set_cases`); a settled manager is quiet
//!   (`lemma_settled_is_quiet`).
//! - `sound`: who waits in the queue of the pools is a job that waits, and
//!   who holds an instance is a job past waiting (`lemma_run_sound`).
//! - `accounts`: a job is cancelled if and only if its case is wanted no more.
//! - `steady`: all of these together, for every run (`lemma_run_steady`).
//! - `outcomes`: a wanted case ends as completed or as an error, never as
//!   cancelled (`lemma_outcome_fits`, `lemma_run_outcomes`), and what has
//!   left the in-flight map does not come back (`lemma_run_flights`).
//! - `settles`: once a manager is settled, every case that was wanted last
//!   has been told as completed or as an error (`lemma_settled_wanted`), and
//!   every job whose case left the wanted set while it was in flight has
//!   been told as cancelled or as an error (`lemma_cancelled_outcome`).
//! - `caching`: completions are reused, failures and cancellations are not
//!   (`lemma_completion_is_reused`, `lemma_failure_is_not_reused`); over a
//!   whole run, only completions are stored (`lemma_run_stores`,
//!   `lemma_failures_are_not_reused`).
//! - `cancel`: a job that is cancelled before it has its resources is never started,
//!   whatever is cancelled with it (`lemma_cancelled_batch`).
//! - `starts`: a change of the wanted set starts none of the jobs that it
//!   spawns (`lemma_set_cases_starts`, `lemma_spawned_is_not_started`).
//! - `ends`: the end of every job is told exactly once (`lemma_run_ends_told`).
//! - `home`: no two jobs share a worktree (`lemma_step_at_home`).

pub mod accounts;
pub mod caching;
pub mod cancel;
pub mod ends;
pub mod home;
pub mod order;
pub mod outcomes;
pub mod settles;
pub mod sound;
pub mod starts;
pub mod steady;
