//! What holds of every state that a manager comes to.

use crate::lifecycle::accounts::{lemma_job_event_accounted, lemma_set_cases_accounted};
use crate::lifecycle::home::{lemma_housed_still, lemma_step_at_home};
use crate::lifecycle::order::lemma_step;
use crate::lifecycle::sound::lemma_step_sound;
use crate::model::{ManagerView, StepView};
use vstd::prelude::*;

verus! {

impl ManagerView {
    /// What holds of every state that a manager comes to.
    pub open spec fn steady(self) -> bool {
        self.sound() && self.accounted() && self.pools.shaped() && self.housed()
    }
}

/// Every step keeps what holds of every state.
pub proof fn lemma_step_steady(s: ManagerView, step: StepView)
    requires
        s.steady(),
    ensures
        s.step(step).0.steady(),
{
    lemma_step_sound(s, step);
    lemma_step_at_home(s, step);
    lemma_step(s, step);
    lemma_housed_still(s, s.step(step).0);
    match step {
        StepView::Report { ticket, event } => {
            lemma_job_event_accounted(s, ticket, event);
        },
        StepView::Want { cases } => {
            if !s.exhausted(cases.len()) {
                lemma_set_cases_accounted(s, cases);
            }
        },
    }
}

/// Every run keeps what holds of every state.
pub proof fn lemma_run_steady(s: ManagerView, steps: Seq<StepView>, n: int)
    requires
        s.steady(),
        0 <= n <= steps.len(),
    ensures
        s.run(steps, n).0.steady(),
    decreases n,
{
    if n > 0 {
        lemma_run_steady(s, steps, n - 1);
        lemma_step_steady(s.run(steps, n - 1).0, steps[n - 1]);
    }
}

} // verus!
