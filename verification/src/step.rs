//! What a task asks of its runtime, one step at a time.

use crate::decimal::{decimal, push_decimal};
use vstd::prelude::*;
use vstd::string::*;

verus! {

/// How long a task suspends before each unit of work, in seconds.
pub const DELAY_SECONDS: u64 = 1;

/// One step of a task.
#[derive(Debug, PartialEq, Eq)]
pub enum Step {
    /// Suspend the task for the fixed interval, then resume it.
    Delay,
    /// Record that the task `id` has finished its unit number `count`.
    Progress { id: String, count: u64 },
    /// The task `id` has finished; this is its completion record.
    Complete { id: String },
}

/// The mathematical content of a [`Step`].
pub enum StepView {
    Delay,
    Progress { id: Seq<char>, count: nat },
    Complete { id: Seq<char> },
}

impl View for Step {
    type V = StepView;

    open spec fn view(&self) -> StepView {
        match self {
            Step::Delay => StepView::Delay,
            Step::Progress { id, count } => StepView::Progress { id: id@, count: *count as nat },
            Step::Complete { id } => StepView::Complete { id: id@ },
        }
    }
}

/// The text of a progress event.
pub open spec fn progress_text(id: Seq<char>, count: nat) -> Seq<char> {
    id + " has been working for "@ + decimal(count) + " units"@
}

/// The text of a completion report.
pub open spec fn completion_text(id: Seq<char>) -> Seq<char> {
    id + " has completed"@
}

impl StepView {
    /// The message that the step sends to the telemetry sink, if it sends one.
    pub open spec fn message(self) -> Option<Seq<char>> {
        match self {
            StepView::Delay => None,
            StepView::Progress { id, count } => Some(progress_text(id, count)),
            StepView::Complete { id } => Some(completion_text(id)),
        }
    }
}

impl Step {
    /// The message that the step sends to the telemetry sink: none for a
    /// delay, the progress text or the completion text otherwise.
    pub fn message(&self) -> (text: Option<String>)
        ensures
            match self@.message() {
                Some(expected) => text matches Some(t) && t@ == expected,
                None => text is None,
            },
    {
        match self {
            Step::Delay => None,
            Step::Progress { id, count } => {
                let mut text = id.clone();
                text.append(" has been working for ");
                push_decimal(&mut text, *count);
                text.append(" units");
                Some(text)
            },
            Step::Complete { id } => {
                let mut text = id.clone();
                text.append(" has completed");
                Some(text)
            },
        }
    }
}

} // verus!
