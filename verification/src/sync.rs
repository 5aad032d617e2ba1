//! The order in which a job is pushed to the external scheduler: read its
//! text, write the reconciled text, find out whether a reload needs the
//! user's consent, ask for it where it does, reload.
//!
//! The library decides each step from the outcome of the one before; the
//! caller performs the steps.

use crate::error::{Error, ErrorView};
use crate::job::{CronJob, JobView};
use crate::reconcile::{reconcile, reconciled_text};
use vstd::prelude::*;
use vstd::string::StringExecFns;

verus! {

/// The step whose outcome the driver waits for.
#[derive(Debug, Clone, Copy, PartialEq, Eq)]
pub enum SyncStage {
    Reading,
    Writing,
    Probing,
    Prompting,
    Reloading,
}

/// The outcome of a step.
#[derive(Debug, Clone, PartialEq, Eq)]
pub enum SyncEvent {
    /// The external text was read.
    Text(String),
    /// The text was written, the user consented, or the scheduler reloaded.
    Done,
    /// Whether the reload can run without asking the user.
    Allowed(bool),
    /// The step failed, with the reason.
    Failed(String),
}

/// What the caller is to do next.
#[derive(Debug, Clone, PartialEq, Eq)]
pub enum SyncAction {
    /// Read the external text.
    Read,
    /// Write this text as the external text.
    Write(String),
    /// Find out whether the reload can run without asking the user.
    Probe,
    /// Ask the user for the privilege to reload.
    Prompt,
    /// Have the external scheduler reload its text.
    Reload,
    /// The push is complete.
    Finish,
    /// The push failed; nothing that was written is taken back.
    Fail(Error),
}

/// An outcome as plain values.
pub enum EventView {
    Text(Seq<char>),
    Done,
    Allowed(bool),
    Failed(Seq<char>),
}

/// An action as plain values.
pub enum ActionView {
    Read,
    Write(Seq<char>),
    Probe,
    Prompt,
    Reload,
    Finish,
    Fail(ErrorView),
}

impl View for SyncEvent {
    type V = EventView;

    open spec fn view(&self) -> EventView {
        match self {
            SyncEvent::Text(t) => EventView::Text(t@),
            SyncEvent::Done => EventView::Done,
            SyncEvent::Allowed(b) => EventView::Allowed(*b),
            SyncEvent::Failed(m) => EventView::Failed(m@),
        }
    }
}

impl SyncAction {
    /// Whether the action is what `v` describes.
    pub open spec fn amounts_to(self, v: ActionView) -> bool {
        match v {
            ActionView::Read => self == SyncAction::Read,
            ActionView::Write(t) => self matches SyncAction::Write(text) && text@ == t,
            ActionView::Probe => self == SyncAction::Probe,
            ActionView::Prompt => self == SyncAction::Prompt,
            ActionView::Reload => self == SyncAction::Reload,
            ActionView::Finish => self == SyncAction::Finish,
            ActionView::Fail(v) => self matches SyncAction::Fail(e) && e@ == v,
        }
    }

    /// The step whose outcome is due once the action was performed.
    pub fn stage(&self) -> (r: Option<SyncStage>)
        ensures
            r == match self {
                SyncAction::Read => Some(SyncStage::Reading),
                SyncAction::Write(_) => Some(SyncStage::Writing),
                SyncAction::Probe => Some(SyncStage::Probing),
                SyncAction::Prompt => Some(SyncStage::Prompting),
                SyncAction::Reload => Some(SyncStage::Reloading),
                SyncAction::Finish => None::<SyncStage>,
                SyncAction::Fail(_) => None::<SyncStage>,
            },
    {
        match self {
            SyncAction::Read => Some(SyncStage::Reading),
            SyncAction::Write(_) => Some(SyncStage::Writing),
            SyncAction::Probe => Some(SyncStage::Probing),
            SyncAction::Prompt => Some(SyncStage::Prompting),
            SyncAction::Reload => Some(SyncStage::Reloading),
            SyncAction::Finish => None,
            SyncAction::Fail(_) => None,
        }
    }
}

/// What follows the outcome `event` of the step `stage`, for the job `job`
/// whose log is `log_path`. A failed step fails the push with a `SyncError`
/// that gives the reason; so does an outcome that the step cannot have.
pub open spec fn next_of(stage: SyncStage, event: EventView, job: JobView, log_path: Seq<char>)
    -> ActionView {
    match (stage, event) {
        (_, EventView::Failed(m)) => ActionView::Fail(ErrorView::SyncError(m)),
        (SyncStage::Reading, EventView::Text(t)) => ActionView::Write(
            reconciled_text(t, job, log_path),
        ),
        (SyncStage::Writing, EventView::Done) => ActionView::Probe,
        (SyncStage::Probing, EventView::Allowed(true)) => ActionView::Reload,
        (SyncStage::Probing, EventView::Allowed(false)) => ActionView::Prompt,
        (SyncStage::Prompting, EventView::Done) => ActionView::Reload,
        (SyncStage::Reloading, EventView::Done) => ActionView::Finish,
        _ => ActionView::Fail(ErrorView::SyncError("unexpected outcome"@)),
    }
}

/// The first action of a push.
pub fn start_push() -> (r: SyncAction)
    ensures
        r == SyncAction::Read,
{
    SyncAction::Read
}

/// The action that follows the outcome `event` of the step `stage`.
pub fn next_action(stage: SyncStage, event: SyncEvent, job: &CronJob, log_path: &str) -> (r:
    SyncAction)
    ensures
        r.amounts_to(next_of(stage, event@, job@, log_path@)),
{
    match event {
        SyncEvent::Failed(m) => SyncAction::Fail(Error::SyncError(m)),
        SyncEvent::Text(t) => match stage {
            SyncStage::Reading => SyncAction::Write(reconcile(t.as_str(), job, log_path)),
            _ => SyncAction::Fail(Error::SyncError(String::from_str("unexpected outcome"))),
        },
        SyncEvent::Done => match stage {
            SyncStage::Writing => SyncAction::Probe,
            SyncStage::Prompting => SyncAction::Reload,
            SyncStage::Reloading => SyncAction::Finish,
            _ => SyncAction::Fail(Error::SyncError(String::from_str("unexpected outcome"))),
        },
        SyncEvent::Allowed(allowed) => match stage {
            SyncStage::Probing => if allowed {
                SyncAction::Reload
            } else {
                SyncAction::Prompt
            },
            _ => SyncAction::Fail(Error::SyncError(String::from_str("unexpected outcome"))),
        },
    }
}

} // verus!
