//! The parent's side: it waits for the child that builds the view and runs
//! the program, passes on what happens to it, and releases the scratch root
//! before it goes, whichever way it goes.

use crate::host::OnFailure;
use crate::path::{views, HostPath};
use vstd::prelude::*;

verus! {

/// A signal, as far as the parent tells signals apart.
#[derive(Clone, Copy, Debug, PartialEq, Eq, Structural)]
pub enum ChildSignal {
    /// The stop signal, which cannot be caught.
    Stop,
    /// Any other signal, by its number.
    Other(i32),
}

/// What waiting for the child reported.
#[derive(Clone, Copy, Debug, PartialEq, Eq, Structural)]
pub enum WaitEvent {
    /// The child left with this status.
    Exited(i32),
    /// The child was stopped by this signal.
    Stopped(ChildSignal),
    /// The child was ended by this signal.
    Signaled(ChildSignal),
    /// Anything else happened to the child.
    Other,
    /// Waiting failed.
    Failed,
}

/// Something for the parent to do.
#[derive(Debug, PartialEq, Eq)]
pub enum ParentAction {
    /// Send this process the stop signal.
    StopSelf,
    /// Send the child the signal that lets it run again.
    ContinueChild,
    /// Send this process the signal with this number.
    Raise(i32),
    /// Remove the directory with all it holds. With `tolerate_missing`,
    /// not finding it is no failure.
    RemoveTree { path: HostPath, tolerate_missing: bool },
}

/// What a [`ParentAction`] holds, as the values that contracts speak of.
pub enum ParentActionView {
    StopSelf,
    ContinueChild,
    Raise(i32),
    RemoveTree { path: Seq<Seq<u8>>, tolerate_missing: bool },
}

impl View for ParentAction {
    type V = ParentActionView;

    open spec fn view(&self) -> ParentActionView {
        match self {
            ParentAction::StopSelf => ParentActionView::StopSelf,
            ParentAction::ContinueChild => ParentActionView::ContinueChild,
            ParentAction::Raise(signal) => ParentActionView::Raise(*signal),
            ParentAction::RemoveTree { path, tolerate_missing } => ParentActionView::RemoveTree {
                path: path@,
                tolerate_missing: *tolerate_missing,
            },
        }
    }
}

/// An action of the parent, and what to do when it fails.
#[derive(Debug, PartialEq, Eq)]
pub struct ParentCommand {
    pub action: ParentAction,
    pub on_failure: OnFailure,
}

/// What a [`ParentCommand`] holds, as the values that contracts speak of.
pub struct ParentCommandView {
    pub action: ParentActionView,
    pub on_failure: OnFailure,
}

impl View for ParentCommand {
    type V = ParentCommandView;

    open spec fn view(&self) -> ParentCommandView {
        ParentCommandView { action: self.action@, on_failure: self.on_failure }
    }
}

/// What the parent does once it has carried out a step's commands.
#[derive(Clone, Copy, Debug, PartialEq, Eq, Structural)]
pub enum WaitNext {
    /// Wait for the child again.
    WaitAgain,
    /// Leave with this exit status.
    Leave(i32),
}

/// One step of the parent: commands to carry out in order, and what to do
/// after them.
#[derive(Debug, PartialEq, Eq)]
pub struct WaitStep {
    pub commands: Vec<ParentCommand>,
    pub next: WaitNext,
}

/// What a [`WaitStep`] holds, as the values that contracts speak of.
pub struct WaitStepView {
    pub commands: Seq<ParentCommandView>,
    pub next: WaitNext,
}

impl View for WaitStep {
    type V = WaitStepView;

    open spec fn view(&self) -> WaitStepView {
        WaitStepView { commands: views(self.commands@), next: self.next }
    }
}

/// The parent while it waits: the scratch root in its care, and whether it
/// has released it.
#[derive(Debug, PartialEq, Eq)]
pub struct Waiter {
    rootdir: HostPath,
    released: bool,
}

/// What a [`Waiter`] holds, as the values that contracts speak of.
pub struct WaiterView {
    /// The scratch root.
    pub rootdir: Seq<Seq<u8>>,
    /// Whether the command that removes the scratch root was given.
    pub released: bool,
}

impl View for Waiter {
    type V = WaiterView;

    closed spec fn view(&self) -> WaiterView {
        WaiterView { rootdir: self.rootdir@, released: self.released }
    }
}

/// The status with which the parent leaves when something went wrong with
/// waiting.
pub const FAILURE: i32 = 1;

/// The command that releases the scratch root: it is removed with all it
/// holds, and a removal that fails stops the parent with a message. Only
/// once the parent has given this command before is a scratch root that is
/// gone no failure.
pub open spec fn release(w: WaiterView) -> ParentCommandView {
    ParentCommandView {
        action: ParentActionView::RemoveTree { path: w.rootdir, tolerate_missing: w.released },
        on_failure: OnFailure::Abort,
    }
}

/// The commands that pass the child's stop on: the parent stops too, and
/// once it runs again it lets the child run again. Neither failure
/// matters.
pub open spec fn stop_commands() -> Seq<ParentCommandView> {
    seq![
        ParentCommandView { action: ParentActionView::StopSelf, on_failure: OnFailure::Ignore },
        ParentCommandView {
            action: ParentActionView::ContinueChild,
            on_failure: OnFailure::Ignore,
        },
    ]
}

/// The parent that has released the scratch root, and the step that
/// releases it and goes on as `next` says, with `more` to do in between.
pub open spec fn releasing(w: WaiterView, more: Seq<ParentCommandView>, next: WaitNext) -> (
    WaiterView,
    WaitStepView,
) {
    (
        WaiterView { released: true, ..w },
        WaitStepView { commands: seq![release(w)] + more, next },
    )
}

/// What the parent does when waiting reports `event`:
///
/// - a child stopped by the stop signal stops the parent, which lets the
///   child run again once it runs again itself, and waits again;
/// - a child ended by a signal makes the parent release the scratch root
///   and send itself the same signal after that, which must not fail;
///   should the parent live on, it waits again;
/// - a child that has left makes the parent release the scratch root and
///   leave with the child's status;
/// - anything else, a stop by another signal too, makes the parent release
///   the scratch root and leave with status 1.
pub open spec fn wait_decision(w: WaiterView, event: WaitEvent) -> (WaiterView, WaitStepView) {
    match event {
        WaitEvent::Stopped(ChildSignal::Stop) => (
            w,
            WaitStepView { commands: stop_commands(), next: WaitNext::WaitAgain },
        ),
        WaitEvent::Signaled(ChildSignal::Stop) => (
            w,
            WaitStepView { commands: stop_commands(), next: WaitNext::WaitAgain },
        ),
        WaitEvent::Signaled(ChildSignal::Other(signal)) => releasing(
            w,
            seq![
                ParentCommandView {
                    action: ParentActionView::Raise(signal),
                    on_failure: OnFailure::Abort,
                },
            ],
            WaitNext::WaitAgain,
        ),
        WaitEvent::Exited(status) => releasing(w, Seq::empty(), WaitNext::Leave(status)),
        WaitEvent::Stopped(ChildSignal::Other(_)) => releasing(
            w,
            Seq::empty(),
            WaitNext::Leave(FAILURE),
        ),
        WaitEvent::Other => releasing(w, Seq::empty(), WaitNext::Leave(FAILURE)),
        WaitEvent::Failed => releasing(w, Seq::empty(), WaitNext::Leave(FAILURE)),
    }
}

/// The parent that has `rootdir` in its care and has not released it.
pub open spec fn waiter_start(rootdir: Seq<Seq<u8>>) -> WaiterView {
    WaiterView { rootdir, released: false }
}

/// The status with which the parent leaves after the events `events`, the
/// first one first; `None` while it is still waiting.
pub open spec fn exit_status(w: WaiterView, events: Seq<WaitEvent>) -> Option<i32>
    decreases events.len(),
{
    if events.len() == 0 {
        None
    } else {
        let (next, step) = wait_decision(w, events[0]);
        match step.next {
            WaitNext::Leave(status) => Some(status),
            WaitNext::WaitAgain => exit_status(next, events.skip(1)),
        }
    }
}

/// The commands that the parent is given over the events `events`, the
/// first one first, up to the step with which it leaves.
pub open spec fn parent_commands(w: WaiterView, events: Seq<WaitEvent>) -> Seq<ParentCommandView>
    decreases events.len(),
{
    if events.len() == 0 {
        Seq::empty()
    } else {
        let (next, step) = wait_decision(w, events[0]);
        match step.next {
            WaitNext::Leave(_) => step.commands,
            WaitNext::WaitAgain => step.commands + parent_commands(next, events.skip(1)),
        }
    }
}

impl Waiter {
    /// The parent whose child builds the view in `rootdir`.
    pub fn new(rootdir: HostPath) -> (waiter: Waiter)
        ensures
            waiter@ == waiter_start(rootdir@),
    {
        Waiter { rootdir, released: false }
    }

    /// The scratch root.
    pub fn rootdir(&self) -> (p: &HostPath)
        ensures
            p@ == self@.rootdir,
    {
        &self.rootdir
    }

    /// Whether the command that removes the scratch root was given.
    pub fn released(&self) -> (yes: bool)
        ensures
            yes == self@.released,
    {
        self.released
    }

    /// The command that releases the scratch root.
    fn release(&self) -> (command: ParentCommand)
        ensures
            command@ == release(self@),
    {
        ParentCommand {
            action: ParentAction::RemoveTree {
                path: self.rootdir.clone(),
                tolerate_missing: self.released,
            },
            on_failure: OnFailure::Abort,
        }
    }

    /// Releases the scratch root and goes on as `next` says, with the
    /// signal `raise`, if there is one, sent in between.
    fn releasing(self, raise: Option<i32>, next: WaitNext) -> (out: (Waiter, WaitStep))
        ensures
            (out.0@, out.1@) == releasing(
                self@,
                match raise {
                    Some(signal) => seq![
                        ParentCommandView {
                            action: ParentActionView::Raise(signal),
                            on_failure: OnFailure::Abort,
                        },
                    ],
                    None => Seq::empty(),
                },
                next,
            ),
    {
        let mut commands: Vec<ParentCommand> = Vec::new();
        commands.push(self.release());
        match raise {
            Some(signal) => {
                commands.push(
                    ParentCommand {
                        action: ParentAction::Raise(signal),
                        on_failure: OnFailure::Abort,
                    },
                );
            },
            None => {},
        }
        let step = WaitStep { commands, next };
        let waiter = Waiter { rootdir: self.rootdir, released: true };
        assert(step@.commands =~= releasing(
            self@,
            match raise {
                Some(signal) => seq![
                    ParentCommandView {
                        action: ParentActionView::Raise(signal),
                        on_failure: OnFailure::Abort,
                    },
                ],
                None => Seq::empty(),
            },
            next,
        ).1.commands);
        (waiter, step)
    }

    /// Passes the child's stop on.
    fn stopping(self) -> (out: (Waiter, WaitStep))
        ensures
            out.0@ == self@,
            out.1@ == (WaitStepView { commands: stop_commands(), next: WaitNext::WaitAgain }),
    {
        let mut commands: Vec<ParentCommand> = Vec::new();
        commands.push(
            ParentCommand { action: ParentAction::StopSelf, on_failure: OnFailure::Ignore },
        );
        commands.push(
            ParentCommand { action: ParentAction::ContinueChild, on_failure: OnFailure::Ignore },
        );
        let step = WaitStep { commands, next: WaitNext::WaitAgain };
        assert(step@.commands =~= stop_commands());
        (self, step)
    }
}

/// Decides what the parent does when waiting for the child reports
/// `event`. Whenever the parent is to leave, or to send itself the signal
/// that ended the child, it is first to remove the scratch root, and a
/// removal that fails stops it.
pub fn wait_for_child(waiter: Waiter, event: WaitEvent) -> (out: (Waiter, WaitStep))
    ensures
        (out.0@, out.1@) == wait_decision(waiter@, event),
{
    match event {
        WaitEvent::Stopped(ChildSignal::Stop) => waiter.stopping(),
        WaitEvent::Signaled(ChildSignal::Stop) => waiter.stopping(),
        WaitEvent::Signaled(ChildSignal::Other(signal)) => waiter.releasing(
            Some(signal),
            WaitNext::WaitAgain,
        ),
        WaitEvent::Exited(status) => waiter.releasing(None, WaitNext::Leave(status)),
        WaitEvent::Stopped(ChildSignal::Other(_)) => waiter.releasing(
            None,
            WaitNext::Leave(FAILURE),
        ),
        WaitEvent::Other => waiter.releasing(None, WaitNext::Leave(FAILURE)),
        WaitEvent::Failed => waiter.releasing(None, WaitNext::Leave(FAILURE)),
    }
}

} // verus!
