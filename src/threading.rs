//! The work that a paced worker thread runs once per iteration.

use vstd::prelude::*;

verus! {

/// One iteration's worth of work for a paced worker thread; each result is
/// handed to the thread's owner.
pub trait ThreadWork {
    type WorkResult: Send + 'static;

    fn work(&mut self) -> Self::WorkResult;
}

/// A control message to a worker thread, without its payload.
#[derive(Debug, Clone, Copy, PartialEq, Eq, Structural)]
pub enum WorkerControl {
    /// Enter the paced loop; sent once, before any other message.
    StartLoop,
    /// Leave the loop and end the thread.
    Join,
}

/// What the worker thread does next.
#[derive(Debug, Clone, Copy, PartialEq, Eq, Structural)]
pub enum LoopAction {
    /// Enter the loop, or go on with it.
    Run,
    /// Return from the thread.
    Exit,
}

/// The worker's answer to a control message. Before the loop has started a
/// `StartLoop` starts it; a `Join` ends the thread at any time. A second
/// `StartLoop` cannot be sent: the handle that sends it is used up.
pub fn control_step(started: bool, msg: WorkerControl) -> (r: LoopAction)
    requires
        !started || msg == WorkerControl::Join,
    ensures
        r == LoopAction::Exit <==> msg == WorkerControl::Join,
{
    match msg {
        WorkerControl::StartLoop => LoopAction::Run,
        WorkerControl::Join => LoopAction::Exit,
    }
}

/// What the running loop does after the control messages that queued up
/// since its last iteration: it exits at the first `Join`, and runs another
/// iteration when there is none.
pub fn after_controls(msgs: &Vec<WorkerControl>) -> (r: LoopAction)
    requires
        forall|i: int| 0 <= i < msgs@.len() ==> msgs@[i] == WorkerControl::Join,
    ensures
        r == LoopAction::Exit <==> msgs@.len() > 0,
{
    if msgs.len() > 0 {
        return control_step(true, msgs[0]);
    }
    LoopAction::Run
}

} // verus!
