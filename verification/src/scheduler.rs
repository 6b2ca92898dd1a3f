//! Background task accounting: the live-task counter behind the
//! scheduler, the notifications it emits on every task transition, and
//! the pending-operation status board.
//!
//! The scheduler itself runs the fetch/process pipelines on an executor;
//! this module holds the decisions: what each transition does to the live
//! task count and which notification it produces. The count reported in a
//! notification is always the task-set size after the transition.

use vstd::prelude::*;
use vstd::string::StringExecFns;

use crate::geo::GeoLocation;
use crate::geo::request_params_of;
use crate::range::GeoCoord;

verus! {

/// One observable task transition, for display.
#[derive(Debug, Clone)]
pub struct TaskInfo {
    pub task: String,
    pub running_tasks_left: usize,
}

impl TaskInfo {
    pub fn new(task: String, running_tasks_left: usize) -> (r: TaskInfo)
        ensures
            r.task == task,
            r.running_tasks_left == running_tasks_left,
    {
        TaskInfo { task, running_tasks_left }
    }
}

/// What the scheduler reports on every state transition of a task.
#[derive(Debug, Clone)]
pub enum BackgroundNotification {
    TaskStarted(TaskInfo),
    TaskFinished(TaskInfo),
    TaskErrored { task: TaskInfo, error: String },
    JoinError(String),
}

/// A request handed to the background runner.
#[derive(Debug, Clone, Copy, PartialEq, Eq, Structural)]
pub enum BackgroundEvent {
    DataRequested { requested: GeoLocation, current_location: GeoCoord },
}

/// The display text of a background event.
pub open spec fn event_description(e: BackgroundEvent) -> Seq<char> {
    match e {
        BackgroundEvent::DataRequested { requested, current_location } =>
            "Data requested for location "@ + request_params_of(requested),
    }
}

impl BackgroundEvent {
    /// Renders the event for task notifications.
    pub fn description(&self) -> (r: String)
        requires
            self matches BackgroundEvent::DataRequested { requested, .. } ==> requested.wf(),
        ensures
            r@ == event_description(*self),
    {
        match self {
            BackgroundEvent::DataRequested { requested, current_location: _ } => {
                let mut s = String::from_str("Data requested for location ");
                let params = requested.to_request_params();
                s.append(params.as_str());
                proof {
                    assert(s@ =~= event_description(*self));
                }
                s
            },
        }
    }

    /// The task info of this event with the given live count.
    pub fn to_task_info(&self, running_tasks_left: usize) -> (r: TaskInfo)
        requires
            self matches BackgroundEvent::DataRequested { requested, .. } ==> requested.wf(),
        ensures
            r.task@ == event_description(*self),
            r.running_tasks_left == running_tasks_left,
    {
        TaskInfo::new(self.description(), running_tasks_left)
    }
}

/// The live task set of the background runner, as a count. Every accepted
/// request adds one task; every completion, successful, failed or lost in
/// a join error, removes exactly one, so one task's failure never touches
/// its siblings.
pub struct TaskTracker {
    running: usize,
}

impl TaskTracker {
    /// How many tasks are live.
    pub closed spec fn count(self) -> int {
        self.running as int
    }

    pub fn new() -> (r: TaskTracker)
        ensures
            r.count() == 0,
    {
        TaskTracker { running: 0 }
    }

    /// The live count, for display.
    pub fn pending(&self) -> (r: usize)
        ensures
            r as int == self.count(),
    {
        self.running
    }

    /// Accounts for a newly spawned task: the count grows by one and the
    /// notification reports the count after the spawn.
    pub fn on_task_started(&mut self, description: String) -> (n: BackgroundNotification)
        requires
            old(self).count() < usize::MAX,
        ensures
            final(self).count() == old(self).count() + 1,
            n matches BackgroundNotification::TaskStarted(info) && info.task == description
                && info.running_tasks_left as int == final(self).count(),
    {
        self.running = self.running + 1;
        BackgroundNotification::TaskStarted(TaskInfo::new(description, self.running))
    }

    /// Accounts for one finished task. Success and failure change the
    /// tracker in exactly the same way: the count drops by one, and the
    /// notification reports the count after the removal; a failure is
    /// reported with its error text and removes no other task.
    pub fn on_task_result(&mut self, description: String, succeeded: bool, error: String) -> (n:
        BackgroundNotification)
        requires
            old(self).count() >= 1,
        ensures
            final(self).count() == old(self).count() - 1,
            succeeded ==> (n matches BackgroundNotification::TaskFinished(info) && info.task
                == description && info.running_tasks_left as int == final(self).count()),
            !succeeded ==> (n matches BackgroundNotification::TaskErrored { task, error: e }
                && task.task == description && e == error && task.running_tasks_left as int
                == old(self).count() - 1),
    {
        self.running = self.running - 1;
        let info = TaskInfo::new(description, self.running);
        if succeeded {
            BackgroundNotification::TaskFinished(info)
        } else {
            BackgroundNotification::TaskErrored { task: info, error }
        }
    }

    /// Accounts for a task lost to a join error: it too leaves the set.
    pub fn on_join_error(&mut self, error: String) -> (n: BackgroundNotification)
        requires
            old(self).count() >= 1,
        ensures
            final(self).count() == old(self).count() - 1,
            n matches BackgroundNotification::JoinError(e) && e == error,
    {
        self.running = self.running - 1;
        BackgroundNotification::JoinError(error)
    }
}

/// The live count after a run of transitions: `true` is a spawn, `false`
/// a completion of any kind.
pub open spec fn count_after(events: Seq<bool>, start: int) -> int
    decreases events.len(),
{
    if events.len() == 0 {
        start
    } else {
        count_after(events.drop_last(), start) + if events.last() {
            1int
        } else {
            -1int
        }
    }
}

/// Number of events of one kind.
pub open spec fn count_of(events: Seq<bool>, kind: bool) -> int {
    events.filter(|b: bool| b == kind).len() as int
}

/// The count after a run of transitions is the start plus spawns minus
/// completions.
pub proof fn lemma_count_after(events: Seq<bool>, start: int)
    ensures
        count_after(events, start) == start + count_of(events, true) - count_of(events, false),
    decreases events.len(),
{
    reveal(Seq::filter);
    if events.len() == 0 {
        assert(events.filter(|b: bool| b == true).len() == 0);
        assert(events.filter(|b: bool| b == false).len() == 0);
    } else {
        lemma_count_after(events.drop_last(), start);
    }
}

/// Once every spawned task has completed - however many of them failed -
/// the reported live count is back at zero: a failure is isolated to its
/// own task and never leaves the counter off.
pub proof fn lemma_remaining_reaches_zero(events: Seq<bool>)
    requires
        count_of(events, true) == count_of(events, false),
    ensures
        count_after(events, 0) == 0,
{
    lemma_count_after(events, 0);
}

/// The pending operations of one tile pipeline stage.
#[derive(Debug, Clone, Copy, PartialEq, Eq, Structural)]
pub enum PendingOperation {
    FetchingTerrain,
    ProcessingTerrain,
    WritingTerrain,
    PreparingLabels,
    LoadingFonts,
}

/// A consumer of status lines, registered by the application.
pub trait StatusListener {
    fn notify(&mut self, status: &String);
}

} // verus!
