//! Task supervision: every concurrent activity of the node is registered as
//! essential or auxiliary; an essential task's failure halts the whole node,
//! an auxiliary one's is tolerated. A single shutdown signal reaches every
//! task, which reports back once it has observed it.

use vstd::prelude::*;

verus! {

/// How a task's failure is escalated.
#[derive(Clone, Copy, PartialEq, Eq, Structural, Debug)]
pub enum TaskClass {
    /// Its unrecoverable failure halts the entire node.
    Essential,
    /// Its failure is logged; the node carries on.
    Auxiliary,
}

/// How a task ended.
#[derive(Clone, Copy, PartialEq, Eq, Structural, Debug)]
pub enum TaskOutcome {
    Completed,
    Failed,
    Cancelled,
}

#[derive(Clone, Copy, PartialEq, Eq, Structural, Debug)]
pub enum TaskStatus {
    Running,
    Stopped,
}

/// One supervised activity.
#[derive(Clone, Copy, PartialEq, Eq, Structural, Debug)]
pub struct TaskRecord {
    pub id: u64,
    pub class: TaskClass,
    pub status: TaskStatus,
}

/// Whether an outcome of a task of this class must halt the node.
pub open spec fn spec_escalates(class: TaskClass, outcome: TaskOutcome) -> bool {
    class == TaskClass::Essential && outcome == TaskOutcome::Failed
}

/// The supervisor owning the lifecycle of the node's concurrent activities.
pub struct TaskSupervisor {
    pub tasks: Vec<TaskRecord>,
    pub next_id: u64,
    /// The broadcast cancellation signal: once set, every task observes it
    /// at its next suspension point and reports back.
    pub shutdown: bool,
}

impl TaskSupervisor {
    /// Identifiers are handed out once each.
    pub open spec fn wf(self) -> bool {
        &&& forall|i: int, j: int| 0 <= i < j < self.tasks@.len() ==> self.tasks@[i].id != self.tasks@[j].id
        &&& forall|i: int| 0 <= i < self.tasks@.len() ==> (#[trigger] self.tasks@[i]).id < self.next_id
    }

    pub open spec fn spec_has_task(self, id: u64) -> bool {
        exists|i: int| 0 <= i < self.tasks@.len() && self.tasks@[i].id == id
    }

    pub fn new() -> (r: TaskSupervisor)
        ensures
            r.wf(),
            r.tasks@.len() == 0,
            r.next_id == 0,
            !r.shutdown,
    {
        TaskSupervisor { tasks: Vec::new(), next_id: 0, shutdown: false }
    }

    /// Registers a new activity and returns its identifier.
    pub fn register(&mut self, class: TaskClass) -> (id: u64)
        requires
            old(self).wf(),
            old(self).next_id < u64::MAX,
        ensures
            final(self).wf(),
            id == old(self).next_id,
            final(self).next_id == old(self).next_id + 1,
            final(self).shutdown == old(self).shutdown,
            final(self).tasks@ == old(self).tasks@.push(
                TaskRecord { id, class, status: TaskStatus::Running },
            ),
    {
        let id = self.next_id;
        self.tasks.push(TaskRecord { id, class, status: TaskStatus::Running });
        self.next_id = self.next_id + 1;
        id
    }

    /// Takes a finished task's outcome: the task stops, and exactly an
    /// essential task's failure escalates — the shutdown signal is raised
    /// and `true` comes back so the caller halts the node. An auxiliary
    /// failure, a completion or a cancellation never escalates.
    pub fn report(&mut self, id: u64, outcome: TaskOutcome) -> (fatal: bool)
        requires
            old(self).wf(),
        ensures
            final(self).wf(),
            final(self).next_id == old(self).next_id,
            fatal <==> exists|i: int|
                0 <= i < old(self).tasks@.len() && (#[trigger] old(self).tasks@[i]).id == id
                    && spec_escalates(old(self).tasks@[i].class, outcome),
            final(self).shutdown == (old(self).shutdown || fatal),
            !old(self).spec_has_task(id) ==> final(self).tasks@ == old(self).tasks@,
            old(self).spec_has_task(id) ==> exists|i: int|
                0 <= i < old(self).tasks@.len() && (#[trigger] old(self).tasks@[i]).id == id
                    && final(self).tasks@ == old(self).tasks@.update(
                    i,
                    TaskRecord {
                        id,
                        class: old(self).tasks@[i].class,
                        status: TaskStatus::Stopped,
                    },
                ),
    {
        let n = self.tasks.len();
        let mut i: usize = 0;
        while i < n
            invariant
                *self == *old(self),
                old(self).wf(),
                n == self.tasks@.len(),
                0 <= i <= n,
                forall|k: int| 0 <= k < i ==> (#[trigger] self.tasks@[k]).id != id,
            decreases n - i,
        {
            if self.tasks[i].id == id {
                let class = self.tasks[i].class;
                self.tasks[i] = TaskRecord { id, class, status: TaskStatus::Stopped };
                let fatal = match (class, outcome) {
                    (TaskClass::Essential, TaskOutcome::Failed) => true,
                    _ => false,
                };
                if fatal {
                    self.shutdown = true;
                }
                proof {
                    assert(old(self).tasks@[i as int].id == id);
                    assert forall|k: int|
                        0 <= k < old(self).tasks@.len() && (#[trigger] old(self).tasks@[k]).id
                            == id implies k == i by {
                        if k < i {
                            assert(old(self).tasks@[k].id != old(self).tasks@[i as int].id);
                        } else if k > i {
                            assert(old(self).tasks@[i as int].id != old(self).tasks@[k].id);
                        }
                    }
                }
                return fatal;
            }
            i = i + 1;
        }
        proof {
            assert(!old(self).spec_has_task(id));
        }
        false
    }

    /// Raises the node-wide cancellation signal; every task observes it at
    /// its next suspension point and reports `Cancelled`.
    pub fn begin_shutdown(&mut self)
        requires
            old(self).wf(),
        ensures
            final(self).wf(),
            final(self).tasks@ == old(self).tasks@,
            final(self).next_id == old(self).next_id,
            final(self).shutdown,
    {
        self.shutdown = true;
    }

    /// Whether every registered task has stopped: the node may exit.
    pub fn all_stopped(&self) -> (r: bool)
        ensures
            r == forall|i: int|
                0 <= i < self.tasks@.len() ==> (#[trigger] self.tasks@[i]).status
                    == TaskStatus::Stopped,
    {
        let n = self.tasks.len();
        let mut i: usize = 0;
        while i < n
            invariant
                n == self.tasks@.len(),
                0 <= i <= n,
                forall|k: int|
                    0 <= k < i ==> (#[trigger] self.tasks@[k]).status == TaskStatus::Stopped,
            decreases n - i,
        {
            if !matches!(self.tasks[i].status, TaskStatus::Stopped) {
                return false;
            }
            i = i + 1;
        }
        true
    }
}

} // verus!
