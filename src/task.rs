use vstd::prelude::*;

use crate::id::NodeId;

verus! {

/// Sequence number of a task, for logs and statistics.
#[derive(Clone, Copy, Debug, Hash, PartialEq, Eq, PartialOrd, Ord, Structural)]
pub struct TaskId {
    pub id: usize,
}

impl TaskId {
    pub fn get(&self) -> (r: usize)
        ensures
            r == self.id,
    {
        self.id
    }
}

/// An edit to try.
#[derive(Debug, PartialEq, Eq)]
pub enum Reduction {
    /// Omit one node.
    Delete(NodeId),
    /// Omit several sibling nodes at once.
    DeleteAll(Vec<NodeId>),
    /// Replace a node's text by the given bytes.
    Replace(NodeId, Vec<u8>),
}

/// A unit of work for the reducer.
#[derive(Debug, PartialEq, Eq)]
pub enum Task {
    /// Decide which reductions to try at a node.
    Explore(NodeId),
    /// Try a reduction.
    Reduce(Reduction),
}

/// The mathematical value of a [`Task`].
pub enum TaskView {
    Explore(usize),
    Delete(usize),
    DeleteAll(Seq<usize>),
    Replace(usize, Seq<u8>),
}

impl View for Reduction {
    type V = TaskView;

    open spec fn view(&self) -> TaskView {
        match self {
            Reduction::Delete(n) => TaskView::Delete(n.id),
            Reduction::DeleteAll(ns) => TaskView::DeleteAll(ns@.map_values(|n: NodeId| n.id)),
            Reduction::Replace(n, alt) => TaskView::Replace(n.id, alt@),
        }
    }
}

impl View for Task {
    type V = TaskView;

    open spec fn view(&self) -> TaskView {
        match self {
            Task::Explore(n) => TaskView::Explore(n.id),
            Task::Reduce(r) => r@,
        }
    }
}

impl Task {
    /// A short name for the kind of task.
    pub fn kind(&self) -> (r: String)
        ensures
            r@ == task_kind(*self),
    {
        match self {
            Task::Explore(_) => "explore".to_owned(),
            Task::Reduce(Reduction::Delete(_)) => "delete".to_owned(),
            Task::Reduce(Reduction::DeleteAll(_)) => "delete_all".to_owned(),
            Task::Reduce(Reduction::Replace(_, _)) => "replace".to_owned(),
        }
    }
}

pub open spec fn task_kind(t: Task) -> Seq<char> {
    match t {
        Task::Explore(_) => "explore"@,
        Task::Reduce(Reduction::Delete(_)) => "delete"@,
        Task::Reduce(Reduction::DeleteAll(_)) => "delete_all"@,
        Task::Reduce(Reduction::Replace(_, _)) => "replace"@,
    }
}

/// A task with its priority (the number of bytes it concerns) and its
/// sequence number.
#[derive(Debug, PartialEq, Eq)]
pub struct PrioritizedTask {
    pub task: Task,
    pub id: TaskId,
    pub priority: usize,
}

} // verus!
