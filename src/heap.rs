use vstd::multiset::Multiset;
use vstd::prelude::*;

use crate::task::{PrioritizedTask, Task, TaskId};

verus! {

broadcast use vstd::seq_lib::group_to_multiset_ensures;

/// Tasks in ascending order of priority.
pub open spec fn ascending(s: Seq<PrioritizedTask>) -> bool {
    forall|i: int, j: int| 0 <= i <= j < s.len() ==> s[i].priority <= s[j].priority
}

/// A priority queue of tasks: the task with the largest priority leaves
/// first; among equal priorities, the one pushed last.
#[derive(Debug)]
pub struct TaskHeap {
    items: Vec<PrioritizedTask>,
    next_id: usize,
}

impl TaskHeap {
    #[verifier::type_invariant]
    spec fn inv(self) -> bool {
        ascending(self.items@)
    }

    /// The tasks held.
    pub closed spec fn contents(&self) -> Multiset<PrioritizedTask> {
        self.items@.to_multiset()
    }

    /// The tasks held, in the order they leave from the end.
    pub closed spec fn items(&self) -> Seq<PrioritizedTask> {
        self.items@
    }

    /// The sequence number that the next pushed task gets.
    pub closed spec fn next_id(&self) -> usize {
        self.next_id
    }

    pub fn new() -> (r: TaskHeap)
        ensures
            r.contents() =~= Multiset::empty(),
            r.items() == Seq::<PrioritizedTask>::empty(),
            r.next_id() == 0,
    {
        TaskHeap { items: Vec::new(), next_id: 0 }
    }

    pub fn len(&self) -> (r: usize)
        ensures
            r == self.contents().len(),
    {
        self.items.len()
    }

    pub fn is_empty(&self) -> (r: bool)
        ensures
            r == (self.contents().len() == 0),
    {
        self.items.len() == 0
    }

    /// Add a task with the given priority; it gets the next sequence number.
    pub fn push(&mut self, task: Task, priority: usize)
        ensures
            final(self).contents() == old(self).contents().insert(
                PrioritizedTask { task, id: TaskId { id: old(self).next_id() }, priority },
            ),
            exists|i: int|
                0 <= i <= old(self).items().len() && final(self).items() == old(self).items().insert(
                    i,
                    PrioritizedTask { task, id: TaskId { id: old(self).next_id() }, priority },
                ),
            final(self).next_id() == (if old(self).next_id() < usize::MAX {
                old(self).next_id() + 1
            } else {
                old(self).next_id() as int
            }),
    {
        proof {
            use_type_invariant(&*self);
        }
        let id = TaskId { id: self.next_id };
        if self.next_id < usize::MAX {
            self.next_id = self.next_id + 1;
        }
        // the first position whose priority exceeds the new one
        let mut lo: usize = 0;
        let mut hi: usize = self.items.len();
        while lo < hi
            invariant
                0 <= lo <= hi <= self.items@.len(),
                ascending(self.items@),
                forall|j: int| 0 <= j < lo ==> self.items@[j].priority <= priority,
                forall|j: int| hi <= j < self.items@.len() ==> self.items@[j].priority > priority,
            decreases hi - lo,
        {
            let mid = lo + (hi - lo) / 2;
            if self.items[mid].priority <= priority {
                lo = mid + 1;
            } else {
                hi = mid;
            }
        }
        let ghost before = self.items@;
        let ptask = PrioritizedTask { task, id, priority };
        let ghost t = ptask;
        let mut items: Vec<PrioritizedTask> = Vec::new();
        std::mem::swap(&mut items, &mut self.items);
        items.insert(lo, ptask);
        proof {
            assert(items@ == before.insert(lo as int, t));
            vstd::seq_lib::to_multiset_insert(before, lo as int, t);
            assert forall|i: int, j: int| 0 <= i <= j < items@.len() implies items@[i].priority
                <= items@[j].priority by {
                if i < lo && j > lo {
                    assert(items@[i] == before[i]);
                    assert(items@[j] == before[j - 1]);
                }
            }
        }
        self.items = items;
        assert(self.items@ == before.insert(lo as int, t));
        assert(before == old(self).items());
        assert(t == PrioritizedTask { task, id: TaskId { id: old(self).next_id() }, priority });
        assert(self.items() == old(self).items().insert(lo as int, PrioritizedTask { task, id: TaskId { id: old(self).next_id() }, priority }));
    }

    /// Remove and return a task of the largest priority, if any.
    pub fn pop(&mut self) -> (r: Option<PrioritizedTask>)
        ensures
            final(self).next_id() == old(self).next_id(),
            r is None <==> old(self).contents().len() == 0,
            r is None ==> final(self).contents() == old(self).contents() && old(self).items().len() == 0
                && final(self).items() == old(self).items(),
            r is Some ==> old(self).items().len() > 0,
            r matches Some(t) ==> t == old(self).items().last() && final(self).items() == old(
                self,
            ).items().drop_last(),
            r matches Some(t) ==> {
                &&& old(self).contents() == final(self).contents().insert(t)
                &&& forall|u: PrioritizedTask| #[trigger]
                    final(self).contents().contains(u) ==> u.priority <= t.priority
            },
    {
        proof {
            use_type_invariant(&*self);
        }
        let ghost before = self.items@;
        let mut items: Vec<PrioritizedTask> = Vec::new();
        std::mem::swap(&mut items, &mut self.items);
        let r = items.pop();
        proof {
            if before.len() > 0 {
                assert(items@ =~= before.drop_last());
            }
            if before.len() > 0 {
                let t = before.last();
                assert(before =~= items@.push(t));
                vstd::seq_lib::to_multiset_build(items@, t);
                assert forall|u: PrioritizedTask| #[trigger]
                    items@.to_multiset().contains(u) implies u.priority <= t.priority by {
                    let k = choose|k: int| 0 <= k < items@.len() && items@[k] == u;
                    assert(before[k] == u);
                }
            }
        }
        self.items = items;
        r
    }
}

} // verus!
