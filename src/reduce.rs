use vstd::multiset::Multiset;
use vstd::prelude::*;

use crate::check::Check;
use crate::edits::{copy_bytes, Edits, EditsView};
use crate::heap::TaskHeap;
use crate::id::NodeId;
use crate::node_types::{list_types_of, subtypes_of, NodeSchemaView, NodeTypes};
use crate::plan::{
    alternatives, batch_entry, batch_of, child_explores, deletable, explore_entry, explore_plan,
    list_deletions, list_entry, plan_explore, plan_view, push_child_explores, replace_entry,
    shorter_replacements, total_size, Replacements,
};
use crate::render::{lemma_render_no_longer, lemma_render_unedited, render, rendered, shrinking};
use crate::task::{PrioritizedTask, Reduction, Task, TaskView};
use crate::tree::{node_wf, tree_wf, NodeView, Original};
use crate::versioned::Versioned;

verus! {

broadcast use vstd::seq_lib::group_to_multiset_ensures;

/// The settings of one reduction.
#[derive(Debug)]
pub struct Config<T> {
    /// The interestingness check.
    pub check: T,
    /// The number of worker threads.
    pub jobs: usize,
    /// Reductions of fewer bytes than this are not tried.
    pub min_reduction: usize,
    /// Canonical small texts that nodes may be replaced by.
    pub replacements: Replacements,
}

/// Every id of `ids` is below `len`.
pub open spec fn ids_below(ids: Seq<usize>, len: nat) -> bool {
    forall|i: int| 0 <= i < ids.len() ==> #[trigger] ids[i] < len
}

/// The task names nodes of the tree, and a replacement is strictly shorter
/// than the node it replaces.
pub open spec fn task_ok(nodes: Seq<NodeView>, t: TaskView) -> bool {
    match t {
        TaskView::Explore(n) => n < nodes.len(),
        TaskView::Delete(n) => n < nodes.len(),
        TaskView::DeleteAll(ids) => ids_below(ids, nodes.len()),
        TaskView::Replace(n, alt) => n < nodes.len() && alt.len() < nodes[n as int].size(),
    }
}

/// The edits `e` with the reduction `r` applied.
pub open spec fn apply(e: EditsView, r: TaskView) -> EditsView {
    match r {
        TaskView::Explore(_) => e,
        TaskView::Delete(n) => e.with_omit(n),
        TaskView::DeleteAll(ids) => e.with_omit_all(ids),
        TaskView::Replace(n, alt) => e.with_replace(n, alt),
    }
}

proof fn lemma_below_trans(a: EditsView, b: EditsView, c: EditsView)
    requires
        a.below(b),
        b.below(c),
    ensures
        a.below(c),
{
}

proof fn lemma_omit_all_grows(nodes: Seq<NodeView>, e: EditsView, ids: Seq<usize>)
    ensures
        e.below(e.with_omit_all(ids)),
        shrinking(nodes, e) ==> shrinking(nodes, e.with_omit_all(ids)),
    decreases ids.len(),
{
    if ids.len() > 0 {
        lemma_omit_all_grows(nodes, e, ids.drop_last());
        let m = e.with_omit_all(ids.drop_last());
        lemma_below_trans(e, m, m.with_omit(ids.last()));
    }
}

/// An `Explore` or `Delete` task has the size of its node as priority.
pub open spec fn sized(nodes: Seq<NodeView>, t: TaskView, priority: int) -> bool {
    match t {
        TaskView::Explore(n) => priority == nodes[n as int].size(),
        TaskView::Delete(n) => priority == nodes[n as int].size(),
        _ => true,
    }
}

/// The entry `e`, if its priority is at least `min`.
pub open spec fn keep_entry(min: int) -> spec_fn((TaskView, int)) -> Option<(TaskView, int)> {
    |e: (TaskView, int)|
        if e.1 >= min {
            Some(e)
        } else {
            None
        }
}

/// The entries of `plan` with priority at least `min`, in order.
pub open spec fn kept(plan: Seq<(TaskView, int)>, min: int) -> Seq<(TaskView, int)> {
    plan.filter_map(keep_entry(min))
}

/// A queued task as a task value and its priority.
pub open spec fn entry_of(t: PrioritizedTask) -> (TaskView, int) {
    (t.task@, t.priority as int)
}

proof fn lemma_kept_step(plan: Seq<(TaskView, int)>, min: int)
    requires
        plan.len() > 0,
    ensures
        kept(plan, min).to_multiset() == if plan.last().1 >= min {
            kept(plan.drop_last(), min).to_multiset().insert(plan.last())
        } else {
            kept(plan.drop_last(), min).to_multiset()
        },
{
    let prev = kept(plan.drop_last(), min);
    if plan.last().1 >= min {
        assert(kept(plan, min) == prev + seq![plan.last()]);
        assert(prev + seq![plan.last()] =~= prev.push(plan.last()));
        vstd::seq_lib::to_multiset_build(prev, plan.last());
    } else {
        assert(kept(plan, min) == prev);
    }
}

/// Every omitted node is a node of the tree.
pub open spec fn omits_within(nodes: Seq<NodeView>, e: EditsView) -> bool {
    forall|i: usize| #[trigger] e.omit.contains(i) ==> i < nodes.len()
}

proof fn lemma_omit_all_within(nodes: Seq<NodeView>, e: EditsView, ids: Seq<usize>)
    requires
        omits_within(nodes, e),
        ids_below(ids, nodes.len()),
    ensures
        omits_within(nodes, e.with_omit_all(ids)),
    decreases ids.len(),
{
    if ids.len() > 0 {
        assert(ids_below(ids.drop_last(), nodes.len()));
        lemma_omit_all_within(nodes, e, ids.drop_last());
        assert(ids[ids.len() - 1] < nodes.len());
    }
}

/// Applying a valid reduction omits only nodes of the tree.
proof fn lemma_apply_within(nodes: Seq<NodeView>, e: EditsView, r: TaskView)
    requires
        task_ok(nodes, r),
        omits_within(nodes, e),
    ensures
        omits_within(nodes, apply(e, r)),
{
    match r {
        TaskView::DeleteAll(ids) => lemma_omit_all_within(nodes, e, ids),
        _ => {},
    }
}

/// Applying a reduction keeps every edit, and keeps replacements no longer
/// than what they replace.
proof fn lemma_apply_grows(nodes: Seq<NodeView>, e: EditsView, r: TaskView)
    requires
        task_ok(nodes, r),
    ensures
        e.below(apply(e, r)),
        shrinking(nodes, e) ==> shrinking(nodes, apply(e, r)),
{
    match r {
        TaskView::DeleteAll(ids) => lemma_omit_all_grows(nodes, e, ids),
        _ => {},
    }
}

/// The edits `edits` with the reduction `r` applied.
pub fn apply_reduction(edits: &Edits, r: &Reduction, len: usize) -> (e: Edits)
    requires
        task_ok_len(len as nat, r@),
    ensures
        e@ == apply(edits@, r@),
        e@.disjoint(),
{
    let e = edits.clone();
    match r {
        Reduction::Delete(n) => e.omit_id(*n),
        Reduction::DeleteAll(ns) => {
            let ghost ids = ns@.map_values(|n: NodeId| n.id);
            assert(r@ == TaskView::DeleteAll(ids));
            assert(ids_below(ids, len as nat));
            assert forall|k: int| 0 <= k < ns@.len() implies #[trigger] ns@[k].id < usize::MAX by {
                assert(ids[k] == ns@[k].id);
                assert(ids[k] < len);
            }
            e.omit_ids(ns.as_slice())
        },
        Reduction::Replace(n, alt) => e.replace_id(*n, copy_bytes(alt)),
    }
}

/// The ids of task `t` are below `len`.
pub open spec fn task_ok_len(len: nat, t: TaskView) -> bool {
    match t {
        TaskView::Explore(n) => n < len,
        TaskView::Delete(n) => n < len,
        TaskView::DeleteAll(ids) => ids_below(ids, len),
        TaskView::Replace(n, _) => n < len,
    }
}

/// Whether reduction `r` is a valid task for `orig` (see [`task_ok`]).
pub fn reduction_valid(orig: &Original, r: &Reduction) -> (b: bool)
    requires
        orig.well_formed(),
    ensures
        b == task_ok(orig.tree@, r@),
{
    let len = orig.tree.len();
    match r {
        Reduction::Delete(n) => n.id < len,
        Reduction::DeleteAll(ns) => {
            let ghost ids = ns@.map_values(|n: NodeId| n.id);
            let mut i: usize = 0;
            while i < ns.len()
                invariant
                    i <= ns@.len(),
                    len == orig.tree@.len(),
                    ids == ns@.map_values(|n: NodeId| n.id),
                    r@ == TaskView::DeleteAll(ids),
                    forall|j: int| 0 <= j < i ==> #[trigger] ids[j] < len,
                decreases ns@.len() - i,
            {
                assert(ids[i as int] == ns@[i as int].id);
                if ns[i].id >= len {
                    assert(ids[i as int] >= len);
                    assert(!ids_below(ids, len as nat));
                    return false;
                }
                i = i + 1;
            }
            assert(ids_below(ids, len as nat));
            true
        },
        Reduction::Replace(n, alt) => {
            if n.id >= len {
                return false;
            }
            let node = orig.tree.node(*n);
            assert(node_wf(orig.tree@, n.id as int));
            alt.len() < node.end - node.start
        },
    }
}

/// A candidate for the try-commit protocol: the version of the edits it was
/// built on, and the program text it yields.
#[derive(Debug)]
pub struct Attempt {
    pub version: usize,
    pub rendered: Vec<u8>,
}

/// The outcome of [`Reducer::resolve`].
#[derive(Clone, Copy, Debug, PartialEq, Eq, Structural)]
pub enum Resolution {
    /// The candidate was interesting and is now the current edits.
    Accepted,
    /// The candidate was not interesting (or the reduction was not valid).
    Rejected,
    /// The candidate was interesting, but the edits changed since it was
    /// built: build it again.
    Stale,
}

/// The state of one reduction pass: the input, the task queue and the
/// versioned edits committed so far.
pub struct Reducer {
    node_types: NodeTypes,
    orig: Original,
    replacements: Replacements,
    min_reduction: usize,
    tasks: TaskHeap,
    edits: Versioned<Edits>,
    history: Ghost<Seq<EditsView>>,
    approved: Ghost<Set<Seq<u8>>>,
}

/// The number of entries of `plan` with priority at least `min`.
pub open spec fn kept_count(plan: Seq<(TaskView, int)>, min: int) -> nat
    decreases plan.len(),
{
    if plan.len() == 0 {
        0
    } else {
        kept_count(plan.drop_last(), min) + if plan.last().1 >= min {
            1nat
        } else {
            0nat
        }
    }
}

proof fn lemma_filter_map_from<A, B>(s: Seq<A>, f: spec_fn(A) -> Option<B>, j: int)
    requires
        0 <= j < s.filter_map(f).len(),
    ensures
        exists|t: A| #[trigger] s.contains(t) && f(t) == Some(s.filter_map(f)[j]),
{
    let e = s.filter_map(f)[j];
    assert(s.filter_map(f).contains(e));
    s.lemma_filter_map_contains(f, e);
}

/// Every task that exploring a node schedules is valid.
proof fn lemma_plan_ok(
    schema: Seq<NodeSchemaView>,
    repl: Seq<(Seq<char>, Seq<Seq<u8>>)>,
    nodes: Seq<NodeView>,
    min: int,
    n: int,
)
    requires
        tree_wf(nodes),
        0 <= n < nodes.len(),
    ensures
        forall|j: int|
            0 <= j < explore_plan(schema, repl, nodes, min, n).len() ==> task_ok(
                nodes,
                #[trigger] explore_plan(schema, repl, nodes, min, n)[j].0,
            ),
{
    assert(node_wf(nodes, n));
    let reps = shorter_replacements(nodes, n, alternatives(repl, nodes[n].kind));
    assert forall|j: int| 0 <= j < reps.len() implies task_ok(nodes, #[trigger] reps[j].0) by {
        lemma_filter_map_from(alternatives(repl, nodes[n].kind), replace_entry(nodes, n), j);
    }
    let ex = child_explores(nodes, n, min);
    assert forall|j: int| 0 <= j < ex.len() implies task_ok(nodes, #[trigger] ex[j].0) by {
        lemma_filter_map_from(nodes[n].children, explore_entry(nodes, min), j);
        let c = choose|c: usize| #[trigger] nodes[n].children.contains(c) && explore_entry(nodes, min)(c) == Some(ex[j]);
        let k = choose|k: int| 0 <= k < nodes[n].children.len() && nodes[n].children[k] == c;
        assert(nodes[n].children[k] == c);
    }
    let ld = list_deletions(schema, nodes, n);
    assert forall|j: int| 0 <= j < ld.len() implies task_ok(nodes, #[trigger] ld[j].0) by {
        let k = list_types_of(schema, nodes[n].kind)[j];
        let b = batch_of(nodes, n, subtypes_of(schema, k));
        assert(ld[j].0 == TaskView::DeleteAll(b));
        assert forall|i: int| 0 <= i < b.len() implies #[trigger] b[i] < nodes.len() by {
            lemma_filter_map_from(nodes[n].children, batch_entry(nodes, subtypes_of(schema, k)), i);
            let c = choose|c: usize| #[trigger] nodes[n].children.contains(c) && batch_entry(nodes, subtypes_of(schema, k))(c) == Some(b[i]);
            let q = choose|q: int| 0 <= q < nodes[n].children.len() && nodes[n].children[q] == c;
            assert(nodes[n].children[q] == c);
        }
        assert(ids_below(b, nodes.len()));
    }
    let plan = explore_plan(schema, repl, nodes, min, n);
    assert forall|j: int| 0 <= j < plan.len() implies task_ok(nodes, #[trigger] plan[j].0) by {
        if deletable(schema, nodes, n) {
            if j > 0 {
                assert(plan[j] == reps[j - 1]);
            }
        } else {
            if j < ld.len() {
                assert(plan[j] == ld[j]);
            } else if j < ld.len() + reps.len() {
                assert(plan[j] == reps[j - ld.len()]);
            } else {
                assert(plan[j] == ex[j - ld.len() - reps.len()]);
            }
        }
    }
}

proof fn lemma_batch_size(nodes: Seq<NodeView>, n: int, kinds: Set<Seq<char>>, k: int)
    requires
        tree_wf(nodes),
        0 <= n < nodes.len(),
        0 <= k <= nodes[n].children.len(),
    ensures
        0 <= total_size(nodes, nodes[n].children.subrange(0, k).filter_map(batch_entry(nodes, kinds)))
            <= if k == 0 {
            0
        } else {
            nodes[nodes[n].children[k - 1] as int].end - nodes[n].start
        },
    decreases k,
{
    assert(node_wf(nodes, n));
    if k > 0 {
        lemma_batch_size(nodes, n, kinds, k - 1);
        let f = batch_entry(nodes, kinds);
        let s = nodes[n].children.subrange(0, k);
        let prev = nodes[n].children.subrange(0, k - 1).filter_map(f);
        assert(s.drop_last() =~= nodes[n].children.subrange(0, k - 1));
        let c = nodes[n].children[k - 1];
        assert(s.last() == c);
        assert(node_wf(nodes, c as int));
        if k > 1 {
            assert(nodes[nodes[n].children[k - 2] as int].end <= nodes[c as int].start);
        }
        match f(c) {
            Some(e) => {
                assert(s.filter_map(f) == prev + seq![e]);
                assert((prev + seq![e]).drop_last() =~= prev);
                assert((prev + seq![e]).last() == c);
            },
            None => {
                assert(s.filter_map(f) == prev);
            },
        }
    }
}

/// The tasks that exploring node `n` schedules have priority at most the
/// size of `n`, the priority of its `Explore` task; an `Explore` or `Delete`
/// among them has the size of its node as priority.
pub proof fn lemma_plan_no_larger(
    schema: Seq<NodeSchemaView>,
    repl: Seq<(Seq<char>, Seq<Seq<u8>>)>,
    nodes: Seq<NodeView>,
    min: int,
    n: int,
)
    requires
        tree_wf(nodes),
        0 <= n < nodes.len(),
    ensures
        forall|j: int|
            0 <= j < explore_plan(schema, repl, nodes, min, n).len() ==> {
                let e = #[trigger] explore_plan(schema, repl, nodes, min, n)[j];
                &&& sized(nodes, e.0, e.1)
                &&& e.1 <= nodes[n].size()
            },
{
    assert(node_wf(nodes, n));
    let reps = shorter_replacements(nodes, n, alternatives(repl, nodes[n].kind));
    assert forall|j: int| 0 <= j < reps.len() implies sized(nodes, #[trigger] reps[j].0, reps[j].1)
        && reps[j].1 <= nodes[n].size() by {
        lemma_filter_map_from(alternatives(repl, nodes[n].kind), replace_entry(nodes, n), j);
    }
    lemma_child_explores_sized(nodes, n, min);
    let ex = child_explores(nodes, n, min);
    let ld = list_deletions(schema, nodes, n);
    let len = nodes[n].children.len() as int;
    assert forall|j: int| 0 <= j < ld.len() implies sized(nodes, #[trigger] ld[j].0, ld[j].1) && ld[j].1
        <= nodes[n].size() by {
        let k = list_types_of(schema, nodes[n].kind)[j];
        lemma_batch_size(nodes, n, subtypes_of(schema, k), len);
        assert(nodes[n].children.subrange(0, len) =~= nodes[n].children);
        if len > 0 {
            assert(nodes[nodes[n].children[len - 1] as int].end <= nodes[n].end);
        }
    }
    let plan = explore_plan(schema, repl, nodes, min, n);
    assert forall|j: int| 0 <= j < plan.len() implies sized(nodes, #[trigger] plan[j].0, plan[j].1)
        && plan[j].1 <= nodes[n].size() by {
        if deletable(schema, nodes, n) {
            if j > 0 {
                assert(plan[j] == reps[j - 1]);
            }
        } else {
            if j < ld.len() {
                assert(plan[j] == ld[j]);
            } else if j < ld.len() + reps.len() {
                assert(plan[j] == reps[j - ld.len()]);
            } else {
                assert(plan[j] == ex[j - ld.len() - reps.len()]);
            }
        }
    }
}

/// The `Explore` tasks for the children of `n` have the children's sizes as
/// priorities, each at most the size of `n`.
pub proof fn lemma_child_explores_sized(nodes: Seq<NodeView>, n: int, min: int)
    requires
        tree_wf(nodes),
        0 <= n < nodes.len(),
    ensures
        forall|j: int|
            0 <= j < child_explores(nodes, n, min).len() ==> {
                let e = #[trigger] child_explores(nodes, n, min)[j];
                &&& sized(nodes, e.0, e.1)
                &&& e.1 <= nodes[n].size()
            },
{
    assert(node_wf(nodes, n));
    let ex = child_explores(nodes, n, min);
    assert forall|j: int| 0 <= j < ex.len() implies sized(nodes, #[trigger] ex[j].0, ex[j].1) && ex[j].1
        <= nodes[n].size() by {
        lemma_filter_map_from(nodes[n].children, explore_entry(nodes, min), j);
        let c = choose|c: usize| #[trigger] nodes[n].children.contains(c) && explore_entry(nodes, min)(c) == Some(ex[j]);
        let k = choose|k: int| 0 <= k < nodes[n].children.len() && nodes[n].children[k] == c;
        assert(nodes[n].children[k] == c);
        assert(node_wf(nodes, c as int));
    }
}

/// An upper bound on the dispatches that exploring node `n` leads to: two
/// (the exploration and the deletion or the list deletions' exploration),
/// one per list kind and per replacement of its kind, and the same for each
/// of its children. Summed over the subtrees of the root, it bounds a whole
/// pass.
pub open spec fn explore_cost(
    schema: Seq<NodeSchemaView>,
    repl: Seq<(Seq<char>, Seq<Seq<u8>>)>,
    nodes: Seq<NodeView>,
    n: int,
) -> nat
    decreases nodes.len() - n, 1int, 0int,
{
    if !(0 <= n < nodes.len()) {
        0
    } else {
        2 + list_types_of(schema, nodes[n].kind).len() + alternatives(repl, nodes[n].kind).len()
            + children_cost(schema, repl, nodes, n, nodes[n].children.len() as int)
    }
}

/// The exploration costs of the first `k` children of node `n`.
pub open spec fn children_cost(
    schema: Seq<NodeSchemaView>,
    repl: Seq<(Seq<char>, Seq<Seq<u8>>)>,
    nodes: Seq<NodeView>,
    n: int,
    k: int,
) -> nat
    decreases nodes.len() - n, 0int, k,
{
    if !(0 <= n < nodes.len()) || k <= 0 || k > nodes[n].children.len() {
        0
    } else {
        let c = nodes[n].children[k - 1] as int;
        children_cost(schema, repl, nodes, n, k - 1) + if n < c < nodes.len() {
            explore_cost(schema, repl, nodes, c)
        } else {
            0
        }
    }
}

/// The dispatches that a queued task can still lead to.
pub open spec fn task_cost(
    schema: Seq<NodeSchemaView>,
    repl: Seq<(Seq<char>, Seq<Seq<u8>>)>,
    nodes: Seq<NodeView>,
    t: TaskView,
) -> nat {
    match t {
        TaskView::Explore(n) => explore_cost(schema, repl, nodes, n as int),
        TaskView::Delete(n) => 1 + children_cost(
            schema,
            repl,
            nodes,
            n as int,
            nodes[n as int].children.len() as int,
        ),
        _ => 1,
    }
}

pub open spec fn plan_cost(
    schema: Seq<NodeSchemaView>,
    repl: Seq<(Seq<char>, Seq<Seq<u8>>)>,
    nodes: Seq<NodeView>,
    plan: Seq<(TaskView, int)>,
) -> nat
    decreases plan.len(),
{
    if plan.len() == 0 {
        0
    } else {
        plan_cost(schema, repl, nodes, plan.drop_last()) + task_cost(schema, repl, nodes, plan.last().0)
    }
}

pub open spec fn queue_cost(
    schema: Seq<NodeSchemaView>,
    repl: Seq<(Seq<char>, Seq<Seq<u8>>)>,
    nodes: Seq<NodeView>,
    q: Seq<PrioritizedTask>,
) -> nat
    decreases q.len(),
{
    if q.len() == 0 {
        0
    } else {
        queue_cost(schema, repl, nodes, q.drop_last()) + task_cost(schema, repl, nodes, q.last().task@)
    }
}

proof fn lemma_queue_cost_insert(
    schema: Seq<NodeSchemaView>,
    repl: Seq<(Seq<char>, Seq<Seq<u8>>)>,
    nodes: Seq<NodeView>,
    q: Seq<PrioritizedTask>,
    i: int,
    t: PrioritizedTask,
)
    requires
        0 <= i <= q.len(),
    ensures
        queue_cost(schema, repl, nodes, q.insert(i, t)) == queue_cost(schema, repl, nodes, q) + task_cost(
            schema,
            repl,
            nodes,
            t.task@,
        ),
    decreases q.len(),
{
    if i < q.len() {
        lemma_queue_cost_insert(schema, repl, nodes, q.drop_last(), i, t);
        assert(q.insert(i, t).drop_last() =~= q.drop_last().insert(i, t));
        assert(q.insert(i, t).last() == q.last());
    } else {
        assert(q.insert(i, t).drop_last() =~= q);
    }
}

proof fn lemma_plan_cost_concat(
    schema: Seq<NodeSchemaView>,
    repl: Seq<(Seq<char>, Seq<Seq<u8>>)>,
    nodes: Seq<NodeView>,
    a: Seq<(TaskView, int)>,
    b: Seq<(TaskView, int)>,
)
    ensures
        plan_cost(schema, repl, nodes, a + b) == plan_cost(schema, repl, nodes, a) + plan_cost(
            schema,
            repl,
            nodes,
            b,
        ),
    decreases b.len(),
{
    if b.len() == 0 {
        assert(a + b =~= a);
    } else {
        lemma_plan_cost_concat(schema, repl, nodes, a, b.drop_last());
        assert((a + b).drop_last() =~= a + b.drop_last());
        assert((a + b).last() == b.last());
    }
}

/// The costs of the `Explore` tasks for the first `k` children of `n` are at
/// most those of all of the first `k` children.
proof fn lemma_child_explores_cost(
    schema: Seq<NodeSchemaView>,
    repl: Seq<(Seq<char>, Seq<Seq<u8>>)>,
    nodes: Seq<NodeView>,
    n: int,
    min: int,
    k: int,
)
    requires
        node_wf(nodes, n),
        0 <= n < nodes.len(),
        0 <= k <= nodes[n].children.len(),
    ensures
        plan_cost(schema, repl, nodes, nodes[n].children.subrange(0, k).filter_map(explore_entry(nodes, min)))
            <= children_cost(schema, repl, nodes, n, k),
    decreases k,
{
    if k > 0 {
        lemma_child_explores_cost(schema, repl, nodes, n, min, k - 1);
        let f = explore_entry(nodes, min);
        let s = nodes[n].children.subrange(0, k);
        let prev = nodes[n].children.subrange(0, k - 1).filter_map(f);
        assert(s.drop_last() =~= nodes[n].children.subrange(0, k - 1));
        let c = nodes[n].children[k - 1];
        assert(s.last() == c);
        assert(n < c < nodes.len());
        assert(children_cost(schema, repl, nodes, n, k) == children_cost(schema, repl, nodes, n, k - 1)
            + explore_cost(schema, repl, nodes, c as int));
        match f(c) {
            Some(e) => {
                assert(s.filter_map(f) == prev + seq![e]);
                assert((prev + seq![e]).drop_last() =~= prev);
                assert((prev + seq![e]).last() == e);
                assert(e.0 == TaskView::Explore(c));
            },
            None => {
                assert(s.filter_map(f) == prev);
            },
        }
    }
}

proof fn lemma_reps_cost(
    schema: Seq<NodeSchemaView>,
    repl: Seq<(Seq<char>, Seq<Seq<u8>>)>,
    nodes: Seq<NodeView>,
    n: int,
    alts: Seq<Seq<u8>>,
)
    ensures
        plan_cost(schema, repl, nodes, shorter_replacements(nodes, n, alts)) <= alts.len(),
    decreases alts.len(),
{
    if alts.len() > 0 {
        lemma_reps_cost(schema, repl, nodes, n, alts.drop_last());
        let f = replace_entry(nodes, n);
        let prev = alts.drop_last().filter_map(f);
        match f(alts.last()) {
            Some(e) => {
                assert(alts.filter_map(f) == prev + seq![e]);
                assert((prev + seq![e]).drop_last() =~= prev);
                assert((prev + seq![e]).last() == e);
                assert(task_cost(schema, repl, nodes, e.0) == 1);
            },
            None => {
                assert(alts.filter_map(f) == prev);
            },
        }
    }
}

proof fn lemma_list_cost(
    schema: Seq<NodeSchemaView>,
    repl: Seq<(Seq<char>, Seq<Seq<u8>>)>,
    nodes: Seq<NodeView>,
    n: int,
    kinds: Seq<Seq<char>>,
)
    ensures
        plan_cost(schema, repl, nodes, kinds.map_values(list_entry(schema, nodes, n))) == kinds.len(),
    decreases kinds.len(),
{
    if kinds.len() > 0 {
        lemma_list_cost(schema, repl, nodes, n, kinds.drop_last());
        assert(kinds.map_values(list_entry(schema, nodes, n)).drop_last() =~= kinds.drop_last().map_values(
            list_entry(schema, nodes, n),
        ));
    }
}

proof fn lemma_delete_plan_cost(
    schema: Seq<NodeSchemaView>,
    repl: Seq<(Seq<char>, Seq<Seq<u8>>)>,
    nodes: Seq<NodeView>,
    n: int,
    reps: Seq<(TaskView, int)>,
)
    requires
        0 <= n < nodes.len() <= usize::MAX,
    ensures
        plan_cost(schema, repl, nodes, seq![(TaskView::Delete(n as usize), nodes[n].size())] + reps)
            == 1 + children_cost(schema, repl, nodes, n, nodes[n].children.len() as int) + plan_cost(
            schema,
            repl,
            nodes,
            reps,
        ),
{
    let d = seq![(TaskView::Delete(n as usize), nodes[n].size())];
    lemma_plan_cost_concat(schema, repl, nodes, d, reps);
    assert(d.drop_last() =~= Seq::<(TaskView, int)>::empty());
    assert(d.last() == d[0]);
    assert(plan_cost(schema, repl, nodes, Seq::<(TaskView, int)>::empty()) == 0);
    assert(plan_cost(schema, repl, nodes, d.drop_last()) == 0);
    assert((n as usize) as int == n);
    assert(plan_cost(schema, repl, nodes, d) == task_cost(schema, repl, nodes, d[0].0));
}

/// The tasks that exploring `n` schedules cost less than exploring `n`.
proof fn lemma_plan_cost(
    schema: Seq<NodeSchemaView>,
    repl: Seq<(Seq<char>, Seq<Seq<u8>>)>,
    nodes: Seq<NodeView>,
    min: int,
    n: int,
)
    requires
        node_wf(nodes, n),
        0 <= n < nodes.len() <= usize::MAX,
    ensures
        plan_cost(schema, repl, nodes, explore_plan(schema, repl, nodes, min, n)) < explore_cost(
            schema,
            repl,
            nodes,
            n,
        ),
{
    let alts = alternatives(repl, nodes[n].kind);
    let reps = shorter_replacements(nodes, n, alts);
    lemma_reps_cost(schema, repl, nodes, n, alts);
    let len = nodes[n].children.len() as int;
    assert(nodes[n].children.subrange(0, len) =~= nodes[n].children);
    lemma_child_explores_cost(schema, repl, nodes, n, min, len);
    let kinds = list_types_of(schema, nodes[n].kind);
    lemma_list_cost(schema, repl, nodes, n, kinds);
    let cc = children_cost(schema, repl, nodes, n, len);
    let ex = child_explores(nodes, n, min);
    let ld = list_deletions(schema, nodes, n);
    assert(plan_cost(schema, repl, nodes, ex) <= cc);
    assert(plan_cost(schema, repl, nodes, ld) == kinds.len());
    if deletable(schema, nodes, n) {
        lemma_delete_plan_cost(schema, repl, nodes, n, reps);
    } else {
        lemma_plan_cost_concat(schema, repl, nodes, ld, reps);
        lemma_plan_cost_concat(schema, repl, nodes, ld + reps, ex);
    }
}

impl Reducer {
    /// The queued tasks, as task values with their priorities.
    pub closed spec fn queue(&self) -> Seq<(TaskView, int)> {
        self.tasks.items().map_values(|t: PrioritizedTask| entry_of(t))
    }

    /// The dispatches that the queued tasks can still lead to.
    pub closed spec fn potential(&self) -> nat {
        queue_cost(self.node_types@, self.replacements@, self.orig.tree@, self.tasks.items())
    }

    pub closed spec fn nodes(&self) -> Seq<NodeView> {
        self.orig.tree@
    }

    pub closed spec fn text(&self) -> Seq<u8> {
        self.orig.text@
    }

    pub closed spec fn schema(&self) -> Seq<NodeSchemaView> {
        self.node_types@
    }

    pub closed spec fn repl(&self) -> Seq<(Seq<char>, Seq<Seq<u8>>)> {
        self.replacements@
    }

    pub closed spec fn min(&self) -> int {
        self.min_reduction as int
    }

    pub closed spec fn tasks(&self) -> Multiset<PrioritizedTask> {
        self.tasks.contents()
    }

    /// The edits committed last.
    pub closed spec fn current(&self) -> EditsView {
        self.edits.value()@
    }

    pub closed spec fn spec_version(&self) -> nat {
        self.edits.version()
    }

    /// The edits committed at each version, from the empty edits on.
    pub closed spec fn history(&self) -> Seq<EditsView> {
        self.history@
    }

    /// The program texts that the check was reported to find interesting.
    pub closed spec fn approved(&self) -> Set<Seq<u8>> {
        self.approved@
    }

    pub closed spec fn well_formed(&self) -> bool {
        &&& self.orig.well_formed()
        &&& self.min_reduction >= 1
        &&& self.history@.len() == self.edits.version() + 1
        &&& self.history@[0] == EditsView::empty()
        &&& self.history@.last() == self.edits.value()@
        &&& forall|v: int, w: int|
            #![trigger self.history@[v], self.history@[w]]
            0 <= v <= w < self.history@.len() ==> self.history@[v].below(self.history@[w])
        &&& shrinking(self.orig.tree@, self.edits.value()@)
        &&& omits_within(self.orig.tree@, self.edits.value()@)
        &&& self.edits.value()@.disjoint()
        &&& self.edits.version() > 0 ==> self.approved@.contains(
            rendered(self.orig.tree@, self.orig.text@, self.edits.value()@),
        )
        &&& forall|t: PrioritizedTask| #[trigger]
            self.tasks.contents().contains(t) ==> task_ok(self.orig.tree@, t.task@)
        &&& forall|t: PrioritizedTask| #[trigger]
            self.tasks.contents().contains(t) ==> sized(self.orig.tree@, t.task@, t.priority as int)
    }

    /// A reducer for `orig` whose queue holds the exploration of the root.
    pub fn new(node_types: NodeTypes, orig: Original, min_reduction: usize, replacements: Replacements) -> (r:
        Reducer)
        requires
            orig.well_formed(),
        ensures
            r.well_formed(),
            r.nodes() == orig.tree@,
            r.text() == orig.text@,
            r.schema() == node_types@,
            r.repl() == replacements@,
            r.min() == if min_reduction == 0 {
                1
            } else {
                min_reduction as int
            },
            r.current() == EditsView::empty(),
            r.spec_version() == 0,
            r.approved() == Set::<Seq<u8>>::empty(),
            r.tasks().len() == 1,
            r.potential() == explore_cost(node_types@, replacements@, orig.tree@, 0),
            forall|t: PrioritizedTask| #[trigger]
                r.tasks().contains(t) ==> t.task@ == TaskView::Explore(0) && t.priority
                    == orig.tree@[0].size(),
    {
        let min = if min_reduction == 0 {
            1
        } else {
            min_reduction
        };
        let root = orig.tree.node(NodeId { id: 0 });
        assert(node_wf(orig.tree@, 0));
        let size = root.end - root.start;
        let mut tasks = TaskHeap::new();
        tasks.push(Task::Explore(NodeId { id: 0 }), size);
        proof {
            let t = PrioritizedTask { task: Task::Explore(NodeId { id: 0 }), id: crate::task::TaskId { id: 0 }, priority: size };
            lemma_queue_cost_insert(node_types@, replacements@, orig.tree@, Seq::empty(), 0, t);
            assert(tasks.items() == Seq::<PrioritizedTask>::empty().insert(0, t));
        }
        let edits = Versioned::new(Edits::new());
        let ghost history = seq![EditsView::empty()];
        let ghost approved = Set::<Seq<u8>>::empty();
        let r = Reducer {
            node_types,
            orig,
            replacements,
            min_reduction: min,
            tasks,
            edits,
            history: Ghost(history),
            approved: Ghost(approved),
        };
        proof {
            assert(r.edits.value()@ == EditsView::empty());
            assert(shrinking(r.orig.tree@, EditsView::empty()));
            assert forall|t: PrioritizedTask| #[trigger] r.tasks.contents().contains(t) implies task_ok(
                r.orig.tree@,
                t.task@,
            ) && t.task@ == TaskView::Explore(0) && t.priority == r.orig.tree@[0].size() && sized(
                r.orig.tree@,
                t.task@,
                t.priority as int,
            ) by {}
        }
        r
    }

    pub fn node_count(&self) -> (r: usize)
        ensures
            r == self.nodes().len(),
    {
        self.orig.tree.len()
    }

    pub fn original(&self) -> (r: &Original)
        ensures
            r.tree@ == self.nodes(),
            r.text@ == self.text(),
    {
        &self.orig
    }

    /// The edits committed last.
    pub fn edits(&self) -> (r: &Edits)
        ensures
            r@ == self.current(),
    {
        self.edits.get()
    }

    pub fn version(&self) -> (r: usize)
        ensures
            r == self.spec_version(),
    {
        self.edits.get_version()
    }

    pub fn is_idle(&self) -> (r: bool)
        ensures
            r == (self.tasks().len() == 0),
    {
        self.tasks.is_empty()
    }

    /// Push the entries of `plan` with priority at least the minimum.
    fn push_plan(&mut self, plan: Vec<(Task, usize)>)
        requires
            old(self).well_formed(),
            forall|j: int|
                0 <= j < plan@.len() ==> task_ok(old(self).nodes(), #[trigger] plan_view(plan@)[j].0),
            forall|j: int|
                0 <= j < plan@.len() ==> sized(old(self).nodes(), #[trigger] plan_view(plan@)[j].0, plan_view(plan@)[j].1),
        ensures
            final(self).well_formed(),
            final(self).unchanged_but_tasks(*old(self)),
            old(self).tasks().subset_of(final(self).tasks()),
            final(self).tasks().len() == old(self).tasks().len() + kept_count(plan_view(plan@), old(self).min()),
            forall|t: PrioritizedTask| #[trigger]
                final(self).tasks().contains(t) ==> old(self).tasks().contains(t) || (t.priority
                    >= old(self).min() && plan_view(plan@).contains((t.task@, t.priority as int))),
            final(self).potential() <= old(self).potential() + plan_cost(
                old(self).schema(),
                old(self).repl(),
                old(self).nodes(),
                plan_view(plan@),
            ),
            final(self).queue().to_multiset() == old(self).queue().to_multiset().add(
                kept(plan_view(plan@), old(self).min()).to_multiset(),
            ),
    {
        let ghost whole = plan_view(plan@);
        let ghost start = self.tasks.contents();
        let mut plan = plan;
        assert(whole.subrange(0, plan@.len() as int) =~= whole);
        while plan.len() > 0
            invariant
                self.well_formed(),
                self.unchanged_but_tasks(*old(self)),
                plan_view(plan@) == whole.subrange(0, plan@.len() as int),
                plan@.len() <= whole.len(),
                forall|j: int| 0 <= j < whole.len() ==> task_ok(self.nodes(), #[trigger] whole[j].0),
                forall|j: int| 0 <= j < whole.len() ==> sized(self.nodes(), #[trigger] whole[j].0, whole[j].1),
                start.subset_of(self.tasks()),
                start == old(self).tasks(),
                self.tasks().len() + kept_count(whole.subrange(0, plan@.len() as int), self.min()) == start.len()
                    + kept_count(whole, self.min()),
                forall|t: PrioritizedTask| #[trigger]
                    self.tasks().contains(t) ==> start.contains(t) || (t.priority >= self.min()
                        && whole.contains((t.task@, t.priority as int))),
                self.potential() + plan_cost(self.schema(), self.repl(), self.nodes(), whole.subrange(0, plan@.len() as int))
                    <= old(self).potential() + plan_cost(self.schema(), self.repl(), self.nodes(), whole),
                self.queue().to_multiset().add(kept(whole.subrange(0, plan@.len() as int), self.min()).to_multiset())
                    == old(self).queue().to_multiset().add(kept(whole, self.min()).to_multiset()),
            decreases plan@.len(),
        {
            let ghost before = plan@;
            let ghost len = plan@.len() as int;
            let (task, priority) = plan.pop().unwrap();
            proof {
                assert(before.drop_last() =~= plan@);
                assert(plan_view(before)[len - 1] == (task@, priority as int));
                assert(whole[len - 1] == (task@, priority as int));
                assert(whole.subrange(0, len).drop_last() =~= whole.subrange(0, len - 1));
                assert(plan_view(plan@) =~= whole.subrange(0, len - 1));
                assert(task_ok(self.nodes(), whole[len - 1].0));
                assert(whole.subrange(0, len).last() == whole[len - 1]);
                lemma_kept_step(whole.subrange(0, len), self.min());
            }
            let ghost queue_before = self.queue();
            if priority >= self.min_reduction {
                let ghost before_tasks = self.tasks.contents();
                let ghost before_items = self.tasks.items();
                let ghost tv = task@;
                let ghost next = self.tasks.next_id();
                let ghost pt = PrioritizedTask { task, id: crate::task::TaskId { id: next }, priority };
                self.tasks.push(task, priority);
                proof {
                    let i = choose|i: int| 0 <= i <= before_items.len() && self.tasks.items() == before_items.insert(i, pt);
                    lemma_queue_cost_insert(self.node_types@, self.replacements@, self.orig.tree@, before_items, i, pt);
                    let e = whole[len - 1];
                    assert(entry_of(pt) == e);
                    assert(self.queue() =~= queue_before.insert(i, e));
                    vstd::seq_lib::to_multiset_insert(queue_before, i, e);
                    let k2 = kept(whole.subrange(0, len - 1), self.min()).to_multiset();
                    assert(self.queue().to_multiset().add(k2) =~= queue_before.to_multiset().add(k2.insert(e)));
                    assert(sized(self.nodes(), whole[len - 1].0, whole[len - 1].1));
                    assert forall|t: PrioritizedTask| #[trigger]
                        self.tasks.contents().contains(t) implies task_ok(self.orig.tree@, t.task@) && sized(
                        self.orig.tree@,
                        t.task@,
                        t.priority as int,
                    ) by {
                        if !before_tasks.contains(t) {
                            assert(t.task@ == tv);
                            assert(t == pt);
                        }
                    }
                    assert forall|t: PrioritizedTask| #[trigger]
                        self.tasks().contains(t) implies start.contains(t) || (t.priority >= self.min()
                            && whole.contains((t.task@, t.priority as int))) by {
                        if !before_tasks.contains(t) {
                            assert(whole[len - 1] == (t.task@, t.priority as int));
                        }
                    }
                }
            }
        }
        proof {
            assert(whole.subrange(0, 0) =~= Seq::<(TaskView, int)>::empty());
            assert(kept(Seq::<(TaskView, int)>::empty(), self.min()) =~= Seq::<(TaskView, int)>::empty());
            assert(self.queue().to_multiset().add(Seq::<(TaskView, int)>::empty().to_multiset()) =~= self.queue().to_multiset());
        }
    }

    /// The parts of the state other than the task queue are unchanged.
    pub closed spec fn unchanged_but_tasks(&self, other: Reducer) -> bool {
        &&& self.nodes() == other.nodes()
        &&& self.text() == other.text()
        &&& self.schema() == other.schema()
        &&& self.repl() == other.repl()
        &&& self.min() == other.min()
        &&& self.current() == other.current()
        &&& self.spec_version() == other.spec_version()
        &&& self.history() == other.history()
        &&& self.approved() == other.approved()
    }

    /// Take the task of the largest priority off the queue, dropping those
    /// below the minimum reduction; `None` once no task is left.
    pub fn pop_task(&mut self) -> (r: Option<PrioritizedTask>)
        requires
            old(self).well_formed(),
        ensures
            final(self).well_formed(),
            final(self).unchanged_but_tasks(*old(self)),
            final(self).tasks().subset_of(old(self).tasks()),
            r is None ==> final(self).tasks().len() == 0 && forall|u: PrioritizedTask| #[trigger]
                old(self).tasks().contains(u) ==> u.priority < old(self).min(),
            final(self).potential() <= old(self).potential(),
            r matches Some(t) ==> final(self).potential() + task_cost(
                old(self).schema(),
                old(self).repl(),
                old(self).nodes(),
                t.task@,
            ) <= old(self).potential(),
            r matches Some(t) ==> {
                &&& old(self).tasks().contains(t)
                &&& final(self).tasks().insert(t).subset_of(old(self).tasks())
                &&& t.priority >= old(self).min()
                &&& task_ok(old(self).nodes(), t.task@)
                &&& sized(old(self).nodes(), t.task@, t.priority as int)
                &&& forall|u: PrioritizedTask| #[trigger]
                    final(self).tasks().contains(u) ==> u.priority <= t.priority
            },
    {
        let ghost start = self.tasks.contents();
        loop
            invariant
                self.well_formed(),
                self.unchanged_but_tasks(*old(self)),
                start == old(self).tasks(),
                self.tasks().subset_of(start),
                forall|u: PrioritizedTask| #[trigger]
                    start.contains(u) && !self.tasks().contains(u) ==> u.priority < self.min(),
                self.potential() <= old(self).potential(),
            decreases self.tasks().len(),
        {
            let ghost before = self.tasks.contents();
            let ghost before_items = self.tasks.items();
            match self.tasks.pop() {
                None => {
                    return None;
                },
                Some(t) => {
                    proof {
                        assert(queue_cost(self.node_types@, self.replacements@, self.orig.tree@, before_items)
                            == queue_cost(self.node_types@, self.replacements@, self.orig.tree@, self.tasks.items())
                            + task_cost(self.node_types@, self.replacements@, self.orig.tree@, t.task@));
                        assert(before.contains(t));
                        assert forall|u: PrioritizedTask| #[trigger]
                            self.tasks.contents().contains(u) implies task_ok(self.orig.tree@, u.task@) && sized(
                            self.orig.tree@,
                            u.task@,
                            u.priority as int,
                        ) by {
                            assert(before.contains(u));
                        }
                    }
                    if t.priority >= self.min_reduction {
                        return Some(t);
                    }
                    proof {
                        assert forall|u: PrioritizedTask| #[trigger]
                            start.contains(u) && !self.tasks().contains(u) implies u.priority < self.min() by {
                            if before.contains(u) && u != t {
                                assert(before.count(u) == self.tasks().count(u));
                            }
                        }
                    }
                },
            }
        }
    }

    /// Schedule the tasks that exploring node `node` calls for (see
    /// [`explore_plan`]); those below the minimum reduction are dropped.
    pub fn explore(&mut self, node: NodeId)
        requires
            old(self).well_formed(),
            node.id < old(self).nodes().len(),
        ensures
            final(self).well_formed(),
            final(self).unchanged_but_tasks(*old(self)),
            old(self).tasks().subset_of(final(self).tasks()),
            final(self).tasks().len() == old(self).tasks().len() + kept_count(
                explore_plan(old(self).schema(), old(self).repl(), old(self).nodes(), old(self).min(), node.id as int),
                old(self).min(),
            ),
            forall|t: PrioritizedTask| #[trigger]
                final(self).tasks().contains(t) ==> old(self).tasks().contains(t) || (t.priority
                    >= old(self).min() && explore_plan(
                    old(self).schema(),
                    old(self).repl(),
                    old(self).nodes(),
                    old(self).min(),
                    node.id as int,
                ).contains((t.task@, t.priority as int))),
            final(self).potential() < old(self).potential() + explore_cost(
                old(self).schema(),
                old(self).repl(),
                old(self).nodes(),
                node.id as int,
            ),
            final(self).queue().to_multiset() == old(self).queue().to_multiset().add(
                kept(
                    explore_plan(old(self).schema(), old(self).repl(), old(self).nodes(), old(self).min(), node.id as int),
                    old(self).min(),
                ).to_multiset(),
            ),
    {
        let plan = plan_explore(&self.node_types, &self.replacements, &self.orig, self.min_reduction, node);
        proof {
            lemma_plan_ok(self.node_types@, self.replacements@, self.orig.tree@, self.min_reduction as int, node.id as int);
            lemma_plan_no_larger(self.node_types@, self.replacements@, self.orig.tree@, self.min_reduction as int, node.id as int);
            assert(node_wf(self.orig.tree@, node.id as int));
            lemma_plan_cost(self.node_types@, self.replacements@, self.orig.tree@, self.min_reduction as int, node.id as int);
        }
        self.push_plan(plan);
    }

    /// Build the candidate for `reduction`: the current version, and the
    /// program text under the current edits with the reduction applied.
    /// `None` if the reduction is not valid for this tree.
    pub fn prepare(&self, reduction: &Reduction) -> (r: Option<Attempt>)
        requires
            self.well_formed(),
        ensures
            r is Some <==> task_ok(self.nodes(), reduction@),
            r matches Some(a) ==> a.version == self.spec_version() && a.rendered@ == rendered(
                self.nodes(),
                self.text(),
                apply(self.current(), reduction@),
            ),
    {
        if !reduction_valid(&self.orig, reduction) {
            return None;
        }
        let candidate = apply_reduction(self.edits.get(), reduction, self.orig.tree.len());
        let rendered = render(&self.orig, &candidate);
        Some(Attempt { version: self.edits.get_version(), rendered })
    }

    /// The last step of the try-commit protocol for `reduction`, given the
    /// check's verdict on `attempt`. An interesting candidate built on the
    /// current version becomes the current edits, one version later; one
    /// built on an older version is stale. Before it is committed, the
    /// candidate is rebuilt from the current edits and compared with the
    /// attempt's text, so that what is committed is what the check judged.
    /// A deletion that was not interesting schedules the exploration of the
    /// node's children.
    pub fn resolve(&mut self, reduction: &Reduction, attempt: &Attempt, interesting: bool) -> (r: Resolution)
        requires
            old(self).well_formed(),
        ensures
            final(self).well_formed(),
            final(self).nodes() == old(self).nodes(),
            final(self).text() == old(self).text(),
            final(self).schema() == old(self).schema(),
            final(self).repl() == old(self).repl(),
            final(self).min() == old(self).min(),
            final(self).approved() == if interesting {
                old(self).approved().insert(attempt.rendered@)
            } else {
                old(self).approved()
            },
            (r == Resolution::Rejected) <==> (!interesting || !task_ok(old(self).nodes(), reduction@)),
            (r == Resolution::Accepted) <==> (interesting && task_ok(old(self).nodes(), reduction@)
                && attempt.version == old(self).spec_version() && old(self).spec_version() < usize::MAX
                && attempt.rendered@ == rendered(
                old(self).nodes(),
                old(self).text(),
                apply(old(self).current(), reduction@),
            )),
            r == Resolution::Accepted ==> {
                &&& final(self).current() == apply(old(self).current(), reduction@)
                &&& final(self).spec_version() == old(self).spec_version() + 1
                &&& final(self).history() == old(self).history().push(final(self).current())
                &&& final(self).tasks() == old(self).tasks()
            },
            r != Resolution::Accepted ==> {
                &&& final(self).current() == old(self).current()
                &&& final(self).spec_version() == old(self).spec_version()
                &&& final(self).history() == old(self).history()
            },
            r == Resolution::Stale ==> final(self).tasks() == old(self).tasks(),
            r != Resolution::Rejected ==> final(self).potential() == old(self).potential(),
            r == Resolution::Rejected ==> match reduction@ {
                TaskView::Delete(n) => task_ok(old(self).nodes(), reduction@) ==> {
                    &&& old(self).tasks().subset_of(final(self).tasks())
                    &&& final(self).tasks().len() == old(self).tasks().len() + kept_count(
                        child_explores(old(self).nodes(), n as int, old(self).min()),
                        old(self).min(),
                    )
                    &&& final(self).queue().to_multiset() == old(self).queue().to_multiset().add(
                        kept(child_explores(old(self).nodes(), n as int, old(self).min()), old(self).min()).to_multiset(),
                    )
                    &&& final(self).potential() <= old(self).potential() + children_cost(
                        old(self).schema(),
                        old(self).repl(),
                        old(self).nodes(),
                        n as int,
                        old(self).nodes()[n as int].children.len() as int,
                    )
                },
                _ => final(self).tasks() == old(self).tasks() && final(self).potential()
                    == old(self).potential() && final(self).queue() == old(self).queue(),
            },
            r != Resolution::Rejected ==> final(self).queue() == old(self).queue(),
            r == Resolution::Rejected && !task_ok(old(self).nodes(), reduction@)
                ==> final(self).queue() == old(self).queue(),
            r == Resolution::Rejected && !task_ok(old(self).nodes(), reduction@)
                ==> final(self).potential() == old(self).potential(),
    {
        let valid = reduction_valid(&self.orig, reduction);
        if !interesting || !valid {
            if !interesting {
                if let Reduction::Delete(n) = reduction {
                    if valid {
                        let mut plan: Vec<(Task, usize)> = Vec::new();
                        push_child_explores(&self.orig, n.id, self.min_reduction, &mut plan);
                        proof {
                            let nodes = self.orig.tree@;
                            let ex = child_explores(nodes, n.id as int, self.min_reduction as int);
                            assert(plan_view(plan@) =~= ex);
                            assert(node_wf(nodes, n.id as int));
                            let len = nodes[n.id as int].children.len() as int;
                            assert(nodes[n.id as int].children.subrange(0, len) =~= nodes[n.id as int].children);
                            lemma_child_explores_cost(self.node_types@, self.replacements@, nodes, n.id as int, self.min_reduction as int, len);
                            lemma_child_explores_sized(nodes, n.id as int, self.min_reduction as int);
                            assert forall|j: int| 0 <= j < ex.len() implies task_ok(nodes, #[trigger] ex[j].0) by {
                                lemma_filter_map_from(nodes[n.id as int].children, explore_entry(nodes, self.min_reduction as int), j);
                                let c = choose|c: usize| #[trigger] nodes[n.id as int].children.contains(c) && explore_entry(nodes, self.min_reduction as int)(c) == Some(ex[j]);
                                let k = choose|k: int| 0 <= k < nodes[n.id as int].children.len() && nodes[n.id as int].children[k] == c;
                                assert(nodes[n.id as int].children[k] == c);
                            }
                        }
                        self.push_plan(plan);
                    }
                }
            } else {
                proof {
                    self.approved@ = self.approved@.insert(attempt.rendered@);
                }
            }
            return Resolution::Rejected;
        }
        proof {
            self.approved@ = self.approved@.insert(attempt.rendered@);
        }
        let version = self.edits.get_version();
        if attempt.version != version || version == usize::MAX {
            return Resolution::Stale;
        }
        let candidate = apply_reduction(self.edits.get(), reduction, self.orig.tree.len());
        let text = render(&self.orig, &candidate);
        if !bytes_eq(&text, &attempt.rendered) {
            return Resolution::Stale;
        }
        proof {
            lemma_apply_grows(self.orig.tree@, self.edits.value()@, reduction@);
            lemma_apply_within(self.orig.tree@, self.edits.value()@, reduction@);
            let h = self.history@;
            let hn = h.push(candidate@);
            assert forall|v: int, w: int|
                #![trigger hn[v], hn[w]]
                0 <= v <= w < hn.len() implies hn[v].below(hn[w]) by {
                if w == h.len() {
                    if v < h.len() {
                        assert(h[v].below(h.last()));
                        lemma_below_trans(h[v], h.last(), candidate@);
                    }
                } else {
                    assert(hn[v] == h[v] && hn[w] == h[w]);
                }
            }
            self.history@ = hn;
        }
        self.edits = self.edits.modify(candidate);
        Resolution::Accepted
    }

    /// Run the pass to its end on one thread: take tasks off the queue by
    /// priority, explore nodes and try reductions with `check`, until no task
    /// is left. Each round lowers the potential, so the pass ends after at
    /// most as many rounds (returned) as the potential it started with: for a
    /// new reducer, [`explore_cost`] of the root.
    pub fn run<C: Check>(&mut self, check: &C) -> (r: std::io::Result<usize>)
        requires
            old(self).well_formed(),
        ensures
            final(self).well_formed(),
            final(self).nodes() == old(self).nodes(),
            final(self).text() == old(self).text(),
            r is Ok ==> final(self).tasks().len() == 0,
            r matches Ok(rounds) ==> rounds <= old(self).potential(),
            (forall|t: PrioritizedTask| #[trigger]
                old(self).tasks().contains(t) ==> t.priority < old(self).min()) ==> r == Ok::<usize, std::io::Error>(0),
            old(self).history().len() <= final(self).history().len(),
            final(self).history().subrange(0, old(self).history().len() as int) == old(self).history(),
    {
        let mut rounds: usize = 0;
        loop
            invariant
                self.well_formed(),
                self.min() == old(self).min(),
                self.schema() == old(self).schema(),
                self.repl() == old(self).repl(),
                (forall|t: PrioritizedTask| #[trigger]
                    old(self).tasks().contains(t) ==> t.priority < old(self).min()) ==> self.tasks()
                    == old(self).tasks() && rounds == 0,
                self.nodes() == old(self).nodes(),
                self.text() == old(self).text(),
                rounds + self.potential() <= old(self).potential(),
                old(self).history().len() <= self.history().len(),
                self.history().subrange(0, old(self).history().len() as int) == old(self).history(),
            decreases self.potential(),
        {
            let ghost before = self.potential();
            let ghost h = self.history();
            let ptask = match self.pop_task() {
                None => {
                    return Ok(rounds);
                },
                Some(t) => t,
            };
            proof {
                lemma_task_cost_positive(self.schema(), self.repl(), self.nodes(), ptask.task@);
            }
            let ghost cost = task_cost(self.schema(), self.repl(), self.nodes(), ptask.task@);
            if rounds < usize::MAX {
                rounds = rounds + 1;
            }
            match ptask.task {
                Task::Explore(n) => {
                    self.explore(n);
                },
                Task::Reduce(reduction) => {
                    let attempt = match self.prepare(&reduction) {
                        Some(a) => a,
                        None => {
                            continue;
                        },
                    };
                    let verdict = match check.interesting(&attempt.rendered) {
                        Ok(v) => v,
                        Err(e) => {
                            return Err(e);
                        },
                    };
                    self.resolve(&reduction, &attempt, verdict);
                    proof {
                        assert(self.history().subrange(0, h.len() as int) =~= h);
                        assert(self.history().subrange(0, old(self).history().len() as int) =~= h.subrange(
                            0,
                            old(self).history().len() as int,
                        ));
                    }
                },
            }
        }
    }

    /// The edits committed last, ending the pass.
    pub fn finish(self) -> (r: Edits)
        requires
            self.well_formed(),
        ensures
            r@ == self.current(),
            r@.disjoint(),
            forall|i: usize| #[trigger] r@.has_edit(i) ==> i < self.nodes().len(),
    {
        self.edits.extract()
    }
}

/// The committed edits of a pass form a chain: the edits of each version
/// hold every edit of the versions before it, and the current edits are those
/// of the current version.
pub proof fn lemma_edits_chain(r: &Reducer, v: int, w: int)
    requires
        r.well_formed(),
        0 <= v <= w <= r.spec_version(),
    ensures
        r.history()[v].below(r.history()[w]),
        r.history()[r.spec_version() as int] == r.current(),
        r.history()[0] == EditsView::empty(),
{
    assert(r.history@[v].below(r.history@[w]));
}

/// If the check judges the original program interesting, and judged every
/// text it was reported to find interesting the same way, then it judges the
/// program under the current edits interesting.
pub proof fn lemma_output_interesting(r: &Reducer, judge: spec_fn(Seq<u8>) -> bool)
    requires
        r.well_formed(),
        judge(r.text()),
        forall|b: Seq<u8>| #[trigger] r.approved().contains(b) ==> judge(b),
    ensures
        judge(rendered(r.nodes(), r.text(), r.current())),
{
    if r.spec_version() == 0 {
        assert(r.history@.last() == r.history@[0]);
        lemma_render_unedited(&r.orig);
    } else {
        assert(r.approved().contains(rendered(r.nodes(), r.text(), r.current())));
    }
}

/// The program under the current edits is no longer than the original.
pub proof fn lemma_output_no_longer(r: &Reducer)
    requires
        r.well_formed(),
    ensures
        rendered(r.nodes(), r.text(), r.current()).len() <= r.text().len(),
{
    lemma_render_no_longer(&r.orig, r.current());
}

/// A queued replacement is strictly shorter than the node it replaces.
pub proof fn lemma_queued_replacement_shorter(r: &Reducer, t: PrioritizedTask)
    requires
        r.well_formed(),
        r.tasks().contains(t),
    ensures
        t.task@ matches TaskView::Replace(n, alt) ==> n < r.nodes().len() && alt.len()
            < r.nodes()[n as int].size(),
{
}

/// A pass whose edits are empty leaves the program unchanged, so the next
/// pass starts from the same text as this one did.
pub proof fn lemma_empty_pass_unchanged(r: &Reducer)
    requires
        r.well_formed(),
        r.current().omit.is_empty(),
        r.current().replace.dom().is_empty(),
    ensures
        rendered(r.nodes(), r.text(), r.current()) == r.text(),
{
    assert(r.current().omit =~= Set::<usize>::empty());
    assert(r.current().replace =~= Map::<usize, Seq<u8>>::empty());
    assert(r.current() == EditsView::empty());
    lemma_render_unedited(&r.orig);
}

/// While the check has found no candidate interesting, the edits are empty:
/// a pass whose every verdict was negative ends with no edits.
pub proof fn lemma_no_approval_no_edits(r: &Reducer)
    requires
        r.well_formed(),
        r.approved() == Set::<Seq<u8>>::empty(),
    ensures
        r.current() == EditsView::empty(),
{
    if r.spec_version() > 0 {
        assert(r.approved().contains(rendered(r.nodes(), r.text(), r.current())));
    }
    assert(r.history@.last() == r.history@[0]);
}

/// A valid task costs at least one unit of potential. So each dispatch (a
/// task taken off the queue, then explored or resolved) lowers the potential,
/// and a pass that starts from [`explore_cost`] of the root ends after at
/// most that many dispatches.
pub proof fn lemma_task_cost_positive(
    schema: Seq<NodeSchemaView>,
    repl: Seq<(Seq<char>, Seq<Seq<u8>>)>,
    nodes: Seq<NodeView>,
    t: TaskView,
)
    requires
        task_ok(nodes, t),
    ensures
        task_cost(schema, repl, nodes, t) >= 1,
{
}

fn bytes_eq(a: &Vec<u8>, b: &Vec<u8>) -> (r: bool)
    ensures
        r == (a@ == b@),
{
    if a.len() != b.len() {
        return false;
    }
    let mut i: usize = 0;
    while i < a.len()
        invariant
            a@.len() == b@.len(),
            i <= a@.len(),
            forall|j: int| 0 <= j < i ==> a@[j] == b@[j],
        decreases a@.len() - i,
    {
        if a[i] != b[i] {
            return false;
        }
        i = i + 1;
    }
    assert(a@ =~= b@);
    true
}

} // verus!
