use vstd::prelude::*;

use crate::edits::copy_bytes;
use crate::id::NodeId;
use crate::node_types::{
    list_types_of, required_in, string_eq, string_set, subtypes_of, NodeSchemaView, NodeTypes,
};
use crate::task::{Reduction, Task, TaskView};
use crate::tree::{node_wf, NodeView, Original};

verus! {

/// Canonical small texts for node kinds: a node of a listed kind may be
/// replaced by one of its alternatives.
#[derive(Clone, Debug)]
pub struct Replacements {
    pub entries: Vec<(String, Vec<Vec<u8>>)>,
}

impl View for Replacements {
    type V = Seq<(Seq<char>, Seq<Seq<u8>>)>;

    open spec fn view(&self) -> Seq<(Seq<char>, Seq<Seq<u8>>)> {
        self.entries@.map_values(
            |e: (String, Vec<Vec<u8>>)| (e.0@, e.1@.map_values(|b: Vec<u8>| b@)),
        )
    }
}

/// The alternatives of the first entry for `kind`, or none.
pub open spec fn alternatives(repl: Seq<(Seq<char>, Seq<Seq<u8>>)>, kind: Seq<char>) -> Seq<Seq<u8>>
    decreases repl.len(),
{
    if repl.len() == 0 {
        Seq::empty()
    } else if repl[0].0 == kind {
        repl[0].1
    } else {
        alternatives(repl.drop_first(), kind)
    }
}

impl Replacements {
    pub fn new() -> (r: Replacements)
        ensures
            r@ == Seq::<(Seq<char>, Seq<Seq<u8>>)>::empty(),
    {
        let r = Replacements { entries: Vec::new() };
        assert(r@ =~= Seq::<(Seq<char>, Seq<Seq<u8>>)>::empty());
        r
    }

    /// The alternatives for `kind`.
    pub fn lookup(&self, kind: &String) -> (r: Option<&Vec<Vec<u8>>>)
        ensures
            match r {
                Some(alts) => alts@.map_values(|b: Vec<u8>| b@) == alternatives(self@, kind@),
                None => alternatives(self@, kind@) == Seq::<Seq<u8>>::empty(),
            },
    {
        let ghost repl = self@;
        let mut i: usize = 0;
        assert(repl.subrange(0, repl.len() as int) =~= repl);
        while i < self.entries.len()
            invariant
                repl == self@,
                i <= repl.len(),
                alternatives(repl, kind@) == alternatives(repl.subrange(i as int, repl.len() as int), kind@),
            decreases repl.len() - i,
        {
            let ghost rest = repl.subrange(i as int, repl.len() as int);
            assert(rest[0] == repl[i as int]);
            assert(rest.drop_first() =~= repl.subrange(i + 1, repl.len() as int));
            if string_eq(&self.entries[i].0, kind) {
                return Some(&self.entries[i].1);
            }
            i = i + 1;
        }
        None
    }
}

/// The tasks of a plan, as values.
pub open spec fn plan_view(plan: Seq<(Task, usize)>) -> Seq<(TaskView, int)> {
    plan.map_values(|e: (Task, usize)| (e.0@, e.1 as int))
}

/// The `Explore` task for node `c`, if it has at least `min` bytes.
pub open spec fn explore_entry(nodes: Seq<NodeView>, min: int) -> spec_fn(usize) -> Option<(TaskView, int)> {
    |c: usize|
        if nodes[c as int].size() >= min {
            Some((TaskView::Explore(c), nodes[c as int].size()))
        } else {
            None
        }
}

/// `Explore` tasks for the children of `n` of at least `min` bytes.
pub open spec fn child_explores(nodes: Seq<NodeView>, n: int, min: int) -> Seq<(TaskView, int)> {
    nodes[n].children.filter_map(explore_entry(nodes, min))
}

/// `Replace` tasks for the alternatives strictly shorter than node `n`, each
/// with the number of bytes it saves as priority.
pub open spec fn shorter_replacements(nodes: Seq<NodeView>, n: int, alts: Seq<Seq<u8>>) -> Seq<
    (TaskView, int),
> {
    alts.filter_map(replace_entry(nodes, n))
}

/// The `Replace` task of node `n` by `alt`, if `alt` is shorter than `n`.
pub open spec fn replace_entry(nodes: Seq<NodeView>, n: int) -> spec_fn(Seq<u8>) -> Option<(TaskView, int)> {
    |alt: Seq<u8>|
        if alt.len() < nodes[n].size() {
            Some((TaskView::Replace(n as usize, alt), nodes[n].size() - alt.len()))
        } else {
            None
        }
}

/// The children of `n` whose kind is in `kinds`, in document order.
pub open spec fn batch_of(nodes: Seq<NodeView>, n: int, kinds: Set<Seq<char>>) -> Seq<usize> {
    nodes[n].children.filter_map(batch_entry(nodes, kinds))
}

/// Node `c`, if its kind is in `kinds`.
pub open spec fn batch_entry(nodes: Seq<NodeView>, kinds: Set<Seq<char>>) -> spec_fn(usize) -> Option<usize> {
    |c: usize|
        if kinds.contains(nodes[c as int].kind) {
            Some(c)
        } else {
            None
        }
}

/// The number of bytes covered by the nodes `ids`.
pub open spec fn total_size(nodes: Seq<NodeView>, ids: Seq<usize>) -> int
    decreases ids.len(),
{
    if ids.len() == 0 {
        0
    } else {
        total_size(nodes, ids.drop_last()) + nodes[ids.last() as int].size()
    }
}

/// For each list kind of node `n`, one `DeleteAll` task for all the children
/// of that kind (its subtypes included).
pub open spec fn list_deletions(schema: Seq<NodeSchemaView>, nodes: Seq<NodeView>, n: int) -> Seq<
    (TaskView, int),
> {
    list_types_of(schema, nodes[n].kind).map_values(list_entry(schema, nodes, n))
}

/// The `DeleteAll` task for the children of `n` of list kind `k`.
pub open spec fn list_entry(schema: Seq<NodeSchemaView>, nodes: Seq<NodeView>, n: int) -> spec_fn(
    Seq<char>,
) -> (TaskView, int) {
    |k: Seq<char>|
        {
            let b = batch_of(nodes, n, subtypes_of(schema, k));
            (TaskView::DeleteAll(b), total_size(nodes, b))
        }
}

/// Node `n` may be deleted: it is the root, or the grammar does not require
/// it under its parent.
pub open spec fn deletable(schema: Seq<NodeSchemaView>, nodes: Seq<NodeView>, n: int) -> bool {
    match nodes[n].parent {
        None => true,
        Some(p) => !required_in(schema, nodes[n].kind, nodes[p as int].kind),
    }
}

/// The tasks that exploring node `n` schedules, with their priorities: its
/// deletion if it is deletable, else the deletion of each list of its
/// children and the exploration of its children; in both cases the
/// replacements shorter than the node.
pub open spec fn explore_plan(
    schema: Seq<NodeSchemaView>,
    repl: Seq<(Seq<char>, Seq<Seq<u8>>)>,
    nodes: Seq<NodeView>,
    min: int,
    n: int,
) -> Seq<(TaskView, int)> {
    let reps = shorter_replacements(nodes, n, alternatives(repl, nodes[n].kind));
    if deletable(schema, nodes, n) {
        seq![(TaskView::Delete(n as usize), nodes[n].size())] + reps
    } else {
        list_deletions(schema, nodes, n) + reps + child_explores(nodes, n, min)
    }
}

proof fn lemma_filter_map_step<A, B>(s: Seq<A>, k: int, f: spec_fn(A) -> Option<B>)
    requires
        0 <= k < s.len(),
    ensures
        s.subrange(0, k + 1).filter_map(f) == s.subrange(0, k).filter_map(f) + match f(s[k]) {
            Some(b) => seq![b],
            None => Seq::<B>::empty(),
        },
{
    let t = s.subrange(0, k + 1);
    assert(t.drop_last() =~= s.subrange(0, k));
    assert(t.last() == s[k]);
    match f(s[k]) {
        Some(b) => {
            assert(t.filter_map(f) == s.subrange(0, k).filter_map(f) + seq![b]);
        },
        None => {
            assert(s.subrange(0, k).filter_map(f) + Seq::<B>::empty() =~= s.subrange(0, k).filter_map(f));
        },
    }
}

proof fn lemma_plan_push(plan: Seq<(Task, usize)>, t: Task, p: usize)
    ensures
        plan_view(plan.push((t, p))) == plan_view(plan).push((t@, p as int)),
{
    assert(plan_view(plan.push((t, p))) =~= plan_view(plan).push((t@, p as int)));
}

/// Append the `Explore` tasks of the children of node `n` that have at least
/// `min` bytes.
pub(crate) fn push_child_explores(orig: &Original, n: usize, min: usize, plan: &mut Vec<(Task, usize)>)
    requires
        orig.well_formed(),
        n < orig.tree@.len(),
    ensures
        plan_view(final(plan)@) == plan_view(old(plan)@) + child_explores(orig.tree@, n as int, min as int),
{
    let ghost nodes = orig.tree@;
    let node = orig.tree.node(NodeId { id: n });
    assert(node_wf(nodes, n as int));
    assert forall|j: int| 0 <= j < nodes.len() implies #[trigger] nodes[j].start <= nodes[j].end by {
        assert(node_wf(nodes, j));
    }
    let ghost f = explore_entry(nodes, min as int);
    let mut k: usize = 0;
    while k < node.children.len()
        invariant
            nodes == orig.tree@,
            n < nodes.len(),
            node@ == nodes[n as int],
            forall|j: int| 0 <= j < node.children@.len() ==> #[trigger] node.children@[j] < nodes.len(),
            forall|j: int| 0 <= j < nodes.len() ==> #[trigger] nodes[j].start <= nodes[j].end,
            k <= node.children@.len(),
            f == explore_entry(nodes, min as int),
            plan_view(plan@) == plan_view(old(plan)@) + node.children@.subrange(0, k as int).filter_map(f),
        decreases node.children@.len() - k,
    {
        let c = node.children[k];
        assert(node.children@[k as int] == c);
        let child = orig.tree.node(NodeId { id: c });
        proof {
            lemma_filter_map_step(node.children@, k as int, f);
        }
        assert(nodes[c as int].start <= nodes[c as int].end);
        let size = child.end - child.start;
        let ghost before = node.children@.subrange(0, k as int).filter_map(f);
        let ghost plan_before = plan@;
        if size >= min {
            proof {
                lemma_plan_push(plan@, Task::Explore(NodeId { id: c }), size);
            }
            plan.push((Task::Explore(NodeId { id: c }), size));
            assert(f(c) == Some((TaskView::Explore(c), size as int)));
            assert(node.children@.subrange(0, k + 1).filter_map(f) == before + seq![(TaskView::Explore(c), size as int)]);
            assert(plan_view(plan@) == plan_view(plan_before).push((TaskView::Explore(c), size as int)));
            assert(plan_view(plan@) =~= plan_view(old(plan)@) + node.children@.subrange(0, k + 1).filter_map(f));
        } else {
            assert(f(c) is None);
            assert(node.children@.subrange(0, k + 1).filter_map(f) == before);
        }
        k = k + 1;
    }
    assert(node.children@.subrange(0, k as int) =~= node.children@);
}

/// Append the `Replace` tasks for the alternatives shorter than node `n`.
fn push_replacements(orig: &Original, n: usize, alts: &Vec<Vec<u8>>, plan: &mut Vec<(Task, usize)>)
    requires
        orig.well_formed(),
        n < orig.tree@.len(),
    ensures
        plan_view(final(plan)@) == plan_view(old(plan)@) + shorter_replacements(
            orig.tree@,
            n as int,
            alts@.map_values(|b: Vec<u8>| b@),
        ),
{
    let ghost nodes = orig.tree@;
    let ghost alts_view = alts@.map_values(|b: Vec<u8>| b@);
    let node = orig.tree.node(NodeId { id: n });
    assert(node_wf(nodes, n as int));
    let size = node.end - node.start;
    let ghost f = replace_entry(nodes, n as int);
    let mut k: usize = 0;
    while k < alts.len()
        invariant
            nodes == orig.tree@,
            n < nodes.len(),
            size == nodes[n as int].size(),
            alts_view == alts@.map_values(|b: Vec<u8>| b@),
            k <= alts@.len(),
            f == replace_entry(nodes, n as int),
            plan_view(plan@) == plan_view(old(plan)@) + alts_view.subrange(0, k as int).filter_map(f),
        decreases alts@.len() - k,
    {
        proof {
            lemma_filter_map_step(alts_view, k as int, f);
        }
        assert(alts_view[k as int] == alts@[k as int]@);
        let alt = &alts[k];
        let ghost before = alts_view.subrange(0, k as int).filter_map(f);
        let ghost plan_before = plan@;
        if alt.len() < size {
            let copy = copy_bytes(alt);
            let t = Task::Reduce(Reduction::Replace(NodeId { id: n }, copy));
            let ghost entry = (TaskView::Replace(n, alt@), size - alt@.len());
            proof {
                lemma_plan_push(plan@, t, (size - alt.len()) as usize);
            }
            plan.push((t, size - alt.len()));
            assert(f(alt@) == Some(entry));
            assert(alts_view.subrange(0, k + 1).filter_map(f) == before + seq![entry]);
            assert(plan_view(plan@) == plan_view(plan_before).push(entry));
            assert(plan_view(plan@) =~= plan_view(old(plan)@) + alts_view.subrange(0, k + 1).filter_map(f));
        } else {
            assert(f(alt@) is None);
            assert(alts_view.subrange(0, k + 1).filter_map(f) == before);
        }
        k = k + 1;
    }
    assert(alts_view.subrange(0, k as int) =~= alts_view);
}

fn contains_string(v: &Vec<String>, x: &String) -> (r: bool)
    ensures
        r == string_set(v@).contains(x@),
{
    let mut i: usize = 0;
    while i < v.len()
        invariant
            i <= v@.len(),
            forall|j: int| 0 <= j < i ==> #[trigger] v@[j]@ != x@,
        decreases v@.len() - i,
    {
        if string_eq(&v[i], x) {
            assert(v@[i as int]@ == x@);
            return true;
        }
        i = i + 1;
    }
    false
}

/// The children of node `n` whose kind is in `kinds`, and the number of bytes
/// they cover.
fn batch(orig: &Original, n: usize, kinds: &Vec<String>) -> (r: (Vec<NodeId>, usize))
    requires
        orig.well_formed(),
        n < orig.tree@.len(),
    ensures
        r.0@.map_values(|id: NodeId| id.id) == batch_of(orig.tree@, n as int, string_set(kinds@)),
        r.1 == total_size(orig.tree@, batch_of(orig.tree@, n as int, string_set(kinds@))),
        r.1 <= orig.tree@[n as int].size(),
{
    let ghost nodes = orig.tree@;
    let ghost ks = string_set(kinds@);
    let node = orig.tree.node(NodeId { id: n });
    assert(node_wf(nodes, n as int));
    assert forall|j: int| 0 <= j < nodes.len() implies #[trigger] nodes[j].start <= nodes[j].end by {
        assert(node_wf(nodes, j));
    }
    let ghost f = batch_entry(nodes, ks);
    let mut ids: Vec<NodeId> = Vec::new();
    let mut total: usize = 0;
    let mut cursor: usize = node.start;
    let mut k: usize = 0;
    while k < node.children.len()
        invariant
            nodes == orig.tree@,
            n < nodes.len(),
            node@ == nodes[n as int],
            node_wf(nodes, n as int),
            forall|j: int| 0 <= j < nodes.len() ==> #[trigger] nodes[j].start <= nodes[j].end,
            ks == string_set(kinds@),
            k <= node.children@.len(),
            k == 0 ==> cursor == node.start,
            k > 0 ==> cursor == nodes[node.children@[k - 1] as int].end,
            node.start <= cursor <= node.end,
            f == batch_entry(nodes, ks),
            ids@.map_values(|id: NodeId| id.id) == node.children@.subrange(0, k as int).filter_map(f),
            total == total_size(nodes, node.children@.subrange(0, k as int).filter_map(f)),
            total <= cursor - node.start,
        decreases node.children@.len() - k,
    {
        let c = node.children[k];
        assert(node.children@[k as int] == c);
        let child = orig.tree.node(NodeId { id: c });
        proof {
            lemma_filter_map_step(node.children@, k as int, f);
            assert(nodes[c as int].start <= nodes[c as int].end);
            if k > 0 {
                assert(node.children@[k - 1] < node.children@[k as int]);
            }
        }
        assert(cursor <= child.start);
        let ghost before = node.children@.subrange(0, k as int).filter_map(f);
        let ghost ids_before = ids@;
        if contains_string(kinds, &child.kind) {
            ids.push(NodeId { id: c });
            total = total + (child.end - child.start);
            proof {
                assert(f(c) == Some(c));
                let after = node.children@.subrange(0, k + 1).filter_map(f);
                assert(after == before + seq![c]);
                assert(after.drop_last() =~= before);
                assert(after.last() == c);
                assert(ids@.map_values(|id: NodeId| id.id) =~= ids_before.map_values(|id: NodeId| id.id).push(c));
                assert(ids@.map_values(|id: NodeId| id.id) =~= after);
            }
        } else {
            assert(f(c) is None);
            assert(node.children@.subrange(0, k + 1).filter_map(f) == before);
        }
        cursor = child.end;
        k = k + 1;
    }
    assert(node.children@.subrange(0, k as int) =~= node.children@);
    (ids, total)
}

/// The tasks that exploring node `n` schedules (see [`explore_plan`]).
pub fn plan_explore(
    node_types: &NodeTypes,
    replacements: &Replacements,
    orig: &Original,
    min: usize,
    n: NodeId,
) -> (r: Vec<(Task, usize)>)
    requires
        orig.well_formed(),
        n.id < orig.tree@.len(),
    ensures
        plan_view(r@) == explore_plan(node_types@, replacements@, orig.tree@, min as int, n.id as int),
{
    let ghost nodes = orig.tree@;
    let ghost schema = node_types@;
    let node = orig.tree.node(n);
    assert(node_wf(nodes, n.id as int));
    let size = node.end - node.start;
    let del = match node.parent {
        None => true,
        Some(p) => node_types.optional(&node.kind, &orig.tree.node(NodeId { id: p }).kind),
    };
    assert(del == deletable(schema, nodes, n.id as int));
    let mut plan: Vec<(Task, usize)> = Vec::new();
    if del {
        let t = Task::Reduce(Reduction::Delete(n));
        proof {
            lemma_plan_push(plan@, t, size);
        }
        plan.push((t, size));
        assert(plan_view(plan@) =~= seq![(TaskView::Delete(n.id), nodes[n.id as int].size())]);
    } else {
        let lts = node_types.list_types(&node.kind);
        let ghost lts_view = lts@.map_values(|s: String| s@);
        let ghost g = list_entry(schema, nodes, n.id as int);
        let mut k: usize = 0;
        while k < lts.len()
            invariant
                orig.well_formed(),
                nodes == orig.tree@,
                schema == node_types@,
                n.id < nodes.len(),
                lts_view == lts@.map_values(|s: String| s@),
                g == list_entry(schema, nodes, n.id as int),
                k <= lts@.len(),
                plan_view(plan@) == lts_view.subrange(0, k as int).map_values(g),
            decreases lts@.len() - k,
        {
            let subs = node_types.subtypes(&lts[k]);
            assert(lts_view[k as int] == lts@[k as int]@);
            let (ids, total) = batch(orig, n.id, &subs);
            let t = Task::Reduce(Reduction::DeleteAll(ids));
            proof {
                lemma_plan_push(plan@, t, total);
            }
            let ghost plan_before = plan@;
            plan.push((t, total));
            assert(g(lts_view[k as int]) == (t@, total as int));
            assert(lts_view.subrange(0, k + 1).map_values(g) =~= lts_view.subrange(0, k as int).map_values(g).push(
                g(lts_view[k as int]),
            ));
            k = k + 1;
        }
        assert(lts_view.subrange(0, k as int) =~= lts_view);
    }
    let ghost before = plan_view(plan@);
    match replacements.lookup(&node.kind) {
        Some(alts) => push_replacements(orig, n.id, alts, &mut plan),
        None => {
            assert(Seq::<Seq<u8>>::empty().filter_map(replace_entry(nodes, n.id as int)) =~= Seq::empty());
            assert(plan_view(plan@) =~= before + Seq::<Seq<u8>>::empty().filter_map(replace_entry(nodes, n.id as int)));
        },
    }
    if !del {
        push_child_explores(orig, n.id, min, &mut plan);
    }
    plan
}

} // verus!
