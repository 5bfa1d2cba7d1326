use vstd::prelude::*;

use crate::id::NodeId;

verus! {

/// One node of a syntax tree: its grammar kind, the byte range `[start, end)`
/// it covers in the program text, its parent and its children in document
/// order (as positions in the tree's node table).
#[derive(Debug)]
pub struct SyntaxNode {
    pub kind: String,
    pub start: usize,
    pub end: usize,
    pub parent: Option<usize>,
    pub children: Vec<usize>,
}

/// The mathematical value of a [`SyntaxNode`].
pub struct NodeView {
    pub kind: Seq<char>,
    pub start: usize,
    pub end: usize,
    pub parent: Option<usize>,
    pub children: Seq<usize>,
}

impl View for SyntaxNode {
    type V = NodeView;

    open spec fn view(&self) -> NodeView {
        NodeView {
            kind: self.kind@,
            start: self.start,
            end: self.end,
            parent: self.parent,
            children: self.children@,
        }
    }
}

impl NodeView {
    pub open spec fn size(self) -> int {
        self.end - self.start
    }
}

/// Node `i` of `nodes` is consistent with the rest of the table: its range is
/// ordered, its parent comes before it, its children come after it, point back
/// to it, lie inside its range and follow one another without overlap.
pub open spec fn node_wf(nodes: Seq<NodeView>, i: int) -> bool {
    let n = nodes[i];
    &&& n.start <= n.end
    &&& (i == 0 <==> n.parent is None)
    &&& (n.parent matches Some(p) ==> p < i)
    &&& forall|k: int|
        #![trigger n.children[k]]
        0 <= k < n.children.len() ==> {
            let c = n.children[k] as int;
            &&& i < c < nodes.len()
            &&& nodes[c].parent == Some(i as usize)
            &&& n.start <= nodes[c].start
            &&& nodes[c].end <= n.end
        }
    &&& forall|k: int|
        #![trigger n.children[k]]
        0 <= k < n.children.len() - 1 ==> {
            &&& n.children[k] < n.children[k + 1]
            &&& nodes[n.children[k] as int].end <= nodes[n.children[k + 1] as int].start
        }
}

/// The table fits in memory and every node of it is consistent (see
/// [`node_wf`]); node 0, if any, is the root.
pub open spec fn tree_wf(nodes: Seq<NodeView>) -> bool {
    &&& nodes.len() <= usize::MAX
    &&& forall|i: int| 0 <= i < nodes.len() ==> #[trigger] node_wf(nodes, i)
}

/// Whether a node with these values may be appended to `nodes`.
pub open spec fn can_add(
    nodes: Seq<NodeView>,
    parent: Option<usize>,
    start: usize,
    end: usize,
) -> bool {
    &&& start <= end
    &&& nodes.len() < usize::MAX
    &&& match parent {
        None => nodes.len() == 0,
        Some(p) => {
            let pn = nodes[p as int];
            &&& p < nodes.len()
            &&& pn.start <= start
            &&& end <= pn.end
            &&& (pn.children.len() > 0 ==> nodes[pn.children.last() as int].end <= start)
        },
    }
}

/// Why a node with these values may not be appended to `nodes`, if it may
/// not (see [`can_add`]).
pub open spec fn add_refusal(
    nodes: Seq<NodeView>,
    parent: Option<usize>,
    start: usize,
    end: usize,
) -> Option<TreeError> {
    if nodes.len() >= usize::MAX {
        Some(TreeError::TooLarge)
    } else if start > end {
        Some(TreeError::BadRange)
    } else {
        match parent {
            None => if nodes.len() == 0 {
                None
            } else {
                Some(TreeError::BadParent)
            },
            Some(p) => if p >= nodes.len() {
                Some(TreeError::BadParent)
            } else if can_add(nodes, parent, start, end) {
                None
            } else {
                Some(TreeError::BadRange)
            },
        }
    }
}

/// `nodes` with a new last node appended under `parent`.
#[verifier::opaque]
pub open spec fn with_node(
    nodes: Seq<NodeView>,
    parent: Option<usize>,
    kind: Seq<char>,
    start: usize,
    end: usize,
) -> Seq<NodeView> {
    let n = nodes.len() as usize;
    let new_node = NodeView { kind, start, end, parent, children: Seq::empty() };
    match parent {
        None => nodes.push(new_node),
        Some(p) => {
            let pn = nodes[p as int];
            nodes.update(p as int, NodeView { children: pn.children.push(n), ..pn }).push(new_node)
        },
    }
}

proof fn lemma_with_child_shape(nodes: Seq<NodeView>, p: usize, kind: Seq<char>, start: usize, end: usize)
    requires
        p < nodes.len(),
    ensures
        ({
            let new_nodes = with_node(nodes, Some(p), kind, start, end);
            &&& new_nodes.len() == nodes.len() + 1
            &&& forall|j: int| 0 <= j < nodes.len() && j != p ==> #[trigger] new_nodes[j] == nodes[j]
            &&& new_nodes[p as int].kind == nodes[p as int].kind
            &&& new_nodes[p as int].start == nodes[p as int].start
            &&& new_nodes[p as int].end == nodes[p as int].end
            &&& new_nodes[p as int].parent == nodes[p as int].parent
            &&& new_nodes[p as int].children == nodes[p as int].children.push(nodes.len() as usize)
            &&& new_nodes[nodes.len() as int] == NodeView { kind, start, end, parent: Some(p), children: Seq::empty() }
        }),
{
    reveal(with_node);
}

#[verifier::spinoff_prover]
#[verifier::rlimit(40)]
proof fn lemma_with_child_other(nodes: Seq<NodeView>, p: usize, kind: Seq<char>, start: usize, end: usize, i: int)
    requires
        node_wf(nodes, i),
        0 <= i < nodes.len(),
        i != p,
        can_add(nodes, Some(p), start, end),
    ensures
        node_wf(with_node(nodes, Some(p), kind, start, end), i),
{
    let new_nodes = with_node(nodes, Some(p), kind, start, end);
    lemma_with_child_shape(nodes, p, kind, start, end);
    let m = nodes[i];
    assert(new_nodes[i] == m);
    assert forall|k: int| 0 <= k < m.children.len() implies {
        let c = #[trigger] m.children[k] as int;
        &&& i < c < new_nodes.len()
        &&& new_nodes[c].parent == Some(i as usize)
        &&& m.start <= new_nodes[c].start
        &&& new_nodes[c].end <= m.end
    } by {
        let c = m.children[k] as int;
        assert(c < nodes.len());
        if c != p {
            assert(new_nodes[c] == nodes[c]);
        }
    }
    assert forall|k: int| 0 <= k < m.children.len() - 1 implies {
        &&& #[trigger] m.children[k] < m.children[k + 1]
        &&& new_nodes[m.children[k] as int].end <= new_nodes[m.children[k + 1] as int].start
    } by {
        let c = m.children[k] as int;
        let d = m.children[k + 1] as int;
        assert(c < nodes.len() && d < nodes.len());
        if c != p {
            assert(new_nodes[c] == nodes[c]);
        }
        if d != p {
            assert(new_nodes[d] == nodes[d]);
        }
    }
}

proof fn lemma_with_child_parent(nodes: Seq<NodeView>, p: usize, kind: Seq<char>, start: usize, end: usize)
    requires
        node_wf(nodes, p as int),
        can_add(nodes, Some(p), start, end),
    ensures
        node_wf(with_node(nodes, Some(p), kind, start, end), p as int),
{
    let new_nodes = with_node(nodes, Some(p), kind, start, end);
    lemma_with_child_shape(nodes, p, kind, start, end);
    let pn = nodes[p as int];
    let qn = new_nodes[p as int];
    assert forall|k: int| 0 <= k < qn.children.len() - 1 implies {
        &&& #[trigger] qn.children[k] < qn.children[k + 1]
        &&& new_nodes[qn.children[k] as int].end <= new_nodes[qn.children[k + 1] as int].start
    } by {
        if k + 1 == pn.children.len() {
            assert(pn.children.last() == pn.children[k]);
        }
    }
}

proof fn lemma_view_after_add(
    old_vec: Seq<SyntaxNode>,
    new_vec: Seq<SyntaxNode>,
    p: usize,
    kind: Seq<char>,
    start: usize,
    end: usize,
)
    requires
        p < old_vec.len() < usize::MAX,
        new_vec.len() == old_vec.len() + 1,
        forall|j: int| 0 <= j < old_vec.len() && j != p ==> #[trigger] new_vec[j] == old_vec[j],
        new_vec[p as int].kind == old_vec[p as int].kind,
        new_vec[p as int].start == old_vec[p as int].start,
        new_vec[p as int].end == old_vec[p as int].end,
        new_vec[p as int].parent == old_vec[p as int].parent,
        new_vec[p as int].children@ == old_vec[p as int].children@.push(old_vec.len() as usize),
        new_vec[old_vec.len() as int]@ == (NodeView {
            kind,
            start,
            end,
            parent: Some(p),
            children: Seq::empty(),
        }),
    ensures
        new_vec.map_values(|n: SyntaxNode| n@) == with_node(
            old_vec.map_values(|n: SyntaxNode| n@),
            Some(p),
            kind,
            start,
            end,
        ),
{
    let old_nodes = old_vec.map_values(|n: SyntaxNode| n@);
    let new_nodes = with_node(old_nodes, Some(p), kind, start, end);
    let got = new_vec.map_values(|n: SyntaxNode| n@);
    lemma_with_child_shape(old_nodes, p, kind, start, end);
    assert forall|i: int| 0 <= i < new_nodes.len() implies #[trigger] got[i] == new_nodes[i] by {
        if i == p {
            assert(got[i].children =~= new_nodes[i].children);
        } else if i == old_vec.len() {
        } else {
            assert(new_vec[i] == old_vec[i]);
        }
    }
    assert(got =~= new_nodes);
}

proof fn lemma_with_child_wf(nodes: Seq<NodeView>, p: usize, kind: Seq<char>, start: usize, end: usize)
    requires
        tree_wf(nodes),
        can_add(nodes, Some(p), start, end),
    ensures
        tree_wf(with_node(nodes, Some(p), kind, start, end)),
{
    let n = nodes.len();
    let new_nodes = with_node(nodes, Some(p), kind, start, end);
    lemma_with_child_shape(nodes, p, kind, start, end);
    assert(node_wf(nodes, p as int));
    assert forall|i: int| 0 <= i < new_nodes.len() implies #[trigger] node_wf(new_nodes, i) by {
        if i < n && i != p {
            assert(node_wf(nodes, i));
            lemma_with_child_other(nodes, p, kind, start, end, i);
        } else if i == p {
            lemma_with_child_parent(nodes, p, kind, start, end);
        } else {
            assert(new_nodes[p as int].children.last() == i as usize);
        }
    }
}

/// Why a node was refused by [`SyntaxTree::add_node`].
#[derive(Clone, Copy, Debug, PartialEq, Eq, Structural)]
pub enum TreeError {
    /// A root was given when the tree already has one, or a child was given
    /// for an empty tree or under an unknown parent.
    BadParent,
    /// The range is reversed, leaves its parent's range, or overlaps the
    /// previous sibling.
    BadRange,
    /// The node table is full.
    TooLarge,
}

/// A syntax tree whose nodes are numbered in the order they were added; the
/// root is node 0 and every child is numbered after its parent.
#[derive(Debug)]
pub struct SyntaxTree {
    nodes: Vec<SyntaxNode>,
}

impl View for SyntaxTree {
    type V = Seq<NodeView>;

    closed spec fn view(&self) -> Seq<NodeView> {
        self.nodes@.map_values(|n: SyntaxNode| n@)
    }
}

impl SyntaxTree {
    pub open spec fn well_formed(&self) -> bool {
        tree_wf(self@)
    }

    pub fn new() -> (r: SyntaxTree)
        ensures
            r@ == Seq::<NodeView>::empty(),
            r.well_formed(),
    {
        let r = SyntaxTree { nodes: Vec::new() };
        assert(r@ =~= Seq::<NodeView>::empty());
        r
    }

    pub fn len(&self) -> (r: usize)
        ensures
            r == self@.len(),
    {
        self.nodes.len()
    }

    /// The node with the given identifier.
    pub fn node(&self, id: NodeId) -> (r: &SyntaxNode)
        requires
            id.id < self@.len(),
        ensures
            r@ == self@[id.id as int],
    {
        &self.nodes[id.id]
    }

    /// Append a node: the root when `parent` is `None`, else the next child
    /// of `parent` in document order.
    pub fn add_node(&mut self, parent: Option<NodeId>, kind: String, start: usize, end: usize) -> (r:
        Result<NodeId, TreeError>)
        requires
            old(self).well_formed(),
        ensures
            final(self).well_formed(),
            ({
                let p = match parent {
                    Some(q) => Some(q.id),
                    None => None,
                };
                &&& r is Ok <==> can_add(old(self)@, p, start, end)
                &&& r matches Err(e) ==> add_refusal(old(self)@, p, start, end) == Some(e)
                &&& r is Ok ==> add_refusal(old(self)@, p, start, end) is None
                &&& r matches Ok(id) ==> id.id == old(self)@.len() && final(self)@ == with_node(
                    old(self)@,
                    p,
                    kind@,
                    start,
                    end,
                )
                &&& r is Err ==> final(self)@ == old(self)@
            }),
    {
        let ghost old_nodes = self@;
        let ghost old_vec = self.nodes@;
        let n = self.nodes.len();
        if n == usize::MAX {
            return Err(TreeError::TooLarge);
        }
        if start > end {
            return Err(TreeError::BadRange);
        }
        match parent {
            None => {
                if n != 0 {
                    return Err(TreeError::BadParent);
                }
                self.nodes.push(SyntaxNode { kind, start, end, parent: None, children: Vec::new() });
                assert(self@ =~= with_node(old_nodes, None, kind@, start, end)) by {
                    reveal(with_node);
                }
                Ok(NodeId { id: 0 })
            },
            Some(pid) => {
                let p = pid.id;
                if p >= n {
                    return Err(TreeError::BadParent);
                }
                let ps = self.nodes[p].start;
                let pe = self.nodes[p].end;
                let nc = self.nodes[p].children.len();
                if start < ps || end > pe {
                    return Err(TreeError::BadRange);
                }
                if nc > 0 {
                    let last = self.nodes[p].children[nc - 1];
                    assert(node_wf(old_nodes, p as int));
                    assert(old_nodes[p as int].children[nc - 1] == last);
                    if self.nodes[last].end > start {
                        return Err(TreeError::BadRange);
                    }
                }
                self.nodes[p].children.push(n);
                self.nodes.push(SyntaxNode { kind, start, end, parent: Some(p), children: Vec::new() });
                proof {
                    assert forall|j: int| 0 <= j < n && j != p implies #[trigger] self.nodes@[j] == old_vec[j] by {}
                    lemma_view_after_add(old_vec, self.nodes@, p, kind@, start, end);
                    lemma_with_child_wf(old_nodes, p, kind@, start, end);
                }
                Ok(NodeId { id: n })
            },
        }
    }
}

/// The input of one reduction pass: a program text and its syntax tree.
#[derive(Debug)]
pub struct Original {
    pub tree: SyntaxTree,
    pub text: Vec<u8>,
}

/// Every node's range ends within a text of `len` bytes.
pub open spec fn within_text(nodes: Seq<NodeView>, len: nat) -> bool {
    forall|i: int| 0 <= i < nodes.len() ==> #[trigger] nodes[i].end <= len
}

/// Why an [`Original`] was refused.
#[derive(Clone, Copy, Debug, PartialEq, Eq, Structural)]
pub enum OriginalError {
    /// The tree has no root.
    EmptyTree,
    /// A node's range reaches past the end of the text.
    RangeOutsideText,
}

impl Original {
    /// The tree has a root, and every node's range lies within the text.
    pub open spec fn well_formed(&self) -> bool {
        &&& self.tree.well_formed()
        &&& self.tree@.len() > 0
        &&& within_text(self.tree@, self.text@.len())
    }

    pub fn new(tree: SyntaxTree, text: Vec<u8>) -> (r: Result<Original, OriginalError>)
        requires
            tree.well_formed(),
        ensures
            r is Ok <==> tree@.len() > 0 && within_text(tree@, text@.len()),
            r matches Ok(o) ==> o.tree@ == tree@ && o.text@ == text@ && o.well_formed(),
            r == Err::<Original, _>(OriginalError::EmptyTree) <==> tree@.len() == 0,
    {
        if tree.len() == 0 {
            return Err(OriginalError::EmptyTree);
        }
        let mut i: usize = 0;
        while i < tree.len()
            invariant
                i <= tree@.len(),
                forall|j: int| 0 <= j < i ==> #[trigger] tree@[j].end <= text@.len(),
            decreases tree@.len() - i,
        {
            if tree.node(NodeId { id: i }).end > text.len() {
                assert(!within_text(tree@, text@.len())) by {
                    assert(tree@[i as int].end > text@.len());
                }
                return Err(OriginalError::RangeOutsideText);
            }
            i = i + 1;
        }
        Ok(Original { tree, text })
    }
}

} // verus!
