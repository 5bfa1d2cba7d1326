use vstd::prelude::*;

use crate::edits::{Edits, EditsView};
use crate::id::NodeId;
use crate::tree::{node_wf, tree_wf, within_text, NodeView, Original};

verus! {

/// The text of node `i` under the edits `e`: nothing if it is omitted, its
/// replacement if it is replaced, else its own text with each child's text
/// rendered in turn.
pub open spec fn edited_node(nodes: Seq<NodeView>, text: Seq<u8>, e: EditsView, i: int) -> Seq<u8>
    decreases nodes.len() - i, 1int, 0int,
{
    if !(0 <= i < nodes.len()) {
        Seq::empty()
    } else if e.omit.contains(i as usize) {
        Seq::empty()
    } else if e.replace.dom().contains(i as usize) {
        e.replace[i as usize]
    } else {
        edited_children(nodes, text, e, i, 0, nodes[i].start as int)
    }
}

/// The rest of node `i`'s text from byte `cursor` on, rendering its children
/// from the `k`-th on under the edits `e`.
pub open spec fn edited_children(
    nodes: Seq<NodeView>,
    text: Seq<u8>,
    e: EditsView,
    i: int,
    k: int,
    cursor: int,
) -> Seq<u8>
    decreases nodes.len() - i, 0int, nodes[i].children.len() - k,
{
    if !(0 <= i < nodes.len()) || k < 0 {
        Seq::empty()
    } else if k >= nodes[i].children.len() {
        text.subrange(cursor, nodes[i].end as int)
    } else {
        let c = nodes[i].children[k] as int;
        if c <= i || c >= nodes.len() {
            Seq::empty()
        } else {
            text.subrange(cursor, nodes[c].start as int) + edited_node(nodes, text, e, c)
                + edited_children(nodes, text, e, i, k + 1, nodes[c].end as int)
        }
    }
}

/// The whole program text under the edits `e`: the text before the root,
/// the rendered root, and the text after it.
pub open spec fn rendered(nodes: Seq<NodeView>, text: Seq<u8>, e: EditsView) -> Seq<u8> {
    text.subrange(0, nodes[0].start as int) + edited_node(nodes, text, e, 0) + text.subrange(
        nodes[0].end as int,
        text.len() as int,
    )
}

/// Every replaced node is a node of the tree, and its replacement is no
/// longer than its own text.
pub open spec fn shrinking(nodes: Seq<NodeView>, e: EditsView) -> bool {
    forall|j: usize|
        #[trigger] e.replace.dom().contains(j) ==> j < nodes.len() && e.replace[j].len()
            <= nodes[j as int].size()
}

fn render_node(orig: &Original, edits: &Edits, i: usize, out: &mut Vec<u8>)
    requires
        orig.well_formed(),
        i < orig.tree@.len(),
    ensures
        final(out)@ == old(out)@ + edited_node(orig.tree@, orig.text@, edits@, i as int),
    decreases orig.tree@.len() - i,
{
    let ghost nodes = orig.tree@;
    let ghost text = orig.text@;
    let id = NodeId { id: i };
    if edits.should_omit_id(&id) {
        assert(out@ =~= old(out)@ + edited_node(nodes, text, edits@, i as int));
        return ;
    }
    match edits.replacement(&id) {
        Some(b) => {
            let mut k: usize = 0;
            while k < b.len()
                invariant
                    k <= b@.len(),
                    out@ == old(out)@ + b@.subrange(0, k as int),
                decreases b@.len() - k,
            {
                out.push(b[k]);
                k = k + 1;
            }
            assert(b@.subrange(0, b@.len() as int) =~= b@);
            return ;
        },
        None => {},
    }
    let node = orig.tree.node(id);
    assert(node_wf(nodes, i as int));
    assert(nodes[i as int].end <= text.len());
    let mut cursor: usize = node.start;
    let mut k: usize = 0;
    while k < node.children.len()
        invariant
            orig.well_formed(),
            nodes == orig.tree@,
            text == orig.text@,
            i < nodes.len(),
            node@ == nodes[i as int],
            node_wf(nodes, i as int),
            k <= node.children@.len(),
            k == 0 ==> cursor == node.start,
            k > 0 ==> cursor == nodes[node.children@[k - 1] as int].end,
            cursor <= text.len(),
            !edits@.has_edit(i),
            out@ + edited_children(nodes, text, edits@, i as int, k as int, cursor as int) == old(out)@
                + edited_node(nodes, text, edits@, i as int),
        decreases node.children@.len() - k,
    {
        let c = node.children[k];
        assert(node.children@[k as int] == c);
        assert(i < c < nodes.len());
        let cs = orig.tree.node(NodeId { id: c }).start;
        let ce = orig.tree.node(NodeId { id: c }).end;
        assert(node_wf(nodes, c as int));
        assert(nodes[c as int].end <= text.len());
        let ghost before = out@;
        let mut j: usize = cursor;
        while j < cs
            invariant
                cursor <= j <= cs,
                cs <= text.len(),
                text == orig.text@,
                out@ == before + text.subrange(cursor as int, j as int),
            decreases cs - j,
        {
            out.push(orig.text[j]);
            proof {
                assert(text.subrange(cursor as int, j + 1) =~= text.subrange(cursor as int, j as int).push(
                    text[j as int],
                ));
            }
            j = j + 1;
        }
        render_node(orig, edits, c, out);
        proof {
            let rest = edited_children(nodes, text, edits@, i as int, k + 1, ce as int);
            assert(edited_children(nodes, text, edits@, i as int, k as int, cursor as int) == text.subrange(
                cursor as int,
                cs as int,
            ) + edited_node(nodes, text, edits@, c as int) + rest);
            assert(out@ + rest =~= before + edited_children(
                nodes,
                text,
                edits@,
                i as int,
                k as int,
                cursor as int,
            ));
        }
        cursor = ce;
        k = k + 1;
    }
    let ghost before = out@;
    let end = node.end;
    let mut j: usize = cursor;
    while j < end
        invariant
            cursor <= j <= end,
            end <= text.len(),
            text == orig.text@,
            out@ == before + text.subrange(cursor as int, j as int),
        decreases end - j,
    {
        out.push(orig.text[j]);
        proof {
            assert(text.subrange(cursor as int, j + 1) =~= text.subrange(cursor as int, j as int).push(
                text[j as int],
            ));
        }
        j = j + 1;
    }
    assert(out@ =~= old(out)@ + edited_node(nodes, text, edits@, i as int));
}

/// Append `text[from..to]` to `out`.
fn push_range(out: &mut Vec<u8>, text: &Vec<u8>, from: usize, to: usize)
    requires
        from <= to <= text@.len(),
    ensures
        final(out)@ == old(out)@ + text@.subrange(from as int, to as int),
{
    let mut j: usize = from;
    while j < to
        invariant
            from <= j <= to <= text@.len(),
            out@ == old(out)@ + text@.subrange(from as int, j as int),
        decreases to - j,
    {
        out.push(text[j]);
        proof {
            assert(text@.subrange(from as int, j + 1) =~= text@.subrange(from as int, j as int).push(
                text@[j as int],
            ));
        }
        j = j + 1;
    }
}

/// The program text with the edits applied: omitted nodes leave nothing,
/// replaced nodes leave their replacement, everything else is kept.
pub fn render(orig: &Original, edits: &Edits) -> (r: Vec<u8>)
    requires
        orig.well_formed(),
    ensures
        r@ == rendered(orig.tree@, orig.text@, edits@),
{
    let root = orig.tree.node(NodeId { id: 0 });
    assert(node_wf(orig.tree@, 0));
    assert(orig.tree@[0].end <= orig.text@.len());
    let mut out: Vec<u8> = Vec::with_capacity(orig.text.len());
    push_range(&mut out, &orig.text, 0, root.start);
    render_node(orig, edits, 0, &mut out);
    push_range(&mut out, &orig.text, root.end, orig.text.len());
    out
}

proof fn lemma_node_len(nodes: Seq<NodeView>, text: Seq<u8>, e: EditsView, i: int)
    requires
        tree_wf(nodes),
        within_text(nodes, text.len()),
        shrinking(nodes, e),
        0 <= i < nodes.len(),
    ensures
        edited_node(nodes, text, e, i).len() <= nodes[i].size(),
    decreases nodes.len() - i, nodes[i].children.len() + 1,
{
    assert(node_wf(nodes, i));
    let n = nodes[i];
    if !e.has_edit(i as usize) {
        if n.children.len() > 0 {
            assert(n.children[0] == n.children[0]);
        }
        lemma_children_len(nodes, text, e, i, 0, n.start as int);
    } else if !e.omit.contains(i as usize) {
        assert(e.replace.dom().contains(i as usize));
    }
}

proof fn lemma_children_len(nodes: Seq<NodeView>, text: Seq<u8>, e: EditsView, i: int, k: int, cursor: int)
    requires
        tree_wf(nodes),
        within_text(nodes, text.len()),
        shrinking(nodes, e),
        0 <= i < nodes.len(),
        0 <= k <= nodes[i].children.len(),
        nodes[i].start <= cursor,
        k < nodes[i].children.len() ==> cursor <= nodes[nodes[i].children[k] as int].start,
        k == nodes[i].children.len() ==> cursor <= nodes[i].end,
    ensures
        edited_children(nodes, text, e, i, k, cursor).len() <= nodes[i].end - cursor,
    decreases nodes.len() - i, nodes[i].children.len() - k,
{
    assert(node_wf(nodes, i));
    assert(nodes[i].end <= text.len());
    let n = nodes[i];
    if k < n.children.len() {
        let c = n.children[k] as int;
        assert(n.children[k] == c);
        assert(node_wf(nodes, c));
        assert(nodes[c].end <= text.len());
        lemma_node_len(nodes, text, e, c);
        if k + 1 < n.children.len() {
            assert(n.children[k] < n.children[k + 1]);
        }
        lemma_children_len(nodes, text, e, i, k + 1, nodes[c].end as int);
    }
}

/// Rendering never makes the program longer, as long as every replacement
/// is no longer than the node it replaces.
pub proof fn lemma_render_no_longer(orig: &Original, e: EditsView)
    requires
        orig.well_formed(),
        shrinking(orig.tree@, e),
    ensures
        rendered(orig.tree@, orig.text@, e).len() <= orig.text@.len(),
{
    let nodes = orig.tree@;
    let text = orig.text@;
    assert(node_wf(nodes, 0));
    assert(nodes[0].end <= text.len());
    if nodes[0].children.len() > 0 {
        assert(nodes[0].children[0] == nodes[0].children[0]);
    }
    lemma_node_len(nodes, text, e, 0);
}

proof fn lemma_node_unchanged(nodes: Seq<NodeView>, text: Seq<u8>, i: int)
    requires
        tree_wf(nodes),
        within_text(nodes, text.len()),
        0 <= i < nodes.len(),
    ensures
        edited_node(nodes, text, EditsView::empty(), i) == text.subrange(
            nodes[i].start as int,
            nodes[i].end as int,
        ),
    decreases nodes.len() - i, nodes[i].children.len() + 1,
{
    assert(node_wf(nodes, i));
    let n = nodes[i];
    if n.children.len() > 0 {
        assert(n.children[0] == n.children[0]);
    }
    lemma_children_unchanged(nodes, text, i, 0, n.start as int);
}

proof fn lemma_children_unchanged(nodes: Seq<NodeView>, text: Seq<u8>, i: int, k: int, cursor: int)
    requires
        tree_wf(nodes),
        within_text(nodes, text.len()),
        0 <= i < nodes.len(),
        0 <= k <= nodes[i].children.len(),
        nodes[i].start <= cursor,
        k < nodes[i].children.len() ==> cursor <= nodes[nodes[i].children[k] as int].start,
        k == nodes[i].children.len() ==> cursor <= nodes[i].end,
    ensures
        edited_children(nodes, text, EditsView::empty(), i, k, cursor) == text.subrange(
            cursor,
            nodes[i].end as int,
        ),
    decreases nodes.len() - i, nodes[i].children.len() - k,
{
    assert(node_wf(nodes, i));
    assert(nodes[i].end <= text.len());
    let n = nodes[i];
    if k < n.children.len() {
        let c = n.children[k] as int;
        assert(n.children[k] == c);
        assert(node_wf(nodes, c));
        assert(nodes[c].end <= text.len());
        lemma_node_unchanged(nodes, text, c);
        if k + 1 < n.children.len() {
            assert(n.children[k] < n.children[k + 1]);
        }
        lemma_children_unchanged(nodes, text, i, k + 1, nodes[c].end as int);
        assert(text.subrange(cursor, nodes[c].start as int) + text.subrange(
            nodes[c].start as int,
            nodes[c].end as int,
        ) + text.subrange(nodes[c].end as int, n.end as int) =~= text.subrange(cursor, n.end as int));
    }
}

/// Rendering without edits gives back the program text unchanged.
pub proof fn lemma_render_unedited(orig: &Original)
    requires
        orig.well_formed(),
    ensures
        rendered(orig.tree@, orig.text@, EditsView::empty()) == orig.text@,
{
    let nodes = orig.tree@;
    let text = orig.text@;
    assert(node_wf(nodes, 0));
    assert(nodes[0].end <= text.len());
    lemma_node_unchanged(nodes, text, 0);
    assert(text.subrange(0, nodes[0].start as int) + text.subrange(
        nodes[0].start as int,
        nodes[0].end as int,
    ) + text.subrange(nodes[0].end as int, text.len() as int) =~= text);
}

} // verus!
