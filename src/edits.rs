use vstd::prelude::*;

use crate::id::NodeId;

verus! {

/// The mathematical value of an [`Edits`]: the nodes to omit, and the nodes to
/// replace with the given bytes.
pub struct EditsView {
    pub omit: Set<usize>,
    pub replace: Map<usize, Seq<u8>>,
}

impl EditsView {
    pub open spec fn empty() -> EditsView {
        EditsView { omit: Set::empty(), replace: Map::empty() }
    }

    /// No node is both omitted and replaced.
    pub open spec fn disjoint(self) -> bool {
        forall|i: usize| !(#[trigger] self.omit.contains(i) && self.replace.dom().contains(i))
    }

    pub open spec fn has_edit(self, i: usize) -> bool {
        self.omit.contains(i) || self.replace.dom().contains(i)
    }

    /// `self` after omitting `i`; a replaced node stays as it is.
    pub open spec fn with_omit(self, i: usize) -> EditsView {
        if self.replace.dom().contains(i) {
            self
        } else {
            EditsView { omit: self.omit.insert(i), replace: self.replace }
        }
    }

    /// `self` after omitting each node of `ids`, in order.
    pub open spec fn with_omit_all(self, ids: Seq<usize>) -> EditsView
        decreases ids.len(),
    {
        if ids.len() == 0 {
            self
        } else {
            self.with_omit_all(ids.drop_last()).with_omit(ids.last())
        }
    }

    /// `self` after replacing `i` by `alt`; an omitted node stays omitted.
    pub open spec fn with_replace(self, i: usize, alt: Seq<u8>) -> EditsView {
        if self.omit.contains(i) {
            self
        } else {
            EditsView { omit: self.omit, replace: self.replace.insert(i, alt) }
        }
    }

    /// Every edit of `self` is an edit of `other`: the omitted nodes and the
    /// replaced nodes of `self` are among those of `other`.
    pub open spec fn below(self, other: EditsView) -> bool {
        &&& self.omit.subset_of(other.omit)
        &&& self.replace.dom().subset_of(other.replace.dom())
    }
}

/// Deletions and replacements of syntax nodes, keyed by node identifier.
///
/// A node is omitted, replaced, or neither; never both. Once recorded, an
/// edit is not removed: omitting a replaced node, or replacing an omitted one,
/// leaves the value unchanged.
#[derive(Debug)]
pub struct Edits {
    omit: Vec<bool>,
    replace: Vec<Option<Vec<u8>>>,
}

impl View for Edits {
    type V = EditsView;

    closed spec fn view(&self) -> EditsView {
        EditsView {
            omit: Set::new(|i: usize| i < self.omit@.len() && self.omit@[i as int]),
            replace: Map::new(
                |i: usize| i < self.replace@.len() && self.replace@[i as int] is Some,
                |i: usize| self.replace@[i as int]->Some_0@,
            ),
        }
    }
}

impl Edits {
    #[verifier::type_invariant]
    spec fn inv(self) -> bool {
        forall|i: int|
            0 <= i < self.omit@.len() && i < self.replace@.len() ==> !(self.omit@[i]
                && #[trigger] self.replace@[i] is Some)
    }

    proof fn lemma_disjoint(&self)
        requires
            self.inv(),
        ensures
            self@.disjoint(),
    {
        assert forall|i: usize| !(#[trigger] self@.omit.contains(i) && self@.replace.dom().contains(i)) by {
            if i < self.omit@.len() && i < self.replace@.len() {
                assert(self.replace@[i as int] is Some ==> !self.omit@[i as int]);
            }
        }
    }

    pub fn new() -> (r: Edits)
        ensures
            r@ == EditsView::empty(),
    {
        let r = Edits { omit: Vec::new(), replace: Vec::new() };
        assert(r@.omit =~= Set::empty());
        assert(r@.replace =~= Map::empty());
        r
    }

    /// No node is omitted or replaced: a pass whose edits only replace
    /// nodes has still made progress.
    pub fn is_empty(&self) -> (r: bool)
        ensures
            r == (self@.omit.is_empty() && self@.replace.dom().is_empty()),
    {
        let mut i: usize = 0;
        while i < self.omit.len()
            invariant
                i <= self.omit@.len(),
                forall|j: int| 0 <= j < i ==> !self.omit@[j],
            decreases self.omit@.len() - i,
        {
            if self.omit[i] {
                assert(self@.omit.contains(i));
                return false;
            }
            i = i + 1;
        }
        assert(self@.omit =~= Set::empty());
        let mut k: usize = 0;
        while k < self.replace.len()
            invariant
                k <= self.replace@.len(),
                forall|j: int| 0 <= j < k ==> self.replace@[j] is None,
            decreases self.replace@.len() - k,
        {
            if self.replace[k].is_some() {
                assert(self@.replace.dom().contains(k));
                return false;
            }
            k = k + 1;
        }
        assert(self@.replace.dom() =~= Set::empty());
        true
    }

    pub fn should_omit_id(&self, node_id: &NodeId) -> (r: bool)
        ensures
            r == self@.omit.contains(node_id.id),
    {
        node_id.id < self.omit.len() && self.omit[node_id.id]
    }

    pub fn should_replace_id(&self, node_id: &NodeId) -> (r: bool)
        ensures
            r == self@.replace.dom().contains(node_id.id),
    {
        node_id.id < self.replace.len() && self.replace[node_id.id].is_some()
    }

    /// The bytes that replace the node, if it is replaced.
    pub fn replacement(&self, node_id: &NodeId) -> (r: Option<&Vec<u8>>)
        ensures
            r is Some == self@.replace.dom().contains(node_id.id),
            r matches Some(b) ==> b@ == self@.replace[node_id.id],
    {
        if node_id.id < self.replace.len() {
            match &self.replace[node_id.id] {
                Some(b) => Some(b),
                None => None,
            }
        } else {
            None
        }
    }

    /// The node is omitted or replaced.
    pub fn has_edit(&self, node_id: &NodeId) -> (r: bool)
        ensures
            r == self@.has_edit(node_id.id),
    {
        self.should_omit_id(node_id) || self.should_replace_id(node_id)
    }

    pub fn omit_id(self, node_id: NodeId) -> (r: Edits)
        requires
            node_id.id < usize::MAX,
        ensures
            r@ == self@.with_omit(node_id.id),
            r@.disjoint(),
    {
        proof {
            use_type_invariant(&self);
        }
        if self.should_replace_id(&node_id) {
            proof {
                self.lemma_disjoint();
            }
            return self;
        }
        let Edits { mut omit, replace } = self;
        let ghost old_omit = omit@;
        let i = node_id.id;
        while omit.len() <= i
            invariant
                i < usize::MAX,
                omit@.len() >= old_omit.len(),
                forall|j: int| 0 <= j < old_omit.len() ==> omit@[j] == old_omit[j],
                forall|j: int| old_omit.len() <= j < omit@.len() ==> !omit@[j],
            decreases i + 1 - omit@.len(),
        {
            omit.push(false);
        }
        omit.set(i, true);
        let r = Edits { omit, replace };
        proof {
            assert(r@.omit =~= self@.omit.insert(i));
            assert(r@.replace =~= self@.replace);
            r.lemma_disjoint();
        }
        r
    }

    pub fn omit_ids(self, node_ids: &[NodeId]) -> (r: Edits)
        requires
            forall|k: int| 0 <= k < node_ids@.len() ==> #[trigger] node_ids@[k].id < usize::MAX,
        ensures
            r@ == self@.with_omit_all(node_ids@.map_values(|n: NodeId| n.id)),
            r@.disjoint(),
    {
        proof {
            use_type_invariant(&self);
            self.lemma_disjoint();
        }
        let mut r = self;
        let mut k: usize = 0;
        while k < node_ids.len()
            invariant
                k <= node_ids@.len(),
                forall|j: int| 0 <= j < node_ids@.len() ==> #[trigger] node_ids@[j].id < usize::MAX,
                r@ == self@.with_omit_all(node_ids@.subrange(0, k as int).map_values(|n: NodeId| n.id)),
                r@.disjoint(),
            decreases node_ids@.len() - k,
        {
            let ghost before = node_ids@.subrange(0, k as int).map_values(|n: NodeId| n.id);
            r = r.omit_id(node_ids[k]);
            proof {
                let after = node_ids@.subrange(0, k + 1).map_values(|n: NodeId| n.id);
                assert(after.drop_last() =~= before);
                assert(after.last() == node_ids@[k as int].id);
            }
            k = k + 1;
        }
        assert(node_ids@.subrange(0, node_ids@.len() as int) =~= node_ids@);
        r
    }

    pub fn replace_id(self, node_id: NodeId, alt: Vec<u8>) -> (r: Edits)
        requires
            node_id.id < usize::MAX,
        ensures
            r@ == self@.with_replace(node_id.id, alt@),
            r@.disjoint(),
    {
        proof {
            use_type_invariant(&self);
        }
        if self.should_omit_id(&node_id) {
            proof {
                self.lemma_disjoint();
            }
            return self;
        }
        let Edits { omit, mut replace } = self;
        let ghost old_replace = replace@;
        let i = node_id.id;
        while replace.len() <= i
            invariant
                i < usize::MAX,
                replace@.len() >= old_replace.len(),
                forall|j: int| 0 <= j < old_replace.len() ==> replace@[j] == old_replace[j],
                forall|j: int| old_replace.len() <= j < replace@.len() ==> replace@[j] is None,
            decreases i + 1 - replace@.len(),
        {
            replace.push(None);
        }
        let ghost alt_view = alt@;
        replace.set(i, Some(alt));
        assert forall|j: int|
            0 <= j < omit@.len() && j < replace@.len() implies !(omit@[j]
                && #[trigger] replace@[j] is Some) by {
            if j != i && j < old_replace.len() {
                assert(replace@[j] == old_replace[j]);
            }
        }
        let r = Edits { omit, replace };
        proof {
            assert(r@.omit =~= self@.omit);
            assert(r@.replace =~= self@.replace.insert(i, alt_view));
            r.lemma_disjoint();
        }
        r
    }
}

/// A copy of `b`.
pub(crate) fn copy_bytes(b: &Vec<u8>) -> (r: Vec<u8>)
    ensures
        r@ == b@,
{
    let mut r: Vec<u8> = Vec::with_capacity(b.len());
    let mut i: usize = 0;
    while i < b.len()
        invariant
            i <= b@.len(),
            r@ == b@.subrange(0, i as int),
        decreases b@.len() - i,
    {
        r.push(b[i]);
        i = i + 1;
    }
    assert(r@ =~= b@);
    r
}

impl Clone for Edits {
    fn clone(&self) -> (r: Edits)
        ensures
            r@ == self@,
    {
        proof {
            use_type_invariant(self);
        }
        let mut omit: Vec<bool> = Vec::with_capacity(self.omit.len());
        let mut i: usize = 0;
        while i < self.omit.len()
            invariant
                i <= self.omit@.len(),
                omit@ == self.omit@.subrange(0, i as int),
            decreases self.omit@.len() - i,
        {
            omit.push(self.omit[i]);
            i = i + 1;
        }
        let mut replace: Vec<Option<Vec<u8>>> = Vec::with_capacity(self.replace.len());
        let mut k: usize = 0;
        while k < self.replace.len()
            invariant
                k <= self.replace@.len(),
                replace@.len() == k,
                forall|j: int| 0 <= j < k ==> (#[trigger] replace@[j] is Some) == (self.replace@[j] is Some),
                forall|j: int| 0 <= j < k && replace@[j] is Some ==> (#[trigger] replace@[j])->Some_0@ == self.replace@[j]->Some_0@,
            decreases self.replace@.len() - k,
        {
            match &self.replace[k] {
                Some(b) => replace.push(Some(copy_bytes(b))),
                None => replace.push(None),
            }
            k = k + 1;
        }
        assert(omit@ =~= self.omit@);
        let r = Edits { omit, replace };
        assert(r@.omit =~= self@.omit);
        assert(r@.replace =~= self@.replace);
        r
    }
}

/// A set of nodes to omit when rendering.
#[derive(Debug)]
pub struct Alter {
    omit: Edits,
}

impl View for Alter {
    type V = Set<usize>;

    closed spec fn view(&self) -> Set<usize> {
        self.omit@.omit
    }
}

impl Alter {
    #[verifier::type_invariant]
    spec fn inv(self) -> bool {
        self.omit@.replace == Map::<usize, Seq<u8>>::empty()
    }

    pub fn new() -> (r: Alter)
        ensures
            r@ == Set::<usize>::empty(),
    {
        let omit = Edits::new();
        assert(omit@.replace == Map::<usize, Seq<u8>>::empty());
        Alter { omit }
    }

    pub fn omit_id(self, node_id: NodeId) -> (r: Alter)
        requires
            node_id.id < usize::MAX,
        ensures
            r@ == self@.insert(node_id.id),
    {
        proof {
            use_type_invariant(&self);
        }
        let omit = self.omit.omit_id(node_id);
        Alter { omit }
    }

    pub fn should_omit_id(&self, node_id: &NodeId) -> (r: bool)
        ensures
            r == self@.contains(node_id.id),
    {
        self.omit.should_omit_id(node_id)
    }

    /// The omissions as edits.
    pub fn edits(&self) -> (r: &Edits)
        ensures
            r@ == (EditsView { omit: self@, replace: Map::empty() }),
    {
        proof {
            use_type_invariant(self);
        }
        &self.omit
    }
}

} // verus!
