//! The nodes of a tower, the identities that trace them back to the items,
//! and the record of a fold.

use crate::bytes::copy_of;
use crate::model::{IdView, NodeView};
use vstd::prelude::*;

verus! {

/// A node in the tower: a raw item, or the digest of a full level below.
#[derive(Debug, PartialEq, Eq)]
pub enum TowerNode {
    /// A raw item.
    Item(Vec<u8>),
    /// A digest of the nodes of a lower level.
    Digest(Vec<u8>),
}

impl View for TowerNode {
    type V = NodeView;

    open spec fn view(&self) -> NodeView {
        match self {
            TowerNode::Item(item) => NodeView::Item(item@),
            TowerNode::Digest(digest) => NodeView::Digest(digest@),
        }
    }
}

impl DeepView for TowerNode {
    type V = NodeView;

    open spec fn deep_view(&self) -> NodeView {
        self@
    }
}

impl Clone for TowerNode {
    fn clone(&self) -> (out: Self)
        ensures
            out@ == self@,
    {
        match self {
            TowerNode::Item(item) => TowerNode::Item(copy_of(item.as_slice())),
            TowerNode::Digest(digest) => TowerNode::Digest(copy_of(digest.as_slice())),
        }
    }
}

impl TowerNode {
    /// The bytes that stand for the node when its level is digested.
    pub fn as_ref(&self) -> (out: &[u8])
        ensures
            out@ == self@.bytes(),
    {
        match self {
            TowerNode::Item(item) => item.as_slice(),
            TowerNode::Digest(digest) => digest.as_slice(),
        }
    }
}

/// The identity of a node: an item by its index, or the identities of the
/// nodes that were folded into it, in order.
#[derive(Debug)]
pub enum NodeId {
    /// An item, by its index.
    Item(usize),
    /// A digest, by what it was made of.
    Digest(Vec<NodeId>),
}

/// The view of an identity.
pub open spec fn id_view(id: NodeId) -> IdView
    decreases id,
{
    match id {
        NodeId::Item(index) => IdView::Leaf(index as nat),
        NodeId::Digest(parts) => IdView::Aggregate(
            Seq::new(
                parts@.len(),
                |k: int|
                    if 0 <= k < parts@.len() {
                        id_view(parts@[k])
                    } else {
                        IdView::Leaf(0)
                    },
            ),
        ),
    }
}

impl View for NodeId {
    type V = IdView;

    open spec fn view(&self) -> IdView {
        id_view(*self)
    }
}

impl DeepView for NodeId {
    type V = IdView;

    open spec fn deep_view(&self) -> IdView {
        self@
    }
}

/// The view of an identity made of `parts` holds the views of the parts.
pub proof fn lemma_digest_id_view(id: NodeId)
    requires
        id is Digest,
    ensures
        id@ == IdView::Aggregate(id->Digest_0.deep_view()),
{
    assert(id@->Aggregate_0 =~= id->Digest_0.deep_view());
}

impl NodeId {
    /// Whether two identities are the same: the same item, or the same parts
    /// in the same order.
    pub fn same_as(&self, other: &NodeId) -> (same: bool)
        ensures
            same == (self@ == other@),
        decreases self,
    {
        match self {
            NodeId::Item(index) => match other {
                NodeId::Item(other_index) => *index == *other_index,
                NodeId::Digest(_) => false,
            },
            NodeId::Digest(parts) => match other {
                NodeId::Item(_) => false,
                NodeId::Digest(other_parts) => {
                    proof {
                        lemma_digest_id_view(*self);
                        lemma_digest_id_view(*other);
                    }
                    if parts.len() != other_parts.len() {
                        assert(parts.deep_view().len() != other_parts.deep_view().len());
                        return false;
                    }
                    let mut k: usize = 0;
                    while k < parts.len()
                        invariant
                            k <= parts.len(),
                            parts.len() == other_parts.len(),
                            *self == NodeId::Digest(*parts),
                            self@ == IdView::Aggregate(parts.deep_view()),
                            other@ == IdView::Aggregate(other_parts.deep_view()),
                            forall|j: int| 0 <= j < k ==> parts[j]@ == other_parts[j]@,
                        decreases parts.len() - k,
                    {
                        assert(self->Digest_0 == *parts);
                        assert(decreases_to!(*parts => parts[k as int]));
                        if !parts[k].same_as(&other_parts[k]) {
                            assert(parts.deep_view()[k as int] != other_parts.deep_view()[k as int]);
                            return false;
                        }
                        k = k + 1;
                    }
                    assert(parts.deep_view() =~= other_parts.deep_view());
                    true
                },
            },
        }
    }

}

impl Clone for NodeId {
    fn clone(&self) -> (out: NodeId)
        ensures
            out@ == self@,
        decreases self,
    {
        match self {
            NodeId::Item(index) => NodeId::Item(*index),
            NodeId::Digest(parts) => {
                let mut copies: Vec<NodeId> = Vec::new();
                let mut k: usize = 0;
                while k < parts.len()
                    invariant
                        k <= parts.len(),
                        *self == NodeId::Digest(*parts),
                        copies.len() == k,
                        forall|j: int| 0 <= j < k ==> copies[j]@ == parts[j]@,
                    decreases parts.len() - k,
                {
                    assert(self->Digest_0 == *parts);
                    assert(decreases_to!(*parts => parts[k as int]));
                    let copy = parts[k].clone();
                    copies.push(copy);
                    k = k + 1;
                }
                let out = NodeId::Digest(copies);
                proof {
                    lemma_digest_id_view(*self);
                    lemma_digest_id_view(out);
                    assert(copies.deep_view() =~= parts.deep_view());
                }
                out
            },
        }
    }
}

/// Copies of the identities in `ids`, in order.
pub fn duplicate_all(ids: &Vec<NodeId>) -> (out: Vec<NodeId>)
    ensures
        out.deep_view() == ids.deep_view(),
{
    let mut out: Vec<NodeId> = Vec::new();
    let mut k: usize = 0;
    while k < ids.len()
        invariant
            k <= ids.len(),
            out.len() == k,
            forall|j: int| 0 <= j < k ==> out[j]@ == ids[j]@,
        decreases ids.len() - k,
    {
        out.push(ids[k].clone());
        k = k + 1;
    }
    assert(out.deep_view() =~= ids.deep_view());
    out
}

/// The first place in `ids` that holds the identity `id`, if any does.
pub fn find_id(ids: &Vec<NodeId>, id: &NodeId) -> (found: Option<usize>)
    ensures
        match found {
            Some(place) => place < ids.len() && ids.deep_view()[place as int] == id@ && forall|
                k: int,
            |
                0 <= k < place ==> #[trigger] ids.deep_view()[k] != id@,
            None => !ids.deep_view().contains(id@),
        },
{
    let mut k: usize = 0;
    while k < ids.len()
        invariant
            k <= ids.len(),
            forall|j: int| 0 <= j < k ==> #[trigger] ids.deep_view()[j] != id@,
        decreases ids.len() - k,
    {
        if ids[k].same_as(id) {
            return Some(k);
        }
        k = k + 1;
    }
    None
}

/// Whether `first` and `second` hold the same identities in the same order.
pub fn same_ids(first: &Vec<NodeId>, second: &Vec<NodeId>) -> (same: bool)
    ensures
        same == (first.deep_view() == second.deep_view()),
{
    if first.len() != second.len() {
        assert(first.deep_view().len() != second.deep_view().len());
        return false;
    }
    let mut k: usize = 0;
    while k < first.len()
        invariant
            k <= first.len(),
            first.len() == second.len(),
            forall|j: int| 0 <= j < k ==> first[j]@ == second[j]@,
        decreases first.len() - k,
    {
        if !first[k].same_as(&second[k]) {
            assert(first.deep_view()[k as int] != second.deep_view()[k as int]);
            return false;
        }
        k = k + 1;
    }
    assert(first.deep_view() =~= second.deep_view());
    true
}

/// What one fold left behind: the level that was full, the identities of the
/// nodes that it held, in order, and the digest that they were folded into.
#[derive(Debug)]
pub struct OverflowRecord {
    /// The level that overflowed.
    pub level: usize,
    /// The identities of the nodes that were digested together.
    pub node_ids: Vec<NodeId>,
    /// The digest that came of them.
    pub result_digest: Vec<u8>,
}

impl Clone for OverflowRecord {
    fn clone(&self) -> (out: Self)
        ensures
            out.level == self.level,
            out.node_ids.deep_view() == self.node_ids.deep_view(),
            out.result_digest@ == self.result_digest@,
    {
        OverflowRecord {
            level: self.level,
            node_ids: duplicate_all(&self.node_ids),
            result_digest: copy_of(self.result_digest.as_slice()),
        }
    }
}

} // verus!
