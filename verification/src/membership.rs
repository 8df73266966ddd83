//! Membership proofs: a path from an item to a root, and its check, which
//! needs nothing of the tower.

use crate::bytes::{copy_group, copy_of, same_bytes};
use crate::digest::Digest;
use crate::model::{climbed, path_root, placed, well_placed, PathStep};
use std::marker::PhantomData;
use vstd::prelude::*;

verus! {

/// A path element in a proof.
#[derive(Debug, PartialEq, Eq)]
pub enum PathElement {
    /// Digests of the other nodes of the group, with the position of the
    /// node being proved.
    Siblings {
        /// Position of the node being proved (0-indexed).
        position: usize,
        /// Digests of the sibling nodes, without the node itself.
        siblings: Vec<Vec<u8>>,
    },
    /// Raw bytes of the other nodes of the group, with the position of the
    /// node being proved.
    RawSiblings {
        /// Position of the node being proved (0-indexed).
        position: usize,
        /// Raw bytes of the sibling nodes, without the node itself.
        siblings: Vec<Vec<u8>>,
    },
}

impl View for PathElement {
    type V = PathStep;

    open spec fn view(&self) -> PathStep {
        match self {
            PathElement::Siblings { position, siblings } => PathStep::Siblings {
                position: *position as nat,
                siblings: siblings.deep_view(),
            },
            PathElement::RawSiblings { position, siblings } => PathStep::RawSiblings {
                position: *position as nat,
                siblings: siblings.deep_view(),
            },
        }
    }
}

impl Clone for PathElement {
    fn clone(&self) -> (out: Self)
        ensures
            out@ == self@,
    {
        match self {
            PathElement::Siblings { position, siblings } => PathElement::Siblings {
                position: *position,
                siblings: copy_group(siblings),
            },
            PathElement::RawSiblings { position, siblings } => PathElement::RawSiblings {
                position: *position,
                siblings: copy_group(siblings),
            },
        }
    }
}

impl DeepView for PathElement {
    type V = PathStep;

    open spec fn deep_view(&self) -> PathStep {
        self@
    }
}

/// A proof path from an item to the root, bottom to top.
#[derive(Debug, PartialEq, Eq)]
pub struct ProofPath<D: Digest> {
    /// The path elements from bottom to top.
    pub elements: Vec<PathElement>,
    /// The digest that the path is for.
    pub digest: PhantomData<D>,
}

impl<D: Digest> Clone for ProofPath<D> {
    fn clone(&self) -> (out: Self)
        ensures
            out@ == self@,
    {
        let mut elements: Vec<PathElement> = Vec::new();
        let mut k: usize = 0;
        while k < self.elements.len()
            invariant
                k <= self.elements.len(),
                elements.len() == k,
                forall|j: int| 0 <= j < k ==> elements[j]@ == self.elements[j]@,
            decreases self.elements.len() - k,
        {
            elements.push(self.elements[k].clone());
            k = k + 1;
        }
        let out = ProofPath { elements, digest: PhantomData };
        assert(out@ =~= self@);
        out
    }
}

impl<D: Digest> View for ProofPath<D> {
    type V = Seq<PathStep>;

    open spec fn view(&self) -> Seq<PathStep> {
        self.elements.deep_view()
    }
}

/// A complete proof: the item, its path, and the root that the tower had when
/// the proof was made.
#[derive(Debug)]
pub struct MembershipProof<D: Digest> {
    /// The item being proved.
    pub item: Vec<u8>,
    /// The proof path.
    pub path: ProofPath<D>,
    /// The root digest.
    pub root: Vec<u8>,
}

impl<D: Digest> Clone for MembershipProof<D> {
    fn clone(&self) -> (out: Self)
        ensures
            out.item@ == self.item@,
            out.path@ == self.path@,
            out.root@ == self.root@,
    {
        MembershipProof {
            item: copy_of(self.item.as_slice()),
            path: self.path.clone(),
            root: copy_of(self.root.as_slice()),
        }
    }
}

/// The group with `value` at `position` among `siblings`.
fn place(siblings: &Vec<Vec<u8>>, position: usize, value: &[u8]) -> (out: Vec<Vec<u8>>)
    requires
        position <= siblings.len(),
    ensures
        out.deep_view() == placed(siblings.deep_view(), position as nat, value@),
{
    let mut out: Vec<Vec<u8>> = Vec::new();
    let mut k: usize = 0;
    while k < position
        invariant
            k <= position <= siblings.len(),
            out.len() == k,
            forall|j: int| 0 <= j < k ==> out[j]@ == siblings[j]@,
        decreases position - k,
    {
        out.push(copy_of(siblings[k].as_slice()));
        k = k + 1;
    }
    out.push(copy_of(value));
    while k < siblings.len()
        invariant
            position <= k <= siblings.len(),
            out.len() == k + 1,
            forall|j: int| 0 <= j < position ==> out[j]@ == siblings[j]@,
            out[position as int]@ == value@,
            forall|j: int| position <= j < k ==> out[j + 1]@ == siblings[j]@,
        decreases siblings.len() - k,
    {
        out.push(copy_of(siblings[k].as_slice()));
        k = k + 1;
    }
    proof {
        let target = placed(siblings.deep_view(), position as nat, value@);
        assert(target.len() == out.len());
        assert forall|j: int| 0 <= j < out.len() implies out.deep_view()[j] == target[j] by {
            if j > position {
                assert(out[(j - 1) + 1]@ == siblings[j - 1]@);
            }
        }
        assert(out.deep_view() =~= target);
    }
    out
}

impl<D: Digest> ProofPath<D> {
    /// Create a new empty proof path.
    pub fn new() -> (path: Self)
        ensures
            path@ == Seq::<PathStep>::empty(),
    {
        let path = ProofPath { elements: Vec::new(), digest: PhantomData };
        assert(path@ =~= Seq::<PathStep>::empty());
        path
    }

    /// Add a step with digest siblings to the top of the path.
    pub fn add_siblings(&mut self, position: usize, siblings: Vec<Vec<u8>>)
        ensures
            final(self)@ == old(self)@.push(
                PathStep::Siblings { position: position as nat, siblings: siblings.deep_view() },
            ),
    {
        self.elements.push(PathElement::Siblings { position, siblings });
        assert(self@ =~= old(self)@.push(
            PathStep::Siblings { position: position as nat, siblings: siblings.deep_view() },
        ));
    }

    /// Add a step with raw siblings to the top of the path.
    pub fn add_raw_siblings(&mut self, position: usize, siblings: Vec<Vec<u8>>)
        ensures
            final(self)@ == old(self)@.push(
                PathStep::RawSiblings { position: position as nat, siblings: siblings.deep_view() },
            ),
    {
        self.elements.push(PathElement::RawSiblings { position, siblings });
        assert(self@ =~= old(self)@.push(
            PathStep::RawSiblings { position: position as nat, siblings: siblings.deep_view() },
        ));
    }

    /// Verify the path for an item: recompute the root from the item and the
    /// steps alone, and compare it with the expected root. A step whose
    /// position lies beyond its siblings gives the value no place in its
    /// group: such a path verifies against no root.
    pub fn verify(&self, item: &[u8], expected_root: &[u8]) -> (ok: bool)
        ensures
            ok == (well_placed(self@) && path_root::<D>(item@, self@) == expected_root@),
    {
        let count = self.elements.len();
        if count == 0 {
            let digest = D::digest_item(item);
            return same_bytes(digest.as_slice(), expected_root);
        }
        let mut current: Vec<u8> = match &self.elements[0] {
            PathElement::RawSiblings { .. } => copy_of(item),
            PathElement::Siblings { .. } => D::digest_item(item),
        };
        assert(self@[0] == self.elements[0]@);
        assert(self@.skip(0) =~= self@);
        let mut k: usize = 0;
        while k < count
            invariant
                k <= count == self.elements.len(),
                forall|j: int| 0 <= j < k ==> (#[trigger] self@[j]).has_place(),
                path_root::<D>(item@, self@) == climbed::<D>(current@, self@.skip(k as int)),
            decreases count - k,
        {
            assert(self@[k as int] == self.elements[k as int]@);
            let (position, siblings) = match &self.elements[k] {
                PathElement::RawSiblings { position, siblings } => (*position, siblings),
                PathElement::Siblings { position, siblings } => (*position, siblings),
            };
            if position > siblings.len() {
                assert(!self@[k as int].has_place());
                return false;
            }
            let group = place(siblings, position, current.as_slice());
            proof {
                let rest = self@.skip(k as int);
                assert(rest[0] == self.elements[k as int]@);
                assert(rest.drop_first() =~= self@.skip(k + 1));
            }
            current = D::digest_items(group.as_slice());
            k = k + 1;
        }
        same_bytes(current.as_slice(), expected_root)
    }
}

impl<D: Digest> MembershipProof<D> {
    /// Whether the proof holds: every step of its path gives a place in its
    /// group, and the path leads from its item to its root.
    pub open spec fn valid(&self) -> bool {
        well_placed(self.path@) && path_root::<D>(self.item@, self.path@) == self.root@
    }

    /// Verify the proof against the root that it carries.
    pub fn verify(&self) -> (ok: bool)
        ensures
            ok == self.valid(),
    {
        self.path.verify(self.item.as_slice(), self.root.as_slice())
    }
}

} // verus!
