//! What a tower is: every observable part of it as a function of its width
//! and of the items appended so far.
//!
//! The nodes that a level receives are numbered from 0 in the order in which
//! they arrive; node number `block` of a level is called its block `block`.
//! Block `b` of level 0 is item `b`. Block `b` of a higher level is the fold
//! of the `width` blocks `b * width ..` of the level below.

use crate::digest::Digest;
use crate::layout::{level_count, pushed, standing};
use vstd::prelude::*;

verus! {

/// A node of a level: a raw item, or the digest of a full group of the level
/// below.
pub enum NodeView {
    Item(Seq<u8>),
    Digest(Seq<u8>),
}

impl NodeView {
    /// The bytes that stand for the node when its group is digested.
    pub open spec fn bytes(self) -> Seq<u8> {
        match self {
            NodeView::Item(item) => item,
            NodeView::Digest(digest) => digest,
        }
    }
}

/// Where a node comes from: an item, by its index, or the nodes that were
/// folded into it, in order.
pub enum IdView {
    Leaf(nat),
    Aggregate(Seq<IdView>),
}

/// One step of a proof path: the place of the value being proved within its
/// group, and the other members of the group in order. The siblings of
/// `RawSiblings` are taken as they are; those of `Siblings` are digests.
pub enum PathStep {
    Siblings { position: nat, siblings: Seq<Seq<u8>> },
    RawSiblings { position: nat, siblings: Seq<Seq<u8>> },
}

impl PathStep {
    pub open spec fn position(self) -> nat {
        match self {
            PathStep::Siblings { position, .. } => position,
            PathStep::RawSiblings { position, .. } => position,
        }
    }

    pub open spec fn siblings(self) -> Seq<Seq<u8>> {
        match self {
            PathStep::Siblings { siblings, .. } => siblings,
            PathStep::RawSiblings { siblings, .. } => siblings,
        }
    }

    /// Whether the position is a place of the group that the step stands
    /// for: the group has one member more than there are siblings.
    pub open spec fn has_place(self) -> bool {
        self.position() <= self.siblings().len()
    }
}

/// The identity of block `block` of level `level`.
pub open spec fn block_id(width: nat, level: nat, block: nat) -> IdView
    decreases level,
{
    if level == 0 {
        IdView::Leaf(block)
    } else {
        IdView::Aggregate(
            Seq::new(
                width,
                |k: int| block_id(width, (level - 1) as nat, (block * width + k) as nat),
            ),
        )
    }
}

/// The identities of `size` blocks of level `level` in a row, from block
/// `first` on.
pub open spec fn id_run(width: nat, level: nat, first: nat, size: nat) -> Seq<IdView> {
    Seq::new(size, |k: int| block_id(width, level, (first + k) as nat))
}

/// The level that an identity belongs to: 0 for an item, one more than its
/// first part for a fold.
pub open spec fn id_level(id: IdView) -> nat
    decreases id,
{
    match id {
        IdView::Leaf(_) => 0,
        IdView::Aggregate(parts) => if parts.len() == 0 {
            1
        } else {
            1 + id_level(parts[0])
        },
    }
}

/// The number of the block that an identity stands for on its level: the
/// index of an item, and for a fold the number of its first part divided by
/// the width.
pub open spec fn id_block(width: nat, id: IdView) -> nat
    decreases id,
{
    match id {
        IdView::Leaf(index) => index,
        IdView::Aggregate(parts) => if parts.len() == 0 {
            0
        } else {
            id_block(width, parts[0]) / width
        },
    }
}

/// An identity tells its level and its block: no two blocks share one.
pub proof fn lemma_block_id_tells(width: nat, level: nat, block: nat)
    requires
        width > 0,
    ensures
        id_level(block_id(width, level, block)) == level,
        id_block(width, block_id(width, level, block)) == block,
    decreases level,
{
    if level > 0 {
        let parts = block_id(width, level, block)->Aggregate_0;
        assert(parts[0] == block_id(width, (level - 1) as nat, (block * width + 0) as nat));
        lemma_block_id_tells(width, (level - 1) as nat, block * width);
        crate::layout::lemma_place_in_group(width, block, 0);
    }
}

/// The fold of a full group of level `level` is the block of the level above
/// that the group became.
pub proof fn lemma_fold_id(width: nat, level: nat, group: nat)
    ensures
        IdView::Aggregate(id_run(width, level, group * width, width)) == block_id(
            width,
            level + 1,
            group,
        ),
{
    assert(id_run(width, level, group * width, width) =~= block_id(
        width,
        level + 1,
        group,
    )->Aggregate_0);
}

/// The group with `value` at `position` and `siblings` around it in their
/// order. The position is a place of the group: at most the number of
/// siblings.
pub open spec fn placed(siblings: Seq<Seq<u8>>, position: nat, value: Seq<u8>) -> Seq<Seq<u8>>
    recommends
        position <= siblings.len(),
{
    siblings.insert(position as int, value)
}

/// Whether every step of `steps` gives the value a place in its group: no
/// position lies beyond the siblings. Only such steps make a path.
pub open spec fn well_placed(steps: Seq<PathStep>) -> bool {
    forall|k: int| 0 <= k < steps.len() ==> (#[trigger] steps[k]).has_place()
}

/// The value that `steps` lead to from `value`: each step digests the group
/// of the value reached so far.
pub open spec fn climbed<D: Digest>(value: Seq<u8>, steps: Seq<PathStep>) -> Seq<u8>
    decreases steps.len(),
{
    if steps.len() == 0 {
        value
    } else {
        climbed::<D>(
            D::group_digest(placed(steps[0].siblings(), steps[0].position(), value)),
            steps.drop_first(),
        )
    }
}

/// The root that an item and a well placed path stand for. Without steps it
/// is the digest of the item. Else the item enters the first group as it is
/// where the step holds raw siblings, and by its digest where it holds
/// digests.
pub open spec fn path_root<D: Digest>(item: Seq<u8>, steps: Seq<PathStep>) -> Seq<u8> {
    if steps.len() == 0 {
        D::item_digest(item)
    } else if steps[0] is RawSiblings {
        climbed::<D>(item, steps)
    } else {
        climbed::<D>(D::item_digest(item), steps)
    }
}

/// A tower as its users know it: its width and the items appended, in order.
pub struct TowerView {
    pub width: nat,
    pub items: Seq<Seq<u8>>,
}

impl TowerView {
    /// The tower of width `width` that holds nothing.
    pub open spec fn empty(width: nat) -> TowerView {
        TowerView { width, items: Seq::empty() }
    }

    /// The tower after one more item.
    pub open spec fn push(self, item: Seq<u8>) -> TowerView {
        TowerView { width: self.width, items: self.items.push(item) }
    }

    /// The number of items.
    pub open spec fn len(self) -> nat {
        self.items.len()
    }

    /// The number of levels.
    pub open spec fn height(self) -> nat {
        level_count(self.len(), self.width)
    }

    /// The number of nodes that level `level` has received.
    pub open spec fn received(self, level: nat) -> nat {
        pushed(self.len(), self.width, level)
    }

    /// The number of the first block that stands on level `level`.
    pub open spec fn first_standing(self, level: nat) -> nat {
        (self.received(level) - standing(self.len(), self.width, level)) as nat
    }

    /// The bytes of block `block` of level `level`: the item itself on level
    /// 0, above it the digest of the group that was folded into the block.
    pub open spec fn block_bytes<D: Digest>(self, level: nat, block: nat) -> Seq<u8>
        decreases level, 1nat,
    {
        if level == 0 {
            self.items[block as int]
        } else {
            D::group_digest(self.folded::<D>(level, block))
        }
    }

    /// The group that was folded into block `block` of level `level`, which
    /// is not level 0: the bytes of `width` blocks of the level below.
    pub open spec fn folded<D: Digest>(self, level: nat, block: nat) -> Seq<Seq<u8>>
        decreases level, 0nat,
    {
        if level == 0 {
            Seq::empty()
        } else {
            Seq::new(
                self.width,
                |k: int|
                    self.block_bytes::<D>((level - 1) as nat, (block * self.width + k) as nat),
            )
        }
    }

    /// The bytes of `size` blocks of level `level` in a row, from block
    /// `first` on.
    pub open spec fn run<D: Digest>(self, level: nat, first: nat, size: nat) -> Seq<Seq<u8>> {
        Seq::new(size, |k: int| self.block_bytes::<D>(level, (first + k) as nat))
    }

    /// The digest of a full group of level `level` is the bytes of the block
    /// of the level above that the group became.
    pub proof fn lemma_fold_bytes<D: Digest>(self, level: nat, group: nat)
        ensures
            D::group_digest(self.run::<D>(level, group * self.width, self.width))
                == self.block_bytes::<D>(level + 1, group),
    {
        assert(self.run::<D>(level, group * self.width, self.width) =~= self.folded::<D>(
            level + 1,
            group,
        ));
    }

    /// One more item leaves the bytes of every block that a level has
    /// received as they are.
    pub proof fn lemma_block_stays<D: Digest>(self, item: Seq<u8>, level: nat, block: nat)
        requires
            self.width > 0,
            block < pushed(self.len(), self.width, level),
        ensures
            self.push(item).block_bytes::<D>(level, block) == self.block_bytes::<D>(level, block),
            self.push(item).block_node::<D>(level, block) == self.block_node::<D>(level, block),
        decreases level,
    {
        if level > 0 {
            let below = (level - 1) as nat;
            crate::layout::lemma_group_within(pushed(self.len(), self.width, below), self.width, block);
            let longer = self.push(item).folded::<D>(level, block);
            let shorter = self.folded::<D>(level, block);
            assert forall|k: int| 0 <= k < self.width implies #[trigger] longer[k] == shorter[k] by {
                self.lemma_block_stays::<D>(item, below, (block * self.width + k) as nat);
            }
            assert(longer =~= shorter);
        }
    }

    /// Block `block` of level `level` as a node.
    pub open spec fn block_node<D: Digest>(self, level: nat, block: nat) -> NodeView {
        if level == 0 {
            NodeView::Item(self.items[block as int])
        } else {
            NodeView::Digest(self.block_bytes::<D>(level, block))
        }
    }

    /// The nodes that stand on level `level`, in the order of their arrival:
    /// the blocks that the level has received since it was last folded.
    pub open spec fn level<D: Digest>(self, level: nat) -> Seq<NodeView> {
        Seq::new(
            standing(self.len(), self.width, level),
            |k: int| self.block_node::<D>(level, (self.first_standing(level) + k) as nat),
        )
    }

    /// The root: nothing for an empty tower. Else the top level decides: one
    /// node alone gives its digest (a raw item is digested, a digest is taken
    /// as it is), several nodes give the digest of their group.
    pub open spec fn root<D: Digest>(self) -> Option<Seq<u8>> {
        if self.len() == 0 {
            None
        } else {
            let top = (self.height() - 1) as nat;
            let nodes = self.level::<D>(top);
            if nodes.len() == 1 {
                Some(
                    match nodes[0] {
                        NodeView::Item(item) => D::item_digest(item),
                        NodeView::Digest(digest) => digest,
                    },
                )
            } else {
                Some(
                    D::group_digest(
                        self.run::<D>(
                            top,
                            self.first_standing(top),
                            standing(self.len(), self.width, top),
                        ),
                    ),
                )
            }
        }
    }

    /// The steps from block `block` of level `level` upwards, where the level
    /// has received `total` nodes. A block whose group has been folded gives
    /// a step with the rest of that group (raw on level 0, digests above) and
    /// goes on with the block that the group became. A block that still
    /// stands on its level ends the path: with the other standing nodes as
    /// raw siblings if there are any, with nothing if it stands alone.
    pub open spec fn steps_from<D: Digest>(self, level: nat, block: nat, total: nat) -> Seq<
        PathStep,
    >
        decreases total,
        when self.width > 1
        via Self::steps_from_decreases::<D>
    {
        let width = self.width;
        let position = block % width;
        let first = (block - position) as nat;
        if first + width <= total {
            let siblings = self.run::<D>(level, first, width).remove(position as int);
            let step = if level == 0 {
                PathStep::RawSiblings { position, siblings }
            } else {
                PathStep::Siblings { position, siblings }
            };
            seq![step] + self.steps_from::<D>(level + 1, block / width, total / width)
        } else if total - first > 1 {
            let siblings = self.run::<D>(level, first, (total - first) as nat).remove(
                position as int,
            );
            seq![PathStep::RawSiblings { position, siblings }]
        } else {
            Seq::empty()
        }
    }

    #[via_fn]
    proof fn steps_from_decreases<D: Digest>(self, level: nat, block: nat, total: nat) {
        let first = (block - block % self.width) as nat;
        if first + self.width <= total {
            crate::layout::lemma_quotient_smaller(total, self.width);
        }
    }

    /// The proof path of item `index`.
    pub open spec fn path<D: Digest>(self, index: nat) -> Seq<PathStep> {
        self.steps_from::<D>(0, index, self.len())
    }

    /// Whether item `index` lies under one of the nodes that stand on the top
    /// level, and so has gone into the root.
    pub open spec fn in_root(self, index: nat) -> bool {
        let top = (self.height() - 1) as nat;
        pushed(index, self.width, top) < pushed(self.len(), self.width, top)
    }
}

} // verus!
