//! What holds of every tower, proved from the model.

use crate::digest::Digest;
use crate::layout;
use crate::layout::{level_count, pushed, standing};
use crate::model::{climbed, path_root, placed, well_placed, NodeView, PathStep, TowerView};
use crate::node::TowerNode;
use crate::tower::LazyTower;
use vstd::prelude::*;

verus! {

/// The tower of width `width` after the items of `items` have been appended
/// one by one.
pub open spec fn after_appends(width: nat, items: Seq<Seq<u8>>) -> TowerView
    decreases items.len(),
{
    if items.len() == 0 {
        TowerView::empty(width)
    } else {
        after_appends(width, items.drop_last()).push(items.last())
    }
}

/// Appending items one by one gives the tower of exactly these items: it
/// holds as many items as were appended, and it has a root unless nothing
/// was appended.
pub proof fn lemma_appends<D: Digest>(width: nat, items: Seq<Seq<u8>>)
    ensures
        after_appends(width, items) == (TowerView { width, items }),
        after_appends(width, items).len() == items.len(),
        after_appends(width, items).root::<D>() is None <==> items.len() == 0,
    decreases items.len(),
{
    if items.len() > 0 {
        lemma_appends::<D>(width, items.drop_last());
        assert(items.drop_last().push(items.last()) =~= items);
    } else {
        assert(items =~= Seq::<Seq<u8>>::empty());
    }
}

/// Idempotent read of the root: whatever two calls of `root_digest` on one
/// tower return, they return the same.
pub proof fn lemma_root_digest_repeats<D: Digest>(
    tower: LazyTower<D>,
    first: Option<Vec<u8>>,
    second: Option<Vec<u8>>,
)
    requires
        tower.wf(),
        call_ensures(LazyTower::<D>::root_digest, (&tower,), first),
        call_ensures(LazyTower::<D>::root_digest, (&tower,), second),
    ensures
        first.deep_view() == second.deep_view(),
{
}

/// Idempotent read of a level: whatever two calls of `level` on one tower
/// and one index return, they return the same.
pub proof fn lemma_level_repeats<D: Digest>(
    tower: LazyTower<D>,
    index: usize,
    first: Option<&Vec<TowerNode>>,
    second: Option<&Vec<TowerNode>>,
)
    requires
        tower.wf(),
        call_ensures(LazyTower::<D>::level, (&tower, index), first),
        call_ensures(LazyTower::<D>::level, (&tower, index), second),
    ensures
        first.deep_view() == second.deep_view(),
{
}

/// No level ever holds a full group: after every append each level stands
/// below the width.
pub proof fn lemma_levels_below_width<D: Digest>(tower: TowerView, level: nat)
    requires
        tower.width > 1,
    ensures
        tower.level::<D>(level).len() < tower.width,
{
    layout::lemma_split(pushed(tower.len(), tower.width, level), tower.width);
}

/// The top level of a tower that holds an item: it has received fewer nodes
/// than the width, at least one, and all of them stand.
pub proof fn lemma_top_level(tower: TowerView)
    requires
        tower.width > 1,
        tower.len() > 0,
    ensures
        tower.height() >= 1,
        tower.first_standing((tower.height() - 1) as nat) == 0,
        1 <= tower.received((tower.height() - 1) as nat) < tower.width,
        standing(tower.len(), tower.width, (tower.height() - 1) as nat) == tower.received(
            (tower.height() - 1) as nat,
        ),
{
    let count = tower.len();
    let width = tower.width;
    let height = level_count(count, width);
    let top = (height - 1) as nat;
    layout::lemma_level_count_is_height(count, width);
    layout::lemma_zero_quotient(pushed(count, width, top), width);
    layout::lemma_small(pushed(count, width, top), width);
}

/// Putting a member back where it was taken out gives the group again.
pub proof fn lemma_placed_back(group: Seq<Seq<u8>>, position: nat)
    requires
        position < group.len(),
    ensures
        placed(group.remove(position as int), position, group[position as int]) == group,
{
    assert(placed(group.remove(position as int), position, group[position as int]) =~= group);
}

/// Every step on the way up from a block that its level has received gives
/// the value a place in its group, and holds fewer siblings than the width.
proof fn lemma_steps_have_places<D: Digest>(tower: TowerView, level: nat, block: nat, total: nat)
    requires
        tower.width > 1,
        block < total,
    ensures
        well_placed(tower.steps_from::<D>(level, block, total)),
        forall|k: int|
            0 <= k < tower.steps_from::<D>(level, block, total).len() ==> (
            #[trigger] tower.steps_from::<D>(level, block, total)[k]).siblings().len()
                < tower.width,
    decreases total,
{
    let width = tower.width;
    let position = block % width;
    let first = (block - position) as nat;
    let steps = tower.steps_from::<D>(level, block, total);
    layout::lemma_split(block, width);
    if first + width <= total {
        let rest = tower.steps_from::<D>(level + 1, block / width, total / width);
        layout::lemma_quotient_smaller(total, width);
        assert((block / width + 1) * width == first + width) by (nonlinear_arith)
            requires
                first == (block / width) * width,
        ;
        layout::lemma_group_sent(total, width, block / width);
        lemma_steps_have_places::<D>(tower, level + 1, block / width, total / width);
        assert(steps.len() == rest.len() + 1);
        assert forall|k: int| 0 <= k < steps.len() implies (#[trigger] steps[k]).has_place()
            && steps[k].siblings().len() < width by {
            if k > 0 {
                assert(steps[k] == rest[k - 1]);
            }
        }
    }
}

/// The path of every item is well placed: each of its steps gives the value
/// a place in its group, and holds fewer siblings than the width.
pub proof fn lemma_path_well_placed<D: Digest>(tower: TowerView, index: nat)
    requires
        tower.width > 1,
        index < tower.len(),
    ensures
        well_placed(tower.path::<D>(index)),
        forall|k: int|
            0 <= k < tower.path::<D>(index).len() ==> (#[trigger] tower.path::<D>(
                index,
            )[k]).siblings().len() < tower.width,
{
    lemma_steps_have_places::<D>(tower, 0, index, tower.len());
}

/// A block at or beyond what a level has received is, on every level above,
/// again at or beyond what that level has received.
proof fn lemma_beyond_stays(block: nat, count: nat, width: nat, level: nat, above: nat)
    requires
        width > 0,
        level <= above,
        pushed(block, width, level) >= pushed(count, width, level),
    ensures
        pushed(block, width, above) >= pushed(count, width, above),
    decreases above - level,
{
    if level < above {
        lemma_beyond_stays(block, count, width, level, (above - 1) as nat);
        vstd::arithmetic::div_mod::lemma_div_is_ordered(
            pushed(count, width, (above - 1) as nat) as int,
            pushed(block, width, (above - 1) as nat) as int,
            width as int,
        );
    }
}

/// What the nodes of the top level come to: the bytes of the one node that
/// stands there, or the digest of the group of those that do.
pub open spec fn summit<D: Digest>(tower: TowerView) -> Seq<u8> {
    let top = (tower.height() - 1) as nat;
    let count = standing(tower.len(), tower.width, top);
    if count == 1 {
        tower.block_bytes::<D>(top, tower.first_standing(top))
    } else {
        D::group_digest(tower.run::<D>(top, tower.first_standing(top), count))
    }
}

/// From the bytes of a block under the top level, the steps of its path
/// climb to what the top level comes to.
proof fn lemma_climb<D: Digest>(tower: TowerView, index: nat, level: nat)
    requires
        tower.width > 1,
        index < tower.len(),
        tower.in_root(index),
        level < tower.height(),
        pushed(index, tower.width, level) < pushed(tower.len(), tower.width, level),
    ensures
        climbed::<D>(
            tower.block_bytes::<D>(level, pushed(index, tower.width, level)),
            tower.steps_from::<D>(
                level,
                pushed(index, tower.width, level),
                pushed(tower.len(), tower.width, level),
            ),
        ) == summit::<D>(tower),
    decreases tower.height() - level,
{
    let width = tower.width;
    let count = tower.len();
    let height = tower.height();
    let top = (height - 1) as nat;
    let block = pushed(index, width, level);
    let total = pushed(count, width, level);
    let position = block % width;
    let first = (block - position) as nat;
    let group = block / width;
    let steps = tower.steps_from::<D>(level, block, total);
    let start = tower.block_bytes::<D>(level, block);
    layout::lemma_split(block, width);
    layout::lemma_split(total, width);
    layout::lemma_level_count_is_height(count, width);
    lemma_top_level(tower);
    assert(first == group * width);
    assert(group * width + width == (group + 1) * width) by (nonlinear_arith);
    if first + width <= total {
        let full = tower.run::<D>(level, first, width);
        let rest = tower.steps_from::<D>(level + 1, group, total / width);
        let siblings = full.remove(position as int);
        let step = if level == 0 {
            PathStep::RawSiblings { position, siblings }
        } else {
            PathStep::Siblings { position, siblings }
        };
        assert(steps == seq![step] + rest);
        layout::lemma_group_sent(total, width, group);
        if level + 1 >= height {
            layout::lemma_nothing_above(count, width, height, level + 1);
        }
        assert(steps[0] == step);
        assert(steps.drop_first() =~= rest);
        lemma_placed_back(full, position);
        assert(full[position as int] == start);
        tower.lemma_fold_bytes::<D>(level, group);
        assert(D::group_digest(placed(step.siblings(), step.position(), start))
            == tower.block_bytes::<D>(level + 1, group));
        assert(pushed(index, width, level + 1) == group);
        assert(pushed(count, width, level + 1) == total / width);
        lemma_climb::<D>(tower, index, level + 1);
    } else {
        if level < top {
            assert(group >= total / width) by {
                if group < total / width {
                    layout::lemma_group_within(total, width, group);
                }
            }
            assert(pushed(index, width, level + 1) == group);
            assert(pushed(count, width, level + 1) == total / width);
            lemma_beyond_stays(index, count, width, level + 1, top);
            assert(false);
        }
        assert(level == top);
        layout::lemma_small(block, width);
        assert(first == 0);
        assert(total == standing(count, width, top));
        if total - first > 1 {
            let full = tower.run::<D>(level, first, (total - first) as nat);
            let siblings = full.remove(position as int);
            let step = PathStep::RawSiblings { position, siblings };
            assert(steps == seq![step]);
            assert(steps[0] == step);
            assert(steps.drop_first() =~= Seq::<PathStep>::empty());
            lemma_placed_back(full, position);
            assert(full[position as int] == start);
            assert(climbed::<D>(D::group_digest(full), steps.drop_first()) == D::group_digest(full));
        } else {
            assert(steps == Seq::<PathStep>::empty());
            assert(total == 1);
            assert(block == 0);
        }
    }
}

/// Round trip: the path of an item that lies under the top level is well
/// placed and leads from the item to the root of the tower.
pub proof fn lemma_round_trip<D: Digest>(tower: TowerView, index: nat)
    requires
        tower.width > 1,
        index < tower.len(),
        tower.in_root(index),
    ensures
        well_placed(tower.path::<D>(index)),
        tower.root::<D>() == Some(path_root::<D>(tower.items[index as int], tower.path::<D>(index))),
{
    lemma_path_well_placed::<D>(tower, index);
    let width = tower.width;
    let count = tower.len();
    let top = (tower.height() - 1) as nat;
    let steps = tower.path::<D>(index);
    lemma_top_level(tower);
    layout::lemma_split(index, width);
    layout::lemma_split(count, width);
    lemma_climb::<D>(tower, index, 0);
    let nodes = tower.level::<D>(top);
    if top == 0 {
        layout::lemma_small(index, width);
    } else {
        assert(nodes.len() == 1 ==> nodes[0] == NodeView::Digest(
            tower.block_bytes::<D>(top, tower.first_standing(top)),
        ));
        let group = index / width;
        if !(group * width + width <= count) {
            assert(group >= count / width) by {
                if group < count / width {
                    layout::lemma_group_within(count, width, group);
                }
            }
            assert(pushed(index, width, 1) == pushed(index, width, 0) / width);
            assert(pushed(count, width, 1) == pushed(count, width, 0) / width);
            lemma_beyond_stays(index, count, width, 1, top);
        }
    }
}

/// Whether the digest `D` tells groups apart: two groups with one digest are
/// one group, member for member and in the same order.
pub open spec fn tells_groups_apart<D: Digest>() -> bool {
    forall|first: Seq<Seq<u8>>, second: Seq<Seq<u8>>|
        #[trigger] D::group_digest(first) == #[trigger] D::group_digest(second) ==> first
            == second
}

/// Two towers that differ in an item under the top level differ in every
/// block above that item.
proof fn lemma_blocks_differ<D: Digest>(
    first: TowerView,
    second: TowerView,
    index: nat,
    level: nat,
)
    requires
        tells_groups_apart::<D>(),
        first.width > 1,
        second.width == first.width,
        second.len() == first.len(),
        first.in_root(index),
        first.items[index as int] != second.items[index as int],
        level < first.height(),
    ensures
        first.block_bytes::<D>(level, pushed(index, first.width, level))
            != second.block_bytes::<D>(level, pushed(index, first.width, level)),
    decreases level,
{
    if level > 0 {
        let width = first.width;
        let below = (level - 1) as nat;
        let block = pushed(index, width, below);
        let group = block / width;
        lemma_blocks_differ::<D>(first, second, index, below);
        layout::lemma_split(block, width);
        let ours = first.folded::<D>(level, group);
        let theirs = second.folded::<D>(level, group);
        assert(ours[(block % width) as int] == first.block_bytes::<D>(below, block));
        assert(theirs[(block % width) as int] == second.block_bytes::<D>(below, block));
    }
}

/// Order sensitivity: under a digest that tells groups apart, what the items
/// are and where they stand is part of the root. Two towers of one width and
/// one length that differ in an item under the top level have different
/// roots; so has a tower whose items are those of another in another order.
pub proof fn lemma_order_matters<D: Digest>(first: TowerView, second: TowerView, index: nat)
    requires
        tells_groups_apart::<D>(),
        first.width > 1,
        second.width == first.width,
        second.len() == first.len(),
        first.len() >= 2,
        first.in_root(index),
        first.items[index as int] != second.items[index as int],
    ensures
        first.root::<D>() != second.root::<D>(),
{
    let width = first.width;
    let count = first.len();
    let top = (first.height() - 1) as nat;
    let block = pushed(index, width, top);
    lemma_top_level(first);
    lemma_top_level(second);
    lemma_blocks_differ::<D>(first, second, index, top);
    let standing = standing(count, width, top);
    let ours = first.run::<D>(top, 0, standing);
    let theirs = second.run::<D>(top, 0, standing);
    assert(ours[block as int] == first.block_bytes::<D>(top, block));
    assert(theirs[block as int] == second.block_bytes::<D>(top, block));
    if standing == 1 {
        assert(top > 0);
        assert(first.level::<D>(top)[0] == NodeView::Digest(first.block_bytes::<D>(top, 0)));
        assert(second.level::<D>(top)[0] == NodeView::Digest(second.block_bytes::<D>(top, 0)));
    }
}

/// Whether every level below `level` stands empty after `count` appends.
pub open spec fn all_folded_below(count: nat, width: nat, level: nat) -> bool
    decreases level,
{
    level == 0 || (all_folded_below(count, width, (level - 1) as nat) && standing(
        count,
        width,
        (level - 1) as nat,
    ) == 0)
}

/// The block of the newest item on a level is the last block that the level
/// has received if the append has folded every level below, and is yet to
/// come if it has not.
proof fn lemma_newest_block(count: nat, width: nat, level: nat)
    requires
        width > 1,
        count >= 1,
    ensures
        all_folded_below(count, width, level) ==> pushed((count - 1) as nat, width, level) + 1
            == pushed(count, width, level),
        !all_folded_below(count, width, level) ==> pushed((count - 1) as nat, width, level)
            == pushed(count, width, level),
    decreases level,
{
    if level > 0 {
        let below = (level - 1) as nat;
        lemma_newest_block(count, width, below);
        layout::lemma_one_more(pushed((count - 1) as nat, width, below), width);
        layout::lemma_split(pushed((count - 1) as nat, width, below), width);
    }
}

/// Round trip right after an append: the item just appended lies under the
/// top level, where `lemma_round_trip` holds of it, exactly when its append
/// has folded every level below the top.
pub proof fn lemma_newest_item(tower: TowerView)
    requires
        tower.width > 1,
        tower.len() >= 1,
    ensures
        tower.in_root((tower.len() - 1) as nat) <==> all_folded_below(
            tower.len(),
            tower.width,
            (tower.height() - 1) as nat,
        ),
{
    lemma_newest_block(tower.len(), tower.width, (tower.height() - 1) as nat);
}

/// Before the first fold every item lies under the top level, which is
/// level 0.
pub proof fn lemma_in_root_before_first_fold(tower: TowerView, index: nat)
    requires
        tower.width > 1,
        index < tower.len() < tower.width,
    ensures
        tower.in_root(index),
{
}

/// Staleness: a proof made when the tower held the items of `then` leads to
/// the root that the tower had then, whatever has been appended since. The
/// item and the path are all that the check reads, and more appends leave
/// the item as it was.
pub proof fn lemma_stale_proof_holds<D: Digest>(then: TowerView, now: TowerView, index: nat)
    requires
        then.width > 1,
        now.width == then.width,
        then.items.is_prefix_of(now.items),
        index < then.len(),
        then.in_root(index),
    ensures
        now.items[index as int] == then.items[index as int],
        well_placed(then.path::<D>(index)),
        then.root::<D>() == Some(
            path_root::<D>(now.items[index as int], then.path::<D>(index)),
        ),
{
    lemma_round_trip::<D>(then, index);
}

} // verus!
