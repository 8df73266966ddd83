//! The tower: levels of nodes, the items behind them, and the record of
//! every fold, which is what proofs are built from.

use crate::bytes::{copy_group, copy_of, without};
use crate::digest::Digest;
use crate::error::LazyTowerError;
use crate::layout;
use crate::layout::{is_height, pushed};
use crate::model::{block_id, id_block, id_run, IdView, NodeView, TowerView};
use crate::membership::{MembershipProof, ProofPath};
use crate::node::{duplicate_all, find_id, same_ids, NodeId, OverflowRecord, TowerNode};
use std::marker::PhantomData;
use vstd::prelude::*;

verus! {

/// An append-only tower of a fixed width over the digest `D`.
#[derive(Debug)]
pub struct LazyTower<D: Digest> {
    /// How many nodes a level takes before it is folded.
    width: usize,
    /// The nodes that stand on each level; `levels[0]` is the bottom.
    levels: Vec<Vec<TowerNode>>,
    /// The number of items appended.
    item_count: usize,
    /// The items appended, in order.
    items: Vec<Vec<u8>>,
    /// One record for every fold, in the order of the folds.
    overflow_records: Vec<OverflowRecord>,
    /// The identity of every node that stands on a level, level by level.
    level_nodes: Vec<Vec<NodeId>>,
    _digest: PhantomData<D>,
}

/// What each of the levels `0 ..= height` has received when `count` appends
/// are done and one more is under way that has reached level `pending`:
/// the levels below `pending` have the new node already.
pub open spec fn totals(count: nat, width: nat, pending: nat, height: nat) -> Seq<nat> {
    Seq::new(
        height + 1,
        |j: int|
            if j < pending {
                pushed(count + 1, width, j as nat)
            } else {
                pushed(count, width, j as nat)
            },
    )
}

/// The bytes of the nodes of a level, in order.
pub fn level_bytes(nodes: &Vec<TowerNode>) -> (out: Vec<Vec<u8>>)
    ensures
        out.len() == nodes.len(),
        forall|k: int| 0 <= k < nodes.len() ==> out[k]@ == (#[trigger] nodes[k])@.bytes(),
{
    let mut out: Vec<Vec<u8>> = Vec::new();
    let mut k: usize = 0;
    while k < nodes.len()
        invariant
            k <= nodes.len(),
            out.len() == k,
            forall|j: int| 0 <= j < k ==> out[j]@ == (#[trigger] nodes[j])@.bytes(),
        decreases nodes.len() - k,
    {
        out.push(copy_of(nodes[k].as_ref()));
        k = k + 1;
    }
    out
}

impl<D: Digest> View for LazyTower<D> {
    type V = TowerView;

    closed spec fn view(&self) -> TowerView {
        TowerView { width: self.width as nat, items: self.items.deep_view() }
    }
}

/// Nodes `nodes` with identities `ids` are what level `d` holds when it has
/// received `total` nodes.
pub open spec fn level_ok<D: Digest>(
    tv: TowerView,
    nodes: Seq<NodeView>,
    ids: Seq<IdView>,
    d: nat,
    total: nat,
) -> bool {
    let standing = total % tv.width;
    let first = (total - standing) as nat;
    &&& nodes == Seq::new(standing, |k: int| tv.block_node::<D>(d, (first + k) as nat))
    &&& ids == id_run(tv.width, d, first, standing)
}

/// `record` is the fold of a full group of its level, one that the level has
/// received.
pub open spec fn record_ok<D: Digest>(
    tv: TowerView,
    record: OverflowRecord,
    totals: Seq<nat>,
) -> bool {
    let level = record.level as nat;
    let group = id_block(tv.width, IdView::Aggregate(record.node_ids.deep_view()));
    &&& level + 1 < totals.len()
    &&& (group + 1) * tv.width <= totals[level as int]
    &&& record.node_ids.deep_view() == id_run(tv.width, level, group * tv.width, tv.width)
    &&& record.result_digest@ == tv.block_bytes::<D>(level + 1, group)
}

/// Record `j` is the fold of group `group` of level `level`.
pub open spec fn records_group(
    width: nat,
    records: Seq<OverflowRecord>,
    j: int,
    level: nat,
    group: nat,
) -> bool {
    &&& 0 <= j < records.len()
    &&& records[j].level == level
    &&& records[j].node_ids.deep_view() == id_run(width, level, group * width, width)
}

/// Some record is the fold of group `group` of level `level`.
pub open spec fn has_record(
    width: nat,
    records: Seq<OverflowRecord>,
    level: nat,
    group: nat,
) -> bool {
    exists|j: int| records_group(width, records, j, level, group)
}

impl<D: Digest> Clone for LazyTower<D> {
    /// A tower of its own that holds what this one holds.
    fn clone(&self) -> (out: Self)
        ensures
            out@ == self@,
            self.wf() ==> out.wf(),
    {
        let mut levels: Vec<Vec<TowerNode>> = Vec::new();
        let mut level_nodes: Vec<Vec<NodeId>> = Vec::new();
        let mut d: usize = 0;
        while d < self.levels.len()
            invariant
                d <= self.levels.len(),
                levels.len() == d,
                level_nodes.len() == if d <= self.level_nodes.len() {
                    d
                } else {
                    self.level_nodes.len()
                },
                forall|j: int|
                    0 <= j < d ==> (#[trigger] levels[j]).deep_view()
                        == self.levels[j].deep_view(),
                forall|j: int|
                    0 <= j < level_nodes.len() ==> (#[trigger] level_nodes[j]).deep_view()
                        == self.level_nodes[j].deep_view(),
            decreases self.levels.len() - d,
        {
            let nodes = &self.levels[d];
            let mut copies: Vec<TowerNode> = Vec::new();
            let mut k: usize = 0;
            while k < nodes.len()
                invariant
                    k <= nodes.len(),
                    copies.len() == k,
                    forall|j: int| 0 <= j < k ==> copies[j]@ == nodes[j]@,
                decreases nodes.len() - k,
            {
                copies.push(nodes[k].clone());
                k = k + 1;
            }
            assert(copies.deep_view() =~= nodes.deep_view());
            levels.push(copies);
            if d < self.level_nodes.len() {
                level_nodes.push(duplicate_all(&self.level_nodes[d]));
            }
            d = d + 1;
        }
        let mut overflow_records: Vec<OverflowRecord> = Vec::new();
        let mut j: usize = 0;
        while j < self.overflow_records.len()
            invariant
                j <= self.overflow_records.len(),
                overflow_records.len() == j,
                forall|i: int|
                    0 <= i < j ==> {
                        &&& (#[trigger] overflow_records[i]).level == self.overflow_records[i].level
                        &&& overflow_records[i].node_ids.deep_view()
                            == self.overflow_records[i].node_ids.deep_view()
                        &&& overflow_records[i].result_digest@
                            == self.overflow_records[i].result_digest@
                    },
            decreases self.overflow_records.len() - j,
        {
            overflow_records.push(self.overflow_records[j].clone());
            j = j + 1;
        }
        let out = LazyTower {
            width: self.width,
            levels,
            item_count: self.item_count,
            items: copy_group(&self.items),
            overflow_records,
            level_nodes,
            _digest: PhantomData,
        };
        proof {
            assert(out@ == self@);
            if self.wf() {
                let width = self.width as nat;
                let t = totals(self.items.len() as nat, width, 0, self.levels.len() as nat);
                assert(out.items.deep_view().len() == out.items.len());
                assert(self.items.deep_view().len() == self.items.len());
                assert forall|level: nat, group: nat|
                    level < out.levels.len() && (group + 1) * width
                        <= t[level as int] implies #[trigger] has_record(
                    width,
                    out.overflow_records@,
                    level,
                    group,
                ) by {
                    assert(has_record(width, self.overflow_records@, level, group));
                    let i = choose|i: int|
                        records_group(width, self.overflow_records@, i, level, group);
                    assert(out.overflow_records[i].level == self.overflow_records[i].level);
                    assert(records_group(width, out.overflow_records@, i, level, group));
                }
                assert forall|i: int| 0 <= i < out.overflow_records.len() implies record_ok::<D>(
                    out@,
                    #[trigger] out.overflow_records[i],
                    t,
                ) by {
                    assert(record_ok::<D>(self@, self.overflow_records[i], t));
                }
                assert forall|d: int| 0 <= d < out.levels.len() implies level_ok::<D>(
                    out@,
                    (#[trigger] out.levels[d]).deep_view(),
                    out.level_nodes[d].deep_view(),
                    d as nat,
                    t[d],
                ) by {
                    assert(level_ok::<D>(
                        self@,
                        self.levels[d].deep_view(),
                        self.level_nodes[d].deep_view(),
                        d as nat,
                        t[d],
                    ));
                }
            }
        }
        out
    }
}

impl<D: Digest> LazyTower<D> {
    /// The tower holds what it should where its levels have received
    /// `totals`.
    spec fn shaped(&self, totals: Seq<nat>) -> bool {
        let width = self.width as nat;
        let height = self.levels.len() as int;
        &&& width > 1
        &&& self.item_count == self.items.len()
        &&& self.level_nodes.len() == height
        &&& totals.len() == height + 1
        &&& height >= 1
        &&& totals[0] <= self.items.len()
        &&& totals[height] == 0
        &&& height == 1 || totals[height - 1] >= 1
        &&& forall|d: int|
            0 <= d < height ==> level_ok::<D>(
                self@,
                (#[trigger] self.levels[d]).deep_view(),
                self.level_nodes[d].deep_view(),
                d as nat,
                totals[d],
            )
        &&& forall|j: int|
            0 <= j < self.overflow_records.len() ==> record_ok::<D>(
                self@,
                #[trigger] self.overflow_records[j],
                totals,
            )
        &&& forall|level: nat, group: nat|
            level < height && (group + 1) * width <= totals[level as int] ==> #[trigger] has_record(
                width,
                self.overflow_records@,
                level,
                group,
            )
    }

    /// The tower is what its width and its items make it: every level holds
    /// the blocks that stand on it, and every fold so far has its record.
    pub closed spec fn wf(&self) -> bool {
        self.shaped(
            totals(self.items.len() as nat, self.width as nat, 0, self.levels.len() as nat),
        )
    }

    /// The number of levels is the one that the model gives.
    proof fn lemma_height(&self)
        requires
            self.wf(),
        ensures
            self.levels.len() == self@.height(),
            self.width > 1,
    {
        let count = self.items.len() as nat;
        let width = self.width as nat;
        let height = self.levels.len() as nat;
        let t = totals(count, width, 0, height);
        assert(t[height as int] == pushed(count, width, height));
        if height > 1 {
            assert(t[height - 1] == pushed(count, width, (height - 1) as nat));
        }
        assert(is_height(count, width, height));
        layout::lemma_level_count_is_height(count, width);
        layout::lemma_height_unique(count, width, height, self@.height());
    }

    /// Level `d` holds the nodes that the model gives it.
    proof fn lemma_level(&self, d: nat)
        requires
            self.wf(),
            d < self.levels.len(),
        ensures
            self.levels[d as int].deep_view() == self@.level::<D>(d),
            self.levels[d as int].len() == layout::standing(self@.len(), self@.width, d),
    {
        let count = self.items.len() as nat;
        let width = self.width as nat;
        let t = totals(count, width, 0, self.levels.len() as nat);
        assert(level_ok::<D>(
            self@,
            self.levels[d as int].deep_view(),
            self.level_nodes[d as int].deep_view(),
            d,
            t[d as int],
        ));
        assert(t[d as int] == pushed(count, width, d));
        assert(self.levels[d as int].deep_view() =~= self@.level::<D>(d));
    }

    /// Create a new empty tower with the given width, which must be more
    /// than 1.
    pub fn new(width: usize) -> (made: Result<Self, LazyTowerError>)
        ensures
            width > 1 ==> made is Ok && made->Ok_0.wf() && made->Ok_0@ == TowerView::empty(
                width as nat,
            ),
            width <= 1 ==> made == Err::<Self, LazyTowerError>(
                LazyTowerError::InvalidWidth { width },
            ),
    {
        if width <= 1 {
            return Err(LazyTowerError::InvalidWidth { width });
        }
        let mut levels: Vec<Vec<TowerNode>> = Vec::new();
        levels.push(Vec::new());
        let mut level_nodes: Vec<Vec<NodeId>> = Vec::new();
        level_nodes.push(Vec::new());
        let tower = LazyTower {
            width,
            levels,
            item_count: 0,
            items: Vec::new(),
            overflow_records: Vec::new(),
            level_nodes,
            _digest: PhantomData,
        };
        proof {
            let t = totals(0, width as nat, 0, 1);
            layout::lemma_small(0, width as nat);
            assert(t[0] == 0 && t[1] == 0) by {
                assert(pushed(0, width as nat, 1) == pushed(0, width as nat, 0) / (width as nat));
            }
            assert(level_ok::<D>(
                tower@,
                tower.levels[0].deep_view(),
                tower.level_nodes[0].deep_view(),
                0,
                t[0],
            )) by {
                assert(tower.levels[0].deep_view() =~= Seq::new(
                    0,
                    |k: int| tower@.block_node::<D>(0, (0 + k) as nat),
                ));
                assert(tower.level_nodes[0].deep_view() =~= id_run(width as nat, 0, 0, 0));
            }
            assert forall|level: nat, group: nat|
                level < 1 && (group + 1) * (width as nat) <= t[level as int] implies has_record(
                width as nat,
                tower.overflow_records@,
                level,
                group,
            ) by {
                assert((group + 1) * (width as nat) > 0) by (nonlinear_arith)
                    requires
                        width > 1,
                ;
            }
            assert(tower@.items =~= Seq::<Seq<u8>>::empty());
        }
        Ok(tower)
    }

    /// Get the current height of the tower (number of levels).
    pub fn height(&self) -> (height: usize)
        requires
            self.wf(),
        ensures
            height == self@.height(),
    {
        proof {
            self.lemma_height();
        }
        self.levels.len()
    }

    /// Get the total number of items in the tower.
    pub fn len(&self) -> (count: usize)
        requires
            self.wf(),
        ensures
            count == self@.len(),
    {
        self.item_count
    }

    /// Check if the tower is empty.
    pub fn is_empty(&self) -> (empty: bool)
        requires
            self.wf(),
        ensures
            empty == (self@.len() == 0),
    {
        self.item_count == 0
    }

    /// Get the width of the tower.
    pub fn width(&self) -> (width: usize)
        requires
            self.wf(),
        ensures
            width == self@.width,
            width > 1,
    {
        self.width
    }

    /// Get a reference to a specific level: the nodes that stand on it, in
    /// order, or nothing where the tower has no such level.
    pub fn level(&self, index: usize) -> (found: Option<&Vec<TowerNode>>)
        requires
            self.wf(),
        ensures
            index < self@.height() ==> found is Some && found->Some_0.deep_view()
                == self@.level::<D>(index as nat),
            index >= self@.height() ==> found is None,
    {
        proof {
            self.lemma_height();
        }
        if index < self.levels.len() {
            proof {
                self.lemma_level(index as nat);
            }
            Some(&self.levels[index])
        } else {
            None
        }
    }

    /// The top level holds a node as soon as the tower holds an item, and it
    /// holds everything that it has received.
    proof fn lemma_top(&self)
        requires
            self.wf(),
        ensures
            self@.len() > 0 ==> self.levels[self.levels.len() - 1].len() >= 1,
            self@.len() == 0 ==> forall|d: int|
                0 <= d < self.levels.len() ==> (#[trigger] self.levels[d]).len() == 0,
            self@.first_standing((self.levels.len() - 1) as nat) == 0,
    {
        let count = self.items.len() as nat;
        let width = self.width as nat;
        let height = self.levels.len() as nat;
        let top = (height - 1) as nat;
        let t = totals(count, width, 0, height);
        assert(t[height as int] == pushed(count, width, height));
        assert(t[top as int] == pushed(count, width, top));
        layout::lemma_zero_quotient(pushed(count, width, top), width);
        layout::lemma_small(pushed(count, width, top), width);
        self.lemma_level(top);
        if count > 0 && height == 1 {
            assert(pushed(count, width, 0) == count);
        }
        if count == 0 {
            assert forall|d: int| 0 <= d < self.levels.len() implies (#[trigger] self.levels[d]).len()
                == 0 by {
                layout::lemma_nothing_above(0, width, 0, d as nat);
                layout::lemma_small(0, width);
                self.lemma_level(d as nat);
            }
        }
    }

    /// Compute the root digest of the tower: nothing for an empty tower, else
    /// what the highest level that holds a node gives.
    pub fn root_digest(&self) -> (root: Option<Vec<u8>>)
        requires
            self.wf(),
        ensures
            root is Some <==> self@.len() > 0,
            match root {
                Some(digest) => self@.root::<D>() == Some(digest@),
                None => self@.root::<D>() == None::<Seq<u8>>,
            },
    {
        proof {
            self.lemma_height();
            self.lemma_top();
        }
        let mut k: usize = self.levels.len();
        while k > 0
            invariant
                self.wf(),
                k <= self.levels.len(),
                self.levels.len() == self@.height(),
                k < self.levels.len() ==> self@.len() == 0,
                self@.len() > 0 ==> self.levels[self.levels.len() - 1].len() >= 1,
                self@.len() == 0 ==> forall|d: int|
                    0 <= d < self.levels.len() ==> (#[trigger] self.levels[d]).len() == 0,
                self@.first_standing((self.levels.len() - 1) as nat) == 0,
            decreases k,
        {
            k = k - 1;
            let level = &self.levels[k];
            if level.len() > 0 {
                proof {
                    self.lemma_level(k as nat);
                }
                if level.len() == 1 {
                    let digest = match &level[0] {
                        TowerNode::Item(item) => D::digest_item(item.as_slice()),
                        TowerNode::Digest(digest) => copy_of(digest.as_slice()),
                    };
                    assert(level.deep_view()[0] == level[0]@);
                    return Some(digest);
                } else {
                    let group = level_bytes(level);
                    let digest = D::digest_items(group.as_slice());
                    proof {
                        let top = k as nat;
                        let run = self@.run::<D>(
                            top,
                            self@.first_standing(top),
                            layout::standing(self@.len(), self@.width, top),
                        );
                        assert forall|j: int| 0 <= j < group.len() implies group.deep_view()[j]
                            == run[j] by {
                            assert(level.deep_view()[j] == level[j]@);
                        }
                        assert(group.deep_view() =~= run);
                    }
                    return Some(digest);
                }
            }
        }
        None
    }

    /// The number of appends that are done while one more is under way.
    spec fn done(&self) -> nat {
        (self.items.len() - 1) as nat
    }

    /// The number of the block that is arriving on level `level` while an
    /// append is under way.
    spec fn arriving(&self, level: nat) -> nat {
        pushed(self.done(), self.width as nat, level)
    }

    /// An append is under way: the item is stored, the levels below `level`
    /// have been folded, and level `level` is about to receive a node.
    spec fn mid(&self, level: nat) -> bool {
        &&& self.items.len() >= 1
        &&& level <= self.levels.len()
        &&& self.shaped(
            totals(self.done(), self.width as nat, level, self.levels.len() as nat),
        )
        &&& pushed(self.done() + 1, self.width as nat, level) == self.arriving(level) + 1
    }

    /// `after` is `before` but for its levels and its records.
    spec fn same_base(before: &Self, after: &Self) -> bool {
        &&& after.width == before.width
        &&& after.item_count == before.item_count
        &&& after.items == before.items
        &&& after.levels.len() == after.level_nodes.len()
    }

    /// `after` has the levels of `before` but for level `level`.
    spec fn same_levels_but(before: &Self, after: &Self, level: nat) -> bool {
        forall|d: int|
            0 <= d < before.levels.len() && d != level ==> d < after.levels.len()
                && #[trigger] after.levels[d] == before.levels[d] && after.level_nodes[d]
                == before.level_nodes[d]
    }

    /// A node that arrives on a level and leaves it short of full ends the
    /// append.
    proof fn lemma_settled(before: &Self, after: &Self, level: nat, node: NodeView, id: IdView)
        requires
            before.mid(level),
            node == before@.block_node::<D>(level, before.arriving(level)),
            id == block_id(before.width as nat, level, before.arriving(level)),
            Self::same_base(before, after),
            Self::same_levels_but(before, after, level),
            after.overflow_records == before.overflow_records,
            level < before.levels.len() ==> after.levels.len() == before.levels.len()
                && after.levels[level as int].deep_view() == before.levels[level as int].deep_view().push(
                node,
            ) && after.level_nodes[level as int].deep_view()
                == before.level_nodes[level as int].deep_view().push(id),
            level == before.levels.len() ==> after.levels.len() == before.levels.len() + 1
                && after.levels[level as int].deep_view() == seq![node]
                && after.level_nodes[level as int].deep_view() == seq![id],
            after.levels[level as int].len() < before.width,
        ensures
            after.wf(),
    {
        let count = before.done();
        let width = before.width as nat;
        let height = before.levels.len() as nat;
        let grown = after.levels.len() as nat;
        let old_totals = totals(count, width, level, height);
        let new_totals = totals(count + 1, width, 0, grown);
        let total = pushed(count, width, level);
        let tv = before@;
        assert(after@ == tv);
        assert(old_totals[level as int] == total);
        layout::lemma_split(total, width);
        if level < height {
            assert(level_ok::<D>(
                tv,
                before.levels[level as int].deep_view(),
                before.level_nodes[level as int].deep_view(),
                level,
                old_totals[level as int],
            ));
        } else {
            layout::lemma_small(0, width);
        }
        assert(after.levels[level as int].deep_view().len() == total % width + 1);
        layout::lemma_one_more(total, width);
        assert(pushed(count + 1, width, level + 1) == pushed(count, width, level + 1));
        assert forall|j: int| 0 <= j <= height implies #[trigger] new_totals[j] == old_totals[j] + (
        if j == level {
            1int
        } else {
            0int
        }) by {
            if j > level {
                layout::lemma_same_above(count + 1, count, width, level + 1, j as nat);
            }
        }
        if level == height {
            layout::lemma_small(1, width);
            assert(new_totals[grown as int] == pushed(count + 1, width, level + 1));
        }
        assert(new_totals[0] <= after.items.len());
        assert forall|d: int| 0 <= d < grown implies level_ok::<D>(
            after@,
            (#[trigger] after.levels[d]).deep_view(),
            after.level_nodes[d].deep_view(),
            d as nat,
            new_totals[d],
        ) by {
            if d == level {
                let standing = total % width;
                let first = (total - standing) as nat;
                assert((total + 1) % width == standing + 1);
                assert(after.levels[d].deep_view() =~= Seq::new(
                    standing + 1,
                    |k: int| tv.block_node::<D>(level, (first + k) as nat),
                ));
                assert(after.level_nodes[d].deep_view() =~= id_run(
                    width,
                    level,
                    first,
                    standing + 1,
                ));
            } else {
                assert(level_ok::<D>(
                    tv,
                    before.levels[d].deep_view(),
                    before.level_nodes[d].deep_view(),
                    d as nat,
                    old_totals[d],
                ));
            }
        }
        assert forall|j: int| 0 <= j < after.overflow_records.len() implies record_ok::<D>(
            after@,
            #[trigger] after.overflow_records[j],
            new_totals,
        ) by {
            assert(record_ok::<D>(tv, before.overflow_records[j], old_totals));
        }
        assert forall|d: nat, group: nat|
            d < grown && (group + 1) * width <= new_totals[d as int] implies #[trigger] has_record(
            width,
            after.overflow_records@,
            d,
            group,
        ) by {
            if d == level {
                layout::lemma_group_sent(total + 1, width, group);
                if level < height {
                    layout::lemma_group_within(total, width, group);
                    assert(has_record(width, before.overflow_records@, d, group));
                }
            } else {
                assert(has_record(width, before.overflow_records@, d, group));
            }
        }
    }

    /// A node that fills a level: the level is folded into the next block of
    /// the level above, a record is kept, and the append goes on there.
    proof fn lemma_folded(
        before: &Self,
        after: &Self,
        level: nat,
        node: NodeView,
        id: IdView,
        group: Seq<Seq<u8>>,
        record: OverflowRecord,
    )
        requires
            before.mid(level),
            level < before.levels.len(),
            node == before@.block_node::<D>(level, before.arriving(level)),
            id == block_id(before.width as nat, level, before.arriving(level)),
            Self::same_base(before, after),
            Self::same_levels_but(before, after, level),
            after.levels.len() == before.levels.len(),
            after.levels[level as int].deep_view() == Seq::<NodeView>::empty(),
            after.level_nodes[level as int].deep_view() == Seq::<IdView>::empty(),
            before.levels[level as int].len() + 1 == before.width,
            group.len() == before.width,
            forall|k: int|
                0 <= k < group.len() ==> #[trigger] group[k]
                    == before.levels[level as int].deep_view().push(node)[k].bytes(),
            after.overflow_records@ == before.overflow_records@.push(record),
            record.level == level,
            record.node_ids.deep_view() == before.level_nodes[level as int].deep_view().push(id),
            record.result_digest@ == D::group_digest(group),
        ensures
            after.mid(level + 1),
            after@ == before@,
            record.result_digest@ == after@.block_bytes::<D>(level + 1, after.arriving(level + 1)),
            IdView::Aggregate(record.node_ids.deep_view()) == block_id(
                after.width as nat,
                level + 1,
                after.arriving(level + 1),
            ),
    {
        let count = before.done();
        let width = before.width as nat;
        let height = before.levels.len() as nat;
        let old_totals = totals(count, width, level, height);
        let new_totals = totals(count, width, level + 1, height);
        let total = pushed(count, width, level);
        let tv = before@;
        let above = total / width;
        let standing = total % width;
        assert(after@ == tv);
        assert(old_totals[level as int] == total);
        layout::lemma_split(total, width);
        assert(level_ok::<D>(
            tv,
            before.levels[level as int].deep_view(),
            before.level_nodes[level as int].deep_view(),
            level,
            old_totals[level as int],
        ));
        assert(before.levels[level as int].deep_view().len() == standing);
        layout::lemma_one_more(total, width);
        assert(pushed(count, width, level + 1) == above);
        assert(pushed(count + 1, width, level + 1) == above + 1);
        assert(total - standing == above * width);
        assert((above + 1) * width == total + 1) by (nonlinear_arith)
            requires
                total == above * width + standing,
                standing + 1 == width,
        ;
        assert(record.node_ids.deep_view() =~= id_run(width, level, above * width, width));
        crate::model::lemma_fold_id(width, level, above);
        crate::model::lemma_block_id_tells(width, level + 1, above);
        assert(group =~= tv.run::<D>(level, above * width, width));
        tv.lemma_fold_bytes::<D>(level, above);
        assert forall|j: int| 0 <= j <= height implies #[trigger] new_totals[j] == old_totals[j] + (
        if j == level {
            1int
        } else {
            0int
        }) by {}
        assert forall|d: int| 0 <= d < height implies level_ok::<D>(
            after@,
            (#[trigger] after.levels[d]).deep_view(),
            after.level_nodes[d].deep_view(),
            d as nat,
            new_totals[d],
        ) by {
            if d == level {
                assert(after.levels[d].deep_view() =~= Seq::new(
                    0,
                    |k: int| tv.block_node::<D>(level, (total + 1 + k) as nat),
                ));
                assert(after.level_nodes[d].deep_view() =~= id_run(
                    width,
                    level,
                    total + 1,
                    0,
                ));
            } else {
                assert(level_ok::<D>(
                    tv,
                    before.levels[d].deep_view(),
                    before.level_nodes[d].deep_view(),
                    d as nat,
                    old_totals[d],
                ));
            }
        }
        let last = before.overflow_records.len() as int;
        assert(after.overflow_records@[last] == record);
        assert forall|j: int| 0 <= j < after.overflow_records.len() implies record_ok::<D>(
            after@,
            #[trigger] after.overflow_records[j],
            new_totals,
        ) by {
            if j < last {
                assert(after.overflow_records@[j] == before.overflow_records@[j]);
                assert(record_ok::<D>(tv, before.overflow_records[j], old_totals));
            }
        }
        assert forall|d: nat, part: nat|
            d < height && (part + 1) * width <= new_totals[d as int] implies #[trigger] has_record(
            width,
            after.overflow_records@,
            d,
            part,
        ) by {
            if d == level {
                layout::lemma_group_sent(total + 1, width, part);
            }
            if d == level && part == above {
                assert(records_group(width, after.overflow_records@, last, d, part));
            } else {
                if d == level {
                    layout::lemma_group_within(total, width, part);
                }
                assert(has_record(width, before.overflow_records@, d, part));
                let j = choose|j: int| records_group(width, before.overflow_records@, j, d, part);
                assert(after.overflow_records@[j] == before.overflow_records@[j]);
                assert(records_group(width, after.overflow_records@, j, d, part));
            }
        }
    }

    /// Storing one more item starts an append: nothing that the tower holds
    /// changes its meaning, and level 0 is about to receive the item.
    proof fn lemma_started(before: &Self, after: &Self, item: Seq<u8>)
        requires
            before.wf(),
            after.width == before.width,
            after.item_count == before.item_count + 1,
            after.items.deep_view() == before.items.deep_view().push(item),
            after.levels == before.levels,
            after.level_nodes == before.level_nodes,
            after.overflow_records == before.overflow_records,
        ensures
            after.mid(0),
            after@ == before@.push(item),
            after@.block_node::<D>(0, after.arriving(0)) == NodeView::Item(item),
    {
        let count = before.items.len() as nat;
        let width = before.width as nat;
        let height = before.levels.len() as nat;
        let t = totals(count, width, 0, height);
        let tv = before@;
        assert(after.items.deep_view().len() == after.items.len());
        assert(before.items.deep_view().len() == before.items.len());
        assert(after.items.len() == count + 1);
        assert(after.done() == count);
        assert(after@ == tv.push(item));
        assert forall|d: int| 0 <= d < height implies level_ok::<D>(
            after@,
            (#[trigger] after.levels[d]).deep_view(),
            after.level_nodes[d].deep_view(),
            d as nat,
            t[d],
        ) by {
            assert(level_ok::<D>(
                tv,
                before.levels[d].deep_view(),
                before.level_nodes[d].deep_view(),
                d as nat,
                t[d],
            ));
            let total = pushed(count, width, d as nat);
            let standing = total % width;
            let first = (total - standing) as nat;
            layout::lemma_split(total, width);
            let longer = Seq::new(
                standing,
                |k: int| after@.block_node::<D>(d as nat, (first + k) as nat),
            );
            let shorter = before.levels[d].deep_view();
            assert forall|k: int| 0 <= k < standing implies #[trigger] longer[k] == shorter[k] by {
                tv.lemma_block_stays::<D>(item, d as nat, (first + k) as nat);
            }
            assert(after.levels[d].deep_view() =~= longer);
        }
        assert forall|j: int| 0 <= j < after.overflow_records.len() implies record_ok::<D>(
            after@,
            #[trigger] after.overflow_records[j],
            t,
        ) by {
            let record = before.overflow_records[j];
            assert(record_ok::<D>(tv, record, t));
            let level = record.level as nat;
            let group = id_block(width, IdView::Aggregate(record.node_ids.deep_view()));
            layout::lemma_group_sent(pushed(count, width, level), width, group);
            tv.lemma_block_stays::<D>(item, level + 1, group);
        }
    }

    /// Recursive helper to append a node to a specific level: the node is
    /// added, and if that fills the level, the level is folded into a digest
    /// that goes to the next level in the same way.
    fn append_to_level(&mut self, level: usize, node: TowerNode, node_id: NodeId)
        requires
            old(self).mid(level as nat),
            node@ == old(self)@.block_node::<D>(level as nat, old(self).arriving(level as nat)),
            node_id@ == block_id(
                old(self).width as nat,
                level as nat,
                old(self).arriving(level as nat),
            ),
        ensures
            final(self).wf(),
            final(self)@ == old(self)@,
        decreases old(self).levels.len() - level,
    {
        let ghost before = *self;
        let ghost arrived = node@;
        let ghost arrived_id = node_id@;
        if self.levels.len() <= level {
            self.levels.push(Vec::new());
            self.level_nodes.push(Vec::new());
        }
        self.levels[level].push(node);
        self.level_nodes[level].push(node_id);
        proof {
            if (level as nat) < before.levels.len() {
                assert(self.levels[level as int].deep_view()
                    =~= before.levels[level as int].deep_view().push(arrived));
                assert(self.level_nodes[level as int].deep_view()
                    =~= before.level_nodes[level as int].deep_view().push(arrived_id));
            } else {
                assert(self.levels[level as int].deep_view() =~= seq![arrived]);
                assert(self.level_nodes[level as int].deep_view() =~= seq![arrived_id]);
            }
        }
        if self.levels[level].len() >= self.width {
            let overflow_node_ids = duplicate_all(&self.level_nodes[level]);
            let group = level_bytes(&self.levels[level]);
            let digest = D::digest_items(group.as_slice());
            let digest_node_id = NodeId::Digest(duplicate_all(&overflow_node_ids));
            let record = OverflowRecord {
                level,
                node_ids: overflow_node_ids,
                result_digest: copy_of(digest.as_slice()),
            };
            let ghost kept = record;
            let ghost full = self.levels[level as int].deep_view();
            self.overflow_records.push(record);
            self.levels[level].clear();
            self.level_nodes[level].clear();
            proof {
                assert(self.levels[level as int].deep_view() =~= Seq::<NodeView>::empty());
                assert(self.level_nodes[level as int].deep_view() =~= Seq::<IdView>::empty());
                assert forall|k: int| 0 <= k < group.len() implies #[trigger] group.deep_view()[k]
                    == full[k].bytes() by {}
                crate::node::lemma_digest_id_view(digest_node_id);
                Self::lemma_folded(
                    &before,
                    &*self,
                    level as nat,
                    arrived,
                    arrived_id,
                    group.deep_view(),
                    kept,
                );
            }
            self.append_to_level(level + 1, TowerNode::Digest(digest), digest_node_id);
        } else {
            proof {
                Self::lemma_settled(&before, &*self, level as nat, arrived, arrived_id);
            }
        }
    }

    /// Append an item to the tower: the item is stored, becomes the next node
    /// of level 0, and every level that this fills is folded upwards.
    pub fn append(&mut self, item: Vec<u8>)
        requires
            old(self).wf(),
            old(self)@.len() < usize::MAX,
        ensures
            final(self).wf(),
            final(self)@ == old(self)@.push(item@),
    {
        let ghost before = *self;
        let item_index = self.item_count;
        self.item_count = self.item_count + 1;
        self.items.push(copy_of(item.as_slice()));
        let node_id = NodeId::Item(item_index);
        proof {
            let longer = self.items.deep_view();
            let target = before.items.deep_view().push(item@);
            assert(longer.len() == target.len());
            assert forall|k: int| 0 <= k < longer.len() implies #[trigger] longer[k] == target[k] by {
                if k < before.items.len() {
                    assert(self.items[k] == before.items[k]);
                }
            }
            assert(longer =~= target);
            Self::lemma_started(&before, &*self, item@);
        }
        self.append_to_level(0, TowerNode::Item(item), node_id);
    }

    /// A level that has received a node is a level of the tower.
    proof fn lemma_level_exists(&self, level: nat)
        requires
            self.wf(),
            pushed(self@.len(), self@.width, level) > 0,
        ensures
            level < self.levels.len(),
    {
        let count = self.items.len() as nat;
        let width = self.width as nat;
        let height = self.levels.len() as nat;
        let t = totals(count, width, 0, height);
        assert(t[height as int] == pushed(count, width, height));
        if level >= height {
            layout::lemma_nothing_above(count, width, height, level);
        }
    }

    /// A record that holds the identity of a block is the fold of the group
    /// of that block.
    proof fn lemma_in_record(&self, j: int, place: int, level: nat, block: nat)
        requires
            self.wf(),
            0 <= j < self.overflow_records.len(),
            0 <= place < self.overflow_records[j].node_ids.len(),
            self.overflow_records[j].node_ids.deep_view()[place] == block_id(
                self@.width,
                level,
                block,
            ),
        ensures
            self.overflow_records[j].level == level,
            place == block % self@.width,
            block - place == (block / self@.width) * self@.width,
            block - place + self@.width <= pushed(self@.len(), self@.width, level),
            block / self@.width < pushed(self@.len(), self@.width, level + 1),
            self.overflow_records[j].node_ids.deep_view() == id_run(
                self@.width,
                level,
                (block - place) as nat,
                self@.width,
            ),
            self.overflow_records[j].result_digest@ == self@.block_bytes::<D>(
                level + 1,
                block / self@.width,
            ),
            IdView::Aggregate(self.overflow_records[j].node_ids.deep_view()) == block_id(
                self@.width,
                level + 1,
                block / self@.width,
            ),
    {
        let count = self.items.len() as nat;
        let width = self.width as nat;
        let height = self.levels.len() as nat;
        let t = totals(count, width, 0, height);
        let record = self.overflow_records[j];
        assert(record_ok::<D>(self@, record, t));
        let found_level = record.level as nat;
        let group = id_block(width, IdView::Aggregate(record.node_ids.deep_view()));
        assert(record.node_ids.deep_view().len() == width);
        assert(record.node_ids.deep_view()[place] == block_id(
            width,
            found_level,
            (group * width + place) as nat,
        ));
        crate::model::lemma_block_id_tells(width, found_level, (group * width + place) as nat);
        crate::model::lemma_block_id_tells(width, level, block);
        layout::lemma_place_in_group(width, group, place as nat);
        assert(t[found_level as int] == pushed(count, width, level));
        layout::lemma_group_sent(pushed(count, width, level), width, group);
        assert(group * width + width == (group + 1) * width) by (nonlinear_arith);
        crate::model::lemma_fold_id(width, level, group);
    }

    /// A block that a level has received and that no record holds still
    /// stands on its level.
    proof fn lemma_standing(&self, level: nat, block: nat)
        requires
            self.wf(),
            block < pushed(self@.len(), self@.width, level),
            forall|j: int|
                0 <= j < self.overflow_records.len()
                    ==> !(#[trigger] self.overflow_records[j]).node_ids.deep_view().contains(
                    block_id(self@.width, level, block),
                ),
        ensures
            level < self.levels.len(),
            block - block % self@.width == self@.first_standing(level),
            block - block % self@.width + self@.width > pushed(self@.len(), self@.width, level),
            block % self@.width < self.levels[level as int].len(),
            self.levels[level as int].len() == pushed(self@.len(), self@.width, level)
                - self@.first_standing(level),
            self.level_nodes[level as int].deep_view()[(block % self@.width) as int] == block_id(
                self@.width,
                level,
                block,
            ),
            self.levels[level as int].deep_view() == self@.level::<D>(level),
    {
        let count = self.items.len() as nat;
        let width = self.width as nat;
        let height = self.levels.len() as nat;
        let t = totals(count, width, 0, height);
        let total = pushed(count, width, level);
        let group = block / width;
        let place = block % width;
        self.lemma_level_exists(level);
        self.lemma_level(level);
        assert(t[level as int] == total);
        layout::lemma_split(block, width);
        layout::lemma_split(total, width);
        assert(group * width + width == (group + 1) * width) by (nonlinear_arith);
        if (group + 1) * width <= total {
            assert(has_record(width, self.overflow_records@, level, group));
            let j = choose|j: int| records_group(width, self.overflow_records@, j, level, group);
            let ids = self.overflow_records[j].node_ids.deep_view();
            assert(ids[place as int] == block_id(width, level, block));
            assert(ids.contains(block_id(width, level, block)));
            assert(false);
        }
        layout::lemma_split_unique(total, width, group, (total - group * width) as nat);
        assert(level_ok::<D>(
            self@,
            self.levels[level as int].deep_view(),
            self.level_nodes[level as int].deep_view(),
            level,
            t[level as int],
        ));
    }

    /// The level and the place at which the identity of a block is found
    /// standing are those of the block.
    proof fn lemma_found_standing(&self, found: nat, place: nat, level: nat, block: nat)
        requires
            self.wf(),
            found < self.levels.len(),
            place < self.level_nodes[found as int].len(),
            self.level_nodes[found as int].deep_view()[place as int] == block_id(
                self@.width,
                level,
                block,
            ),
        ensures
            found == level,
            self@.first_standing(level) + place == block,
    {
        let count = self.items.len() as nat;
        let width = self.width as nat;
        let height = self.levels.len() as nat;
        let t = totals(count, width, 0, height);
        assert(level_ok::<D>(
            self@,
            self.levels[found as int].deep_view(),
            self.level_nodes[found as int].deep_view(),
            found,
            t[found as int],
        ));
        assert(t[found as int] == pushed(count, width, found));
        let first = self@.first_standing(found);
        let ids = self.level_nodes[found as int].deep_view();
        assert(ids.len() == self.level_nodes[found as int].len());
        assert(ids[place as int] == block_id(width, found, (first + place) as nat));
        crate::model::lemma_block_id_tells(width, found, first + place);
        crate::model::lemma_block_id_tells(width, level, block);
    }

    /// The items behind a row of identities of level 0, in order.
    fn raw_group(&self, ids: &Vec<NodeId>, Ghost(first): Ghost<nat>) -> (out: Result<
        Vec<Vec<u8>>,
        LazyTowerError,
    >)
        requires
            self.wf(),
            ids.deep_view() == id_run(self@.width, 0, first, ids.len() as nat),
            first + ids.len() <= self@.len(),
        ensures
            out is Ok,
            out->Ok_0.deep_view() == self@.run::<D>(0, first, ids.len() as nat),
    {
        let mut group: Vec<Vec<u8>> = Vec::new();
        let mut k: usize = 0;
        while k < ids.len()
            invariant
                k <= ids.len(),
                ids.deep_view() == id_run(self@.width, 0, first, ids.len() as nat),
                first + ids.len() <= self@.len(),
                self@.len() == self.items.len(),
                self@.items == self.items.deep_view(),
                group.len() == k,
                forall|i: int|
                    0 <= i < k ==> (#[trigger] group[i])@ == self@.items[first + i],
            decreases ids.len() - k,
        {
            assert(ids.deep_view()[k as int] == ids[k as int]@);
            match &ids[k] {
                NodeId::Item(index) => {
                    group.push(copy_of(self.items[*index].as_slice()));
                },
                NodeId::Digest(_) => {
                    return Err(LazyTowerError::ProofUnavailable);
                },
            }
            k = k + 1;
        }
        proof {
            let run = self@.run::<D>(0, first, ids.len() as nat);
            assert forall|i: int| 0 <= i < group.len() implies #[trigger] group.deep_view()[i]
                == run[i] by {
                assert(group.deep_view()[i] == group[i]@);
            }
            assert(group.deep_view() =~= run);
        }
        Ok(group)
    }

    /// The digests behind a row of identities of a level above 0, in order:
    /// each is taken from the record of the fold that made it.
    fn digest_group(
        &self,
        ids: &Vec<NodeId>,
        Ghost(level): Ghost<nat>,
        Ghost(first): Ghost<nat>,
    ) -> (out: Result<Vec<Vec<u8>>, LazyTowerError>)
        requires
            self.wf(),
            level >= 1,
            ids.deep_view() == id_run(self@.width, level, first, ids.len() as nat),
            first + ids.len() <= pushed(self@.len(), self@.width, level),
        ensures
            out is Ok,
            out->Ok_0.deep_view() == self@.run::<D>(level, first, ids.len() as nat),
    {
        let mut group: Vec<Vec<u8>> = Vec::new();
        let mut k: usize = 0;
        let ghost width = self@.width;
        let ghost below = (level - 1) as nat;
        while k < ids.len()
            invariant
                self.wf(),
                level >= 1,
                below == level - 1,
                width == self@.width,
                width == self.width,
                width > 1,
                k <= ids.len(),
                ids.deep_view() == id_run(width, level, first, ids.len() as nat),
                first + ids.len() <= pushed(self@.len(), width, level),
                group.len() == k,
                forall|i: int|
                    0 <= i < k ==> (#[trigger] group[i])@ == self@.block_bytes::<D>(
                        level,
                        (first + i) as nat,
                    ),
            decreases ids.len() - k,
        {
            let ghost block = first + k as nat;
            assert(ids.deep_view()[k as int] == ids[k as int]@);
            proof {
                crate::model::lemma_fold_id(width, below, block);
                if ids[k as int] is Digest {
                    crate::node::lemma_digest_id_view(ids[k as int]);
                }
            }
            match &ids[k] {
                NodeId::Digest(child_nodes) => {
                    let mut j: usize = 0;
                    let mut found: bool = false;
                    while j < self.overflow_records.len() && !found
                        invariant
                            self.wf(),
                            width == self@.width,
                            level >= 1,
                            below == level - 1,
                            j <= self.overflow_records.len(),
                            child_nodes.deep_view() == id_run(width, below, block * width, width),
                            group.len() == if found {
                                k + 1
                            } else {
                                k as int
                            },
                            forall|i: int|
                                0 <= i < k ==> (#[trigger] group[i])@ == self@.block_bytes::<D>(
                                    level,
                                    (first + i) as nat,
                                ),
                            found ==> group[k as int]@ == self@.block_bytes::<D>(level, block),
                            !found ==> forall|i: int|
                                0 <= i < j ==> (#[trigger] self.overflow_records[i]).node_ids.deep_view()
                                    != child_nodes.deep_view(),
                        decreases self.overflow_records.len() - j + if found { 0int } else { 1int },
                    {
                        let record = &self.overflow_records[j];
                        if same_ids(&record.node_ids, child_nodes) {
                            proof {
                                assert(record.node_ids.deep_view()[0] == block_id(
                                    width,
                                    below,
                                    (block * width + 0) as nat,
                                ));
                                assert(record.node_ids.deep_view().len() == width);
                                self.lemma_in_record(j as int, 0, below, block * width);
                                layout::lemma_place_in_group(width, block, 0);
                            }
                            group.push(copy_of(record.result_digest.as_slice()));
                            found = true;
                        } else {
                            j = j + 1;
                        }
                    }
                    if !found {
                        proof {
                            let total = pushed(self@.len(), width, below);
                            layout::lemma_group_within(total, width, block);
                            self.lemma_level_exists(below);
                            let t = totals(
                                self.items.len() as nat,
                                width,
                                0,
                                self.levels.len() as nat,
                            );
                            assert(t[below as int] == total);
                            assert(has_record(width, self.overflow_records@, below, block));
                            let i = choose|i: int|
                                records_group(width, self.overflow_records@, i, below, block);
                            assert(self.overflow_records[i].node_ids.deep_view()
                                == child_nodes.deep_view());
                            assert(false);
                        }
                        return Err(LazyTowerError::ProofUnavailable);
                    }
                },
                NodeId::Item(_) => {
                    return Err(LazyTowerError::ProofUnavailable);
                },
            }
            k = k + 1;
        }
        proof {
            let run = self@.run::<D>(level, first, ids.len() as nat);
            assert forall|i: int| 0 <= i < group.len() implies #[trigger] group.deep_view()[i]
                == run[i] by {
                assert(group.deep_view()[i] == group[i]@);
            }
            assert(group.deep_view() =~= run);
        }
        Ok(group)
    }

    /// Build the proof path of a node upwards from it, by its identity. As
    /// long as a record holds the identity, the rest of that record's group
    /// makes a step, and the walk goes on with the fold of the group. An
    /// identity that no record holds still stands on a level: the other
    /// nodes that stand there, if any, make the last step.
    fn build_proof_path_recursive(
        &self,
        node_id: &NodeId,
        path: &mut ProofPath<D>,
        Ghost(level): Ghost<nat>,
        Ghost(block): Ghost<nat>,
    ) -> (done: Result<(), LazyTowerError>)
        requires
            self.wf(),
            node_id@ == block_id(self@.width, level, block),
            block < pushed(self@.len(), self@.width, level),
        ensures
            done is Ok,
            final(path)@ == old(path)@ + self@.steps_from::<D>(
                level,
                block,
                pushed(self@.len(), self@.width, level),
            ),
        decreases self.levels.len() - level,
    {
        let ghost width = self@.width;
        let ghost total = pushed(self@.len(), width, level);
        let ghost target = self@.steps_from::<D>(level, block, total);
        let mut j: usize = 0;
        while j < self.overflow_records.len()
            invariant
                self.wf(),
                width == self@.width,
                width == self.width,
                width > 1,
                total == pushed(self@.len(), width, level),
                j <= self.overflow_records.len(),
                node_id@ == block_id(width, level, block),
                block < total,
                *path == *old(path),
                target == self@.steps_from::<D>(level, block, total),
                forall|i: int|
                    0 <= i < j ==> !(#[trigger] self.overflow_records[i]).node_ids.deep_view().contains(
                        node_id@,
                    ),
            decreases self.overflow_records.len() - j,
        {
            let record = &self.overflow_records[j];
            match find_id(&record.node_ids, node_id) {
                Some(position) => {
                    let ghost first = (block - position) as nat;
                    proof {
                        self.lemma_in_record(j as int, position as int, level, block);
                        self.lemma_level_exists(level + 1);
                        assert(record.node_ids.deep_view().len() == width);
                    }
                    let made = if record.level == 0 {
                        self.raw_group(&record.node_ids, Ghost(first))
                    } else {
                        self.digest_group(&record.node_ids, Ghost(level), Ghost(first))
                    };
                    let group = match made {
                        Ok(group) => group,
                        Err(error) => {
                            return Err(error);
                        },
                    };
                    let siblings = without(group, position);
                    if record.level == 0 {
                        path.add_raw_siblings(position, siblings);
                    } else {
                        path.add_siblings(position, siblings);
                    }
                    let parent = NodeId::Digest(duplicate_all(&record.node_ids));
                    proof {
                        crate::node::lemma_digest_id_view(parent);
                    }
                    let ghost stepped = path@;
                    let done = self.build_proof_path_recursive(
                        &parent,
                        path,
                        Ghost(level + 1),
                        Ghost(block / width),
                    );
                    proof {
                        let rest = self@.steps_from::<D>(level + 1, block / width, total / width);
                        assert(target == seq![stepped.last()] + rest);
                        assert(path@ =~= old(path)@ + target);
                    }
                    return done;
                },
                None => {},
            }
            j = j + 1;
        }
        proof {
            self.lemma_standing(level, block);
        }
        let mut found_level: usize = 0;
        while found_level < self.level_nodes.len()
            invariant
                self.wf(),
                width == self@.width,
                width > 1,
                total == pushed(self@.len(), width, level),
                found_level <= self.level_nodes.len(),
                self.level_nodes.len() == self.levels.len(),
                node_id@ == block_id(width, level, block),
                block < total,
                *path == *old(path),
                target == self@.steps_from::<D>(level, block, total),
                level < self.levels.len(),
                block - block % width == self@.first_standing(level),
                block - block % width + width > total,
                block % width < self.levels[level as int].len(),
                self.levels[level as int].len() == total - self@.first_standing(level),
                self.level_nodes[level as int].deep_view()[(block % width) as int] == node_id@,
                self.levels[level as int].deep_view() == self@.level::<D>(level),
                forall|i: int|
                    0 <= i < found_level ==> !(#[trigger] self.level_nodes[i]).deep_view().contains(
                        node_id@,
                    ),
            decreases self.level_nodes.len() - found_level,
        {
            match find_id(&self.level_nodes[found_level], node_id) {
                Some(index) => {
                    proof {
                        self.lemma_found_standing(found_level as nat, index as nat, level, block);
                    }
                    let nodes = &self.levels[found_level];
                    if nodes.len() > 1 {
                        let group = level_bytes(nodes);
                        proof {
                            let first = self@.first_standing(level);
                            let run = self@.run::<D>(level, first, (total - first) as nat);
                            assert forall|k: int| 0 <= k < group.len() implies #[trigger] group.deep_view()[k]
                                == run[k] by {
                                assert(nodes.deep_view()[k] == nodes[k]@);
                            }
                            assert(group.deep_view() =~= run);
                        }
                        let siblings = without(group, index);
                        path.add_raw_siblings(index, siblings);
                        proof {
                            assert(target == seq![path@.last()]);
                            assert(path@ =~= old(path)@ + target);
                        }
                    } else {
                        proof {
                            assert(target == Seq::<crate::model::PathStep>::empty());
                            assert(path@ =~= old(path)@ + target);
                        }
                    }
                    return Ok(());
                },
                None => {},
            }
            found_level = found_level + 1;
        }
        proof {
            let ids = self.level_nodes[level as int].deep_view();
            assert(ids.contains(node_id@)) by {
                assert(ids[(block % width) as int] == node_id@);
                assert(ids.len() == self.level_nodes[level as int].len());
                self.lemma_level(level);
                let t = totals(self.items.len() as nat, width, 0, self.levels.len() as nat);
                assert(level_ok::<D>(
                    self@,
                    self.levels[level as int].deep_view(),
                    ids,
                    level,
                    t[level as int],
                ));
            }
            assert(false);
        }
        Err(LazyTowerError::ProofUnavailable)
    }

    /// Generate a proof for the item at a given index: the item, its path
    /// through the folds up to the nodes that stand, and the root as it is
    /// now.
    pub fn generate_proof(&self, index: usize) -> (made: Result<MembershipProof<D>, LazyTowerError>)
        requires
            self.wf(),
        ensures
            index < self@.len() ==> made is Ok && made->Ok_0.item@ == self@.items[index as int]
                && made->Ok_0.path@ == self@.path::<D>(index as nat) && self@.root::<D>() == Some(
                made->Ok_0.root@,
            ),
            index < self@.len() ==> crate::model::well_placed(made->Ok_0.path@),
            index < self@.len() && self@.in_root(index as nat) ==> made->Ok_0.valid(),
            index >= self@.len() ==> made == Err::<MembershipProof<D>, LazyTowerError>(
                LazyTowerError::InvalidIndex { index, max: self@.len() as usize },
            ),
    {
        if self.item_count == 0 || index >= self.item_count {
            return Err(LazyTowerError::InvalidIndex { index, max: self.item_count });
        }
        let item = copy_of(self.items[index].as_slice());
        let root = match self.root_digest() {
            Some(root) => root,
            None => {
                return Err(LazyTowerError::ProofUnavailable);
            },
        };
        proof {
            crate::laws::lemma_path_well_placed::<D>(self@, index as nat);
            if self@.in_root(index as nat) {
                crate::laws::lemma_round_trip::<D>(self@, index as nat);
            }
        }
        let mut path: ProofPath<D> = ProofPath::new();
        if self.item_count == 1 {
            proof {
                layout::lemma_small(0, self.width as nat);
                assert(self@.path::<D>(0) =~= Seq::<crate::model::PathStep>::empty());
            }
            let made = MembershipProof { item, path, root };
            assert(made.item@ == self@.items[index as int]);
            assert(made.path@ == self@.path::<D>(index as nat));
            assert(self@.root::<D>() == Some(made.root@));
            assert(self@.in_root(index as nat) ==> made.valid());
            return Ok(made);
        }
        let item_node_id = NodeId::Item(index);
        match self.build_proof_path_recursive(&item_node_id, &mut path, Ghost(0), Ghost(index as nat)) {
            Ok(()) => {},
            Err(error) => {
                return Err(error);
            },
        }
        assert(path@ =~= self@.path::<D>(index as nat));
        let made = MembershipProof { item, path, root };
        assert(made.item@ == self@.items[index as int]);
        assert(made.path@ == self@.path::<D>(index as nat));
        assert(self@.root::<D>() == Some(made.root@));
        assert(self@.in_root(index as nat) ==> made.valid());
        Ok(made)
    }
}

} // verus!
