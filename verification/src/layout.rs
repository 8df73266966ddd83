//! Where the nodes of a tower stand: how many nodes each level has received
//! after a number of appends, and how many levels there are.

use vstd::prelude::*;

verus! {

/// The number of nodes that level `level` has received after `count` appends
/// to a tower of width `width`: every `width` nodes that a level receives
/// send one node to the level above.
pub open spec fn pushed(count: nat, width: nat, level: nat) -> nat
    decreases level,
{
    if level == 0 {
        count
    } else {
        pushed(count, width, (level - 1) as nat) / width
    }
}

/// The number of nodes that stand on level `level` after `count` appends:
/// what the level has received and not yet sent up.
pub open spec fn standing(count: nat, width: nat, level: nat) -> nat {
    pushed(count, width, level) % width
}

/// The number of levels of a tower of width `width` after `count` appends:
/// level 0, and every level that has received a node.
pub open spec fn level_count(count: nat, width: nat) -> nat
    decreases count,
    when width > 1
    via level_count_decreases
{
    if count < width {
        1
    } else {
        1 + level_count(count / width, width)
    }
}

#[via_fn]
proof fn level_count_decreases(count: nat, width: nat) {
    if count >= width {
        lemma_quotient_smaller(count, width);
    }
}

/// Dividing a positive number by a width of two or more makes it smaller.
pub proof fn lemma_quotient_smaller(total: nat, width: nat)
    requires
        width > 1,
        total > 0,
    ensures
        total / width < total,
{
    assert(total / width < total) by (nonlinear_arith)
        requires
            width > 1,
            total > 0,
    ;
}

/// A number is its quotient times the width plus its remainder.
pub proof fn lemma_split(total: nat, width: nat)
    requires
        width > 0,
    ensures
        total == (total / width) * width + total % width,
        0 <= total % width < width,
{
    assert(total == (total / width) * width + total % width && 0 <= total % width < width)
        by (nonlinear_arith)
        requires
            width > 0,
    ;
}

/// The only way to write a number as a quotient times the width plus a
/// remainder below the width.
pub proof fn lemma_split_unique(total: nat, width: nat, quotient: nat, rest: nat)
    requires
        width > 0,
        rest < width,
        total == quotient * width + rest,
    ensures
        total / width == quotient,
        total % width == rest,
{
    vstd::arithmetic::div_mod::lemma_fundamental_div_mod_converse(
        total as int,
        width as int,
        quotient as int,
        rest as int,
    );
}

/// What one more node does to a level: either it fills the level, which then
/// sends one node up and stands empty, or it stands beside the others.
pub proof fn lemma_one_more(total: nat, width: nat)
    requires
        width > 1,
    ensures
        total % width == width - 1 ==> (total + 1) / width == total / width + 1 && (total + 1)
            % width == 0,
        total % width != width - 1 ==> (total + 1) / width == total / width && (total + 1) % width
            == total % width + 1,
{
    lemma_split(total, width);
    let q = total / width;
    let r = total % width;
    if r == width - 1 {
        assert(total + 1 == (q + 1) * width + 0) by (nonlinear_arith)
            requires
                total == q * width + r,
                r == width - 1,
        ;
        lemma_split_unique(total + 1, width, q + 1, 0);
    } else {
        lemma_split_unique(total + 1, width, q, r + 1);
    }
}

/// A number below the width has quotient 0 and is its own remainder.
pub proof fn lemma_small(total: nat, width: nat)
    requires
        total < width,
    ensures
        total / width == 0,
        total % width == total,
{
    lemma_split_unique(total, width, 0, total);
}

/// A number whose quotient is 0 is below the width.
pub proof fn lemma_zero_quotient(total: nat, width: nat)
    requires
        width > 0,
        total / width == 0,
    ensures
        total < width,
{
    lemma_split(total, width);
}

/// The blocks of a folded group are blocks that the level has received: if
/// block `group` has arrived above, the level holds all of
/// `group * width .. (group + 1) * width`.
pub proof fn lemma_group_within(total: nat, width: nat, group: nat)
    requires
        width > 0,
        group < total / width,
    ensures
        (group + 1) * width <= total,
        group * width + width == (group + 1) * width,
{
    lemma_split(total, width);
    assert((group + 1) * width <= (total / width) * width) by (nonlinear_arith)
        requires
            group + 1 <= total / width,
    ;
    assert(group * width + width == (group + 1) * width) by (nonlinear_arith);
}

/// The converse: a level that holds all the blocks of a group has sent the
/// group up.
pub proof fn lemma_group_sent(total: nat, width: nat, group: nat)
    requires
        width > 0,
        (group + 1) * width <= total,
    ensures
        group < total / width,
{
    lemma_split(total, width);
    if group >= total / width {
        assert((group + 1) * width >= (total / width + 1) * width) by (nonlinear_arith)
            requires
                group >= total / width,
        ;
        assert((total / width + 1) * width == (total / width) * width + width)
            by (nonlinear_arith);
    }
}

/// Block `group * width + k` lies in group `group`, at place `k`.
pub proof fn lemma_place_in_group(width: nat, group: nat, k: nat)
    requires
        k < width,
    ensures
        (group * width + k) / width == group,
        (group * width + k) % width == k,
{
    lemma_split_unique(group * width + k, width, group, k);
}

/// A level that has received nothing has sent nothing up, at any height.
pub proof fn lemma_nothing_above(count: nat, width: nat, level: nat, above: nat)
    requires
        width > 0,
        level <= above,
        pushed(count, width, level) == 0,
    ensures
        pushed(count, width, above) == 0,
    decreases above - level,
{
    if level < above {
        lemma_nothing_above(count, width, level, (above - 1) as nat);
        lemma_small(0, width);
    }
}

/// Two counts that agree on a level agree on every level above it.
pub proof fn lemma_same_above(first: nat, second: nat, width: nat, level: nat, above: nat)
    requires
        level <= above,
        pushed(first, width, level) == pushed(second, width, level),
    ensures
        pushed(first, width, above) == pushed(second, width, above),
    decreases above - level,
{
    if level < above {
        lemma_same_above(first, second, width, level, (above - 1) as nat);
    }
}

/// What a level has received is what the level above has received of the
/// quotient: levels can be counted from the top of the division or from its
/// bottom.
pub proof fn lemma_pushed_shift(count: nat, width: nat, level: nat)
    requires
        width > 0,
    ensures
        pushed(count, width, level + 1) == pushed(count / width, width, level),
    decreases level,
{
    if level > 0 {
        lemma_pushed_shift(count, width, (level - 1) as nat);
    } else {
        assert(pushed(count, width, 1) == pushed(count, width, 0) / width);
    }
}

/// Whether `height` is the number of levels after `count` appends: level
/// `height` has received nothing, and the level below it has, unless it is
/// level 0.
pub open spec fn is_height(count: nat, width: nat, height: nat) -> bool {
    &&& height >= 1
    &&& pushed(count, width, height) == 0
    &&& height == 1 || pushed(count, width, (height - 1) as nat) >= 1
}

/// `level_count` is the number of levels in the sense of `is_height`.
pub proof fn lemma_level_count_is_height(count: nat, width: nat)
    requires
        width > 1,
    ensures
        is_height(count, width, level_count(count, width)),
    decreases count,
{
    if count < width {
        lemma_small(count, width);
        assert(pushed(count, width, 1) == pushed(count, width, 0) / width);
    } else {
        lemma_quotient_smaller(count, width);
        lemma_level_count_is_height(count / width, width);
        let below = level_count(count / width, width);
        lemma_pushed_shift(count, width, below);
        if below > 1 {
            lemma_pushed_shift(count, width, (below - 1) as nat);
        } else {
            lemma_split(count, width);
            if count / width == 0 {
                lemma_zero_quotient(count, width);
            }
            assert(pushed(count, width, 1) == pushed(count, width, 0) / width);
        }
    }
}

/// There is only one number of levels.
pub proof fn lemma_height_unique(count: nat, width: nat, first: nat, second: nat)
    requires
        width > 0,
        is_height(count, width, first),
        is_height(count, width, second),
    ensures
        first == second,
{
    if first < second {
        lemma_nothing_above(count, width, first, (second - 1) as nat);
    }
    if second < first {
        lemma_nothing_above(count, width, second, (first - 1) as nat);
    }
}

} // verus!
