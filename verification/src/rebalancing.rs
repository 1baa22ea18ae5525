//! The rebalancing engine: restriction propagation, target value allocation
//! and debt resolution over the asset tree.
//!
//! Restriction propagation walks the tree bottom-up and turns the
//! caller-supplied `restrict_buying` / `restrict_selling` flags into hard
//! `min_value` / `max_value` bounds.  An instrument that must not be sold can
//! never fall under its current value, one that must not be bought can never
//! rise above it; a group inherits the sum of its children's minima, and a
//! ceiling only when every child has one.
//!
//! The allocator then walks the tree top-down, splitting each group's target
//! among its children by weight, rounding trades to whole lots, clamping to
//! the propagated bounds, and redistributing any imbalance greedily one trade
//! unit at a time.  Its contracts state the engine's invariants: targets plus
//! the unplaced leftover always equal the group's total, every target stays
//! within its node's bounds, and instruments trade in whole lots.  When a
//! leftover remains, the debt resolver reallocates among the children still
//! free to trade and reports the irreducible shortfall as debt.

use vstd::prelude::*;

use crate::asset_allocation::{
    bounds_wf_node, bounds_wf_nodes, lemma_bounds_wf_nodes,
    lemma_nodes_model, lemma_seq_height_bound, lemma_seq_height_congruence,
    lemma_seq_height_suffix, lemma_stock_current_sum_nonneg,
    lemma_stock_current_sum_seq_nonneg, lemma_sum_targets_member_bound, lemma_sum_targets_push,
    lemma_sum_targets_update, lemma_wf_nodes, lemma_wf_nodes_intro, node_height, nodes_model,
    seq_height, stock_current_sum, stock_current_sum_seq, sum_targets, wf_node, wf_nodes,
    AssetAllocation, Holding, HoldingModel, NodeModel, Portfolio, HEIGHT_LIMIT,
    TARGET_CAP, VALUE_LIMIT, WEIGHT_SCALE,
};
use crate::rounding::{
    ceil_div, ceil_div_i128, lemma_ceil_div_bounds, lemma_round_div_bounds, round_div,
    round_div_i128,
};

verus! {

broadcast use lemma_nodes_model, lemma_wf_nodes, lemma_bounds_wf_nodes;

/// Hard floor a node may not fall under: its current value for an instrument
/// that must not be sold, the sum of the children's floors for a group.
pub open spec fn spec_min_value(m: NodeModel) -> int
    decreases m,
{
    match m.holding {
        HoldingModel::Stock { .. } => if m.restrict_selling {
            m.current
        } else {
            0
        },
        HoldingModel::Group { children } => sum_min(children),
    }
}

/// Sum of [`spec_min_value`] over a forest.
pub open spec fn sum_min(s: Seq<NodeModel>) -> int
    decreases s,
{
    if s.len() == 0 {
        0
    } else {
        spec_min_value(s[0]) + sum_min(s.subrange(1, s.len() as int))
    }
}

/// Hard ceiling a node may not rise above: its current value for an
/// instrument that must not be bought, the sum of the children's ceilings for
/// a group whose children all have one, and no ceiling otherwise.
pub open spec fn spec_max_value(m: NodeModel) -> Option<int>
    decreases m,
{
    match m.holding {
        HoldingModel::Stock { .. } => if m.restrict_buying {
            Option::Some(m.current)
        } else {
            Option::None
        },
        HoldingModel::Group { children } => sum_max(children),
    }
}

/// Sum of [`spec_max_value`] over a forest, defined only when every member
/// has a ceiling.
pub open spec fn sum_max(s: Seq<NodeModel>) -> Option<int>
    decreases s,
{
    if s.len() == 0 {
        Option::Some(0)
    } else {
        match (spec_max_value(s[0]), sum_max(s.subrange(1, s.len() as int))) {
            (Option::Some(a), Option::Some(b)) => Option::Some(a + b),
            _ => Option::None,
        }
    }
}

/// A node with its restriction bounds written in, recursively.
pub open spec fn with_restrictions(m: NodeModel) -> NodeModel
    decreases m,
{
    NodeModel {
        min: spec_min_value(m),
        max: spec_max_value(m),
        holding: match m.holding {
            HoldingModel::Group { children } => HoldingModel::Group {
                children: with_restrictions_seq(children),
            },
            HoldingModel::Stock { price } => HoldingModel::Stock { price },
        },
        ..m
    }
}

/// [`with_restrictions`] over a forest.
pub open spec fn with_restrictions_seq(s: Seq<NodeModel>) -> Seq<NodeModel>
    decreases s,
{
    if s.len() == 0 {
        Seq::empty()
    } else {
        seq![with_restrictions(s[0])] + with_restrictions_seq(s.subrange(1, s.len() as int))
    }
}

/// Pointwise reading of [`with_restrictions_seq`].
pub broadcast proof fn lemma_with_restrictions_seq(s: Seq<NodeModel>)
    ensures
        (#[trigger] with_restrictions_seq(s)).len() == s.len(),
        forall|i: int| 0 <= i < s.len() ==> with_restrictions_seq(s)[i] == with_restrictions(
            s[i],
        ),
    decreases s,
{
    if s.len() > 0 {
        let tail = s.subrange(1, s.len() as int);
        lemma_with_restrictions_seq(tail);
        assert(with_restrictions_seq(s) == seq![with_restrictions(s[0])]
            + with_restrictions_seq(tail));
        assert forall|i: int| 0 <= i < s.len() implies with_restrictions_seq(s)[i]
            == with_restrictions(s[i]) by {
            if i > 0 {
                assert(with_restrictions_seq(s)[i] == with_restrictions_seq(tail)[i - 1]);
                assert(tail[i - 1] == s[i]);
            }
        }
    }
}

/// Appending a node extends the two running sums in the obvious way.
proof fn lemma_restriction_sums_push(s: Seq<NodeModel>, x: NodeModel)
    ensures
        sum_min(s.push(x)) == sum_min(s) + spec_min_value(x),
        sum_max(s.push(x)) == match (sum_max(s), spec_max_value(x)) {
            (Option::Some(a), Option::Some(b)) => Option::Some(a + b),
            _ => Option::<int>::None,
        },
    decreases s,
{
    let p = s.push(x);
    assert(p.len() == s.len() + 1);
    assert(sum_min(p) == spec_min_value(p[0]) + sum_min(p.subrange(1, p.len() as int)));
    assert(sum_max(p) == match (spec_max_value(p[0]), sum_max(p.subrange(1, p.len() as int))) {
        (Option::Some(a), Option::Some(b)) => Option::Some(a + b),
        _ => Option::<int>::None,
    });
    if s.len() == 0 {
        assert(p[0] == x);
        assert(p.subrange(1, p.len() as int) =~= Seq::<NodeModel>::empty());
        assert(sum_min(Seq::<NodeModel>::empty()) == 0);
        assert(sum_max(Seq::<NodeModel>::empty()) == Option::<int>::Some(0));
    } else {
        let tail = s.subrange(1, s.len() as int);
        assert(p.subrange(1, p.len() as int) =~= tail.push(x));
        lemma_restriction_sums_push(tail, x);
        assert(p[0] == s[0]);
        assert(sum_min(s) == spec_min_value(s[0]) + sum_min(tail));
        assert(sum_max(s) == match (spec_max_value(s[0]), sum_max(tail)) {
            (Option::Some(a), Option::Some(b)) => Option::Some(a + b),
            _ => Option::<int>::None,
        });
    }
}

/// Partial sums of the computed bounds stay within the instrument value of
/// the whole forest, so the propagation pass cannot overflow.
pub proof fn lemma_restriction_prefix_bounds(s: Seq<NodeModel>, k: int)
    requires
        wf_nodes(s),
        0 <= k <= s.len(),
    ensures
        0 <= sum_min(s.subrange(0, k)) <= stock_current_sum_seq(s),
        match sum_max(s.subrange(0, k)) {
            Option::Some(x) => 0 <= x <= stock_current_sum_seq(s),
            Option::None => true,
        },
    decreases s,
{
    lemma_stock_current_sum_seq_nonneg(s);
    if k == 0 {
        assert(s.subrange(0, 0) =~= Seq::<NodeModel>::empty());
    } else {
        let tail = s.subrange(1, s.len() as int);
        let p = s.subrange(0, k);
        assert(p[0] == s[0]);
        assert(p.subrange(1, p.len() as int) =~= tail.subrange(0, k - 1));
        lemma_restriction_bounds(s[0]);
        lemma_stock_current_sum_nonneg(s[0]);
        lemma_restriction_prefix_bounds(tail, k - 1);
        assert(sum_min(p) == spec_min_value(s[0]) + sum_min(tail.subrange(0, k - 1)));
    }
}

/// The computed bounds are consistent: minima are non-negative, never exceed
/// the instrument value held beneath the node, and never exceed a defined
/// ceiling, which is itself bounded the same way.
pub proof fn lemma_restriction_bounds(m: NodeModel)
    requires
        wf_node(m),
    ensures
        0 <= spec_min_value(m) <= stock_current_sum(m),
        match spec_max_value(m) {
            Option::Some(x) => spec_min_value(m) <= x <= stock_current_sum(m),
            Option::None => true,
        },
    decreases m,
{
    match m.holding {
        HoldingModel::Stock { .. } => {},
        HoldingModel::Group { children } => {
            lemma_restriction_sums_bounds(children);
        },
    }
}

/// [`lemma_restriction_bounds`] over a forest.
pub proof fn lemma_restriction_sums_bounds(s: Seq<NodeModel>)
    requires
        wf_nodes(s),
    ensures
        0 <= sum_min(s) <= stock_current_sum_seq(s),
        match sum_max(s) {
            Option::Some(x) => sum_min(s) <= x <= stock_current_sum_seq(s),
            Option::None => true,
        },
    decreases s,
{
    if s.len() > 0 {
        let tail = s.subrange(1, s.len() as int);
        lemma_restriction_bounds(s[0]);
        lemma_restriction_sums_bounds(tail);
    }
}

/// Writing the bounds changes nothing the bounds are computed from: the
/// shape, heights, instrument values, weights and flags all stay, the result
/// is well formed, and its bounds satisfy [`bounds_wf_node`] whenever the
/// instrument value under the node is within [`VALUE_LIMIT`].
pub proof fn lemma_with_restrictions_preserves(m: NodeModel)
    requires
        wf_node(m),
        stock_current_sum(m) <= VALUE_LIMIT,
    ensures
        wf_node(with_restrictions(m)),
        bounds_wf_node(with_restrictions(m)),
        node_height(with_restrictions(m)) == node_height(m),
        stock_current_sum(with_restrictions(m)) == stock_current_sum(m),
        spec_min_value(with_restrictions(m)) == spec_min_value(m),
        spec_max_value(with_restrictions(m)) == spec_max_value(m),
        with_restrictions(m).min == spec_min_value(m),
        with_restrictions(m).max == spec_max_value(m),
    decreases m,
{
    lemma_restriction_bounds(m);
    match m.holding {
        HoldingModel::Stock { .. } => {},
        HoldingModel::Group { children } => {
            lemma_with_restrictions_seq_preserves(children);
        },
    }
}

/// [`lemma_with_restrictions_preserves`] over a forest.
pub proof fn lemma_with_restrictions_seq_preserves(s: Seq<NodeModel>)
    requires
        wf_nodes(s),
        stock_current_sum_seq(s) <= VALUE_LIMIT,
    ensures
        wf_nodes(with_restrictions_seq(s)),
        bounds_wf_nodes(with_restrictions_seq(s)),
        seq_height(with_restrictions_seq(s)) == seq_height(s),
        stock_current_sum_seq(with_restrictions_seq(s)) == stock_current_sum_seq(s),
        sum_min(with_restrictions_seq(s)) == sum_min(s),
        sum_max(with_restrictions_seq(s)) == sum_max(s),
    decreases s,
{
    if s.len() > 0 {
        let tail = s.subrange(1, s.len() as int);
        let w = with_restrictions_seq(s);
        lemma_stock_current_sum_seq_nonneg(s);
        lemma_stock_current_sum_nonneg(s[0]);
        lemma_with_restrictions_preserves(s[0]);
        lemma_with_restrictions_seq_preserves(tail);
        assert(w == seq![with_restrictions(s[0])] + with_restrictions_seq(tail));
        assert(w[0] == with_restrictions(s[0]));
        assert(w.subrange(1, w.len() as int) =~= with_restrictions_seq(tail));
    }
}

/// Propagating restrictions is idempotent: a second pass writes the same
/// bounds again.
pub proof fn lemma_restrictions_idempotent(m: NodeModel)
    ensures
        with_restrictions(with_restrictions(m)) == with_restrictions(m),
    decreases m,
{
    lemma_restrictions_invariant_min_max(m);
    match m.holding {
        HoldingModel::Stock { .. } => {},
        HoldingModel::Group { children } => {
            lemma_restrictions_seq_idempotent(children);
        },
    }
    assert(with_restrictions(with_restrictions(m)) =~~= with_restrictions(m));
}

/// [`lemma_restrictions_idempotent`] over a forest.
pub proof fn lemma_restrictions_seq_idempotent(s: Seq<NodeModel>)
    ensures
        with_restrictions_seq(with_restrictions_seq(s)) == with_restrictions_seq(s),
    decreases s,
{
    if s.len() == 0 {
        assert(with_restrictions_seq(with_restrictions_seq(s)) =~~= with_restrictions_seq(s));
    } else {
        let tail = s.subrange(1, s.len() as int);
        let w = with_restrictions_seq(s);
        lemma_restrictions_idempotent(s[0]);
        lemma_restrictions_seq_idempotent(tail);
        assert(w == seq![with_restrictions(s[0])] + with_restrictions_seq(tail));
        assert(w[0] == with_restrictions(s[0]));
        assert(w.subrange(1, w.len() as int) =~= with_restrictions_seq(tail));
        assert(with_restrictions_seq(w) == seq![with_restrictions(w[0])]
            + with_restrictions_seq(w.subrange(1, w.len() as int)));
        assert(with_restrictions_seq(with_restrictions_seq(s)) =~~= with_restrictions_seq(s));
    }
}

/// The bounds a second propagation pass computes are the ones already
/// written: [`spec_min_value`] and [`spec_max_value`] only read fields that
/// [`with_restrictions`] preserves.
proof fn lemma_restrictions_invariant_min_max(m: NodeModel)
    ensures
        spec_min_value(with_restrictions(m)) == spec_min_value(m),
        spec_max_value(with_restrictions(m)) == spec_max_value(m),
    decreases m,
{
    match m.holding {
        HoldingModel::Stock { .. } => {},
        HoldingModel::Group { children } => {
            lemma_restrictions_seq_invariant_min_max(children);
        },
    }
}

/// [`lemma_restrictions_invariant_min_max`] over a forest.
proof fn lemma_restrictions_seq_invariant_min_max(s: Seq<NodeModel>)
    ensures
        sum_min(with_restrictions_seq(s)) == sum_min(s),
        sum_max(with_restrictions_seq(s)) == sum_max(s),
    decreases s,
{
    if s.len() > 0 {
        let tail = s.subrange(1, s.len() as int);
        let w = with_restrictions_seq(s);
        lemma_restrictions_invariant_min_max(s[0]);
        lemma_restrictions_seq_invariant_min_max(tail);
        assert(w == seq![with_restrictions(s[0])] + with_restrictions_seq(tail));
        assert(w[0] == with_restrictions(s[0]));
        assert(w.subrange(1, w.len() as int) =~= with_restrictions_seq(tail));
    }
}

/// Bottom-up pass writing hard value bounds into every node.
///
/// Returns the updated forest together with the sum of the roots' minima and,
/// when every root has one, the sum of the roots' maxima — the bounds the
/// parent of these nodes inherits.
pub fn calculate_restrictions(assets: Vec<AssetAllocation>) -> (res: (
    Vec<AssetAllocation>,
    i128,
    Option<i128>,
))
    requires
        wf_nodes(nodes_model(assets@)),
        stock_current_sum_seq(nodes_model(assets@)) <= VALUE_LIMIT,
    ensures
        nodes_model(res.0@) == with_restrictions_seq(nodes_model(assets@)),
        res.1 as int == sum_min(nodes_model(assets@)),
        res.2 == match sum_max(nodes_model(assets@)) {
            Option::Some(x) => Option::Some(x as i128),
            Option::None => Option::<i128>::None,
        },
    decreases seq_height(nodes_model(assets@)),
{
    let ghost orig = nodes_model(assets@);
    proof {
        lemma_with_restrictions_seq(orig);
        lemma_stock_current_sum_seq_nonneg(orig);
        lemma_restriction_sums_bounds(orig);
    }
    let mut rest = assets;
    let mut out: Vec<AssetAllocation> = Vec::new();
    let mut total_min: i128 = 0;
    let mut total_max: i128 = 0;
    let mut all_with_max = true;
    while rest.len() > 0
        invariant
            nodes_model(assets@) == orig,
            nodes_model(out@).len() + nodes_model(rest@).len() == orig.len(),
            nodes_model(rest@) =~= orig.subrange(out@.len() as int, orig.len() as int),
            forall|j: int| 0 <= j < out@.len() ==> nodes_model(out@)[j] == with_restrictions(
                orig[j],
            ),
            total_min as int == sum_min(orig.subrange(0, out@.len() as int)),
            match sum_max(orig.subrange(0, out@.len() as int)) {
                Option::Some(x) => all_with_max && total_max as int == x,
                Option::None => !all_with_max,
            },
            wf_nodes(orig),
            stock_current_sum_seq(orig) <= VALUE_LIMIT,
            seq_height(nodes_model(rest@)) <= seq_height(orig),
        decreases rest@.len(),
    {
        let ghost k = out@.len() as int;
        let ghost prefix = orig.subrange(0, k);
        let ghost old_rest = rest@;
        let asset = rest.remove(0);
        proof {
            assert(nodes_model(old_rest)[0] == old_rest[0]@);
            assert(asset@ == orig[k]);
            assert(wf_node(orig[k]));
            lemma_stock_current_sum_seq_nonneg(orig);
            lemma_restriction_bounds(orig[k]);
        }
        let ghost m = asset@;
        let AssetAllocation {
            name,
            expected_weight,
            current_value,
            target_value,
            min_value: _,
            max_value: _,
            restrict_buying,
            restrict_selling,
            buy_blocked,
            sell_blocked,
            holding,
        } = asset;
        let (holding, min_value, max_value): (Holding, i128, Option<i128>) = match holding {
            Holding::Group(children) => {
                proof {
                    lemma_seq_height_bound(orig, k);
                    assert(m.holding == HoldingModel::Group {
                        children: nodes_model(children@),
                    });
                    assert(node_height(m) == 1 + seq_height(nodes_model(children@)));
                    assert(seq_height(nodes_model(children@)) < seq_height(orig));
                }
                let (children, mn, mx) = calculate_restrictions(children);
                (Holding::Group(children), mn, mx)
            },
            Holding::Stock(h) => {
                let mn: i128 = if matches!(restrict_selling, Option::Some(true)) {
                    current_value
                } else {
                    0
                };
                let mx: Option<i128> = if matches!(restrict_buying, Option::Some(true)) {
                    Option::Some(current_value)
                } else {
                    Option::None
                };
                (Holding::Stock(h), mn, mx)
            },
        };
        let updated = AssetAllocation {
            name,
            expected_weight,
            current_value,
            target_value,
            min_value,
            max_value,
            restrict_buying,
            restrict_selling,
            buy_blocked,
            sell_blocked,
            holding,
        };
        proof {
            assert(updated@ =~~= with_restrictions(orig[k]));
            lemma_restriction_sums_push(prefix, orig[k]);
            assert(prefix.push(orig[k]) =~= orig.subrange(0, k + 1));
            lemma_restriction_prefix_bounds(orig, k);
            lemma_restriction_prefix_bounds(orig, k + 1);
        }
        total_min = total_min + min_value;
        if all_with_max {
            match max_value {
                Option::Some(mx) => {
                    total_max = total_max + mx;
                },
                Option::None => {
                    all_with_max = false;
                },
            }
        }
        let ghost old_out = out@;
        out.push(updated);
        proof {
            assert forall|j: int| 0 <= j < out@.len() implies nodes_model(out@)[j]
                == with_restrictions(orig[j]) by {
                assert(nodes_model(out@)[j] == out@[j]@);
                if j < k {
                    assert(out@[j] == old_out[j]);
                    assert(nodes_model(old_out)[j] == old_out[j]@);
                } else {
                    assert(out@[j] == updated);
                }
            }
            assert(rest@ =~= old_rest.subrange(1, old_rest.len() as int));
            assert forall|j: int| 0 <= j < rest@.len() implies nodes_model(rest@)[j] == orig[
                k + 1 + j
            ] by {
                assert(nodes_model(rest@)[j] == rest@[j]@);
                assert(rest@[j] == old_rest[j + 1]);
                assert(nodes_model(old_rest)[j + 1] == old_rest[j + 1]@);
                assert(nodes_model(old_rest)[j + 1] == orig[k + 1 + j]);
            }
            assert(nodes_model(rest@) =~= orig.subrange(out@.len() as int, orig.len() as int));
            lemma_seq_height_suffix(orig, out@.len() as int);
        }
    }
    proof {
        assert(orig.subrange(0, orig.len() as int) =~= orig);
        assert(nodes_model(out@) =~= with_restrictions_seq(orig));
    }
    let result_max: Option<i128> = if all_with_max {
        Option::Some(total_max)
    } else {
        Option::None
    };
    (out, total_min, result_max)
}

// ---------------------------------------------------------------------------
// Target value allocation
// ---------------------------------------------------------------------------

/// The bounds stored in a tree are exactly the propagated restriction
/// bounds.  The allocator relies on this: for an instrument it means a
/// defined ceiling or a positive floor always equals the current value, so
/// clamping to it keeps trades on whole lots.
pub open spec fn restriction_bounds_set_node(m: NodeModel) -> bool
    decreases m,
{
    &&& m.min == spec_min_value(m)
    &&& m.max == spec_max_value(m)
    &&& match m.holding {
        HoldingModel::Group { children } => restriction_bounds_set_nodes(children),
        HoldingModel::Stock { .. } => true,
    }
}

/// [`restriction_bounds_set_node`] over a forest.
pub open spec fn restriction_bounds_set_nodes(s: Seq<NodeModel>) -> bool
    decreases s,
{
    if s.len() == 0 {
        true
    } else {
        restriction_bounds_set_node(s[0]) && restriction_bounds_set_nodes(
            s.subrange(1, s.len() as int),
        )
    }
}

/// Pointwise reading of [`restriction_bounds_set_nodes`].
pub broadcast proof fn lemma_restriction_bounds_set_nodes(s: Seq<NodeModel>)
    requires
        #[trigger] restriction_bounds_set_nodes(s),
    ensures
        forall|i: int| 0 <= i < s.len() ==> restriction_bounds_set_node(#[trigger] s[i]),
    decreases s,
{
    if s.len() > 0 {
        lemma_restriction_bounds_set_nodes(s.subrange(1, s.len() as int));
        assert forall|i: int| 0 <= i < s.len() implies restriction_bounds_set_node(
            #[trigger] s[i],
        ) by {
            if i > 0 {
                assert(s[i] == s.subrange(1, s.len() as int)[i - 1]);
            }
        }
    }
}

/// The propagation pass establishes [`restriction_bounds_set_nodes`].
pub proof fn lemma_with_restrictions_sets_bounds(s: Seq<NodeModel>)
    ensures
        restriction_bounds_set_nodes(with_restrictions_seq(s)),
    decreases s,
{
    if s.len() > 0 {
        let tail = s.subrange(1, s.len() as int);
        let w = with_restrictions_seq(s);
        lemma_with_restrictions_sets_bounds_node(s[0]);
        lemma_with_restrictions_sets_bounds(tail);
        assert(w == seq![with_restrictions(s[0])] + with_restrictions_seq(tail));
        assert(w[0] == with_restrictions(s[0]));
        assert(w.subrange(1, w.len() as int) =~= with_restrictions_seq(tail));
    }
}

/// [`lemma_with_restrictions_sets_bounds`] for a single node.
pub proof fn lemma_with_restrictions_sets_bounds_node(m: NodeModel)
    ensures
        restriction_bounds_set_node(with_restrictions(m)),
    decreases m,
{
    lemma_restrictions_invariant_min_max(m);
    match m.holding {
        HoldingModel::Stock { .. } => {},
        HoldingModel::Group { children } => {
            lemma_with_restrictions_sets_bounds(children);
        },
    }
}

/// A node with only its target value replaced.
pub open spec fn retarget(m: NodeModel, t: int) -> NodeModel {
    NodeModel { target: t, ..m }
}

/// A node with its target value and blocked flags replaced.
pub open spec fn reflag(m: NodeModel, t: int, buy_blocked: bool, sell_blocked: bool) -> NodeModel {
    NodeModel { target: t, buy_blocked, sell_blocked, ..m }
}

/// The node's target respects its hard bounds.
pub open spec fn in_bounds_node(m: NodeModel) -> bool {
    &&& m.min <= m.target
    &&& match m.max {
        Option::Some(x) => m.target <= x,
        Option::None => true,
    }
}

/// An instrument's target only differs from its current value by whole lots.
pub open spec fn lot_aligned_node(m: NodeModel) -> bool {
    match m.holding {
        HoldingModel::Stock { price } => (m.target - m.current) % price == 0,
        HoldingModel::Group { .. } => true,
    }
}

/// Step 2 of the allocation pass: a desired trade is snapped to whole lots
/// for instruments, and dropped entirely when it stays under the minimum
/// trade volume.
pub open spec fn spec_rounded_target(m: NodeModel, mtv: int) -> int {
    let diff = match m.holding {
        HoldingModel::Stock { price } => round_div(m.target - m.current, price) * price,
        HoldingModel::Group { .. } => m.target - m.current,
    };
    if -mtv < diff < mtv {
        m.current
    } else {
        m.current + diff
    }
}

/// A node's weight-proportional share of a group total, rounded to a whole
/// unit.
pub open spec fn spec_weight_share(m: NodeModel, total: int) -> int {
    round_div(total * m.weight, WEIGHT_SCALE as int)
}

/// A node's target after the weight split and the lot rounding, before any
/// clamping.
pub open spec fn spec_preclamp_target(m: NodeModel, total: int, mtv: int) -> int {
    spec_rounded_target(retarget(m, spec_weight_share(m, total)), mtv)
}

/// Whether step 3 caps this node: its rounded target exceeds its ceiling.
pub open spec fn spec_buy_clamp(m: NodeModel, total: int, mtv: int) -> bool {
    match m.max {
        Option::Some(x) => spec_preclamp_target(m, total, mtv) > x,
        Option::None => false,
    }
}

/// The target after the ceiling clamp of step 3.
pub open spec fn spec_max_clamped_target(m: NodeModel, total: int, mtv: int) -> int {
    if spec_buy_clamp(m, total, mtv) {
        m.max->Some_0
    } else {
        spec_preclamp_target(m, total, mtv)
    }
}

/// Whether step 4 lifts this node: its capped target is under its floor.
pub open spec fn spec_sell_clamp(m: NodeModel, total: int, mtv: int) -> bool {
    spec_max_clamped_target(m, total, mtv) < m.min
}

/// The target after all four deterministic steps: weight split, lot
/// rounding, ceiling clamp, floor clamp.  Redistribution only moves targets
/// away from these values when their sum misses the group's total.
pub open spec fn spec_clamped_target(m: NodeModel, total: int, mtv: int) -> int {
    if spec_sell_clamp(m, total, mtv) {
        m.min
    } else {
        spec_max_clamped_target(m, total, mtv)
    }
}

/// Sum of [`spec_clamped_target`] over a forest.
pub open spec fn sum_clamped(s: Seq<NodeModel>, total: int, mtv: int) -> int
    decreases s,
{
    if s.len() == 0 {
        0
    } else {
        spec_clamped_target(s[0], total, mtv) + sum_clamped(
            s.subrange(1, s.len() as int),
            total,
            mtv,
        )
    }
}

/// A forest whose targets sit at their clamped values sums to the clamped
/// sum.
pub proof fn lemma_sum_clamped_agrees(
    s1: Seq<NodeModel>,
    s2: Seq<NodeModel>,
    total: int,
    mtv: int,
)
    requires
        s1.len() == s2.len(),
        forall|i: int| 0 <= i < s1.len() ==> #[trigger] s2[i].target == spec_clamped_target(
            s1[i],
            total,
            mtv,
        ),
    ensures
        sum_targets(s2) == sum_clamped(s1, total, mtv),
    decreases s1,
{
    if s1.len() > 0 {
        let t1 = s1.subrange(1, s1.len() as int);
        let t2 = s2.subrange(1, s2.len() as int);
        assert(forall|i: int| 0 <= i < t1.len() ==> #[trigger] t1[i] == s1[i + 1] && t2[i]
            == s2[i + 1]);
        lemma_sum_clamped_agrees(t1, t2, total, mtv);
        assert(sum_targets(s2) == s2[0].target + sum_targets(t2));
    }
}

/// Step 1: every node's initial target is its weight-proportional share of
/// the group's total, rounded to a whole unit; the rounding remainder is
/// returned as the opening balance so that targets plus balance equal the
/// total exactly.
fn init_targets(assets: &mut Vec<AssetAllocation>, total: i128) -> (balance: i128)
    requires
        wf_nodes(nodes_model(old(assets)@)),
        0 <= total <= TARGET_CAP,
    ensures
        final(assets)@.len() == old(assets)@.len(),
        forall|i: int| 0 <= i < old(assets)@.len() ==> nodes_model(final(assets)@)[i] == retarget(
            nodes_model(old(assets)@)[i],
            round_div(total * nodes_model(old(assets)@)[i].weight, WEIGHT_SCALE as int),
        ),
        forall|i: int| 0 <= i < old(assets)@.len() ==> 0 <= #[trigger] nodes_model(
            final(assets)@,
        )[i].target <= total,
        sum_targets(nodes_model(final(assets)@)) + balance == total,
{
    let ghost orig = nodes_model(old(assets)@);
    let n = assets.len();
    let mut balance: i128 = total;
    let mut i: usize = 0;
    while i < n
        invariant
            n == old(assets)@.len(),
            assets@.len() == n,
            orig == nodes_model(old(assets)@),
            wf_nodes(orig),
            0 <= total <= TARGET_CAP,
            0 <= i <= n,
            forall|j: int| i <= j < n ==> nodes_model(assets@)[j] == orig[j],
            forall|j: int| 0 <= j < i ==> nodes_model(assets@)[j] == retarget(
                orig[j],
                round_div(total * orig[j].weight, WEIGHT_SCALE as int),
            ),
            forall|j: int| 0 <= j < i ==> 0 <= #[trigger] nodes_model(assets@)[j].target
                <= total,
            sum_targets(nodes_model(assets@).subrange(0, i as int)) + balance == total,
            total - (i as int) * (TARGET_CAP as int) <= balance <= total,
        decreases n - i,
    {
        let ghost before = nodes_model(assets@);
        let w = assets[i].expected_weight;
        proof {
            assert(before[i as int] == orig[i as int]);
            assert(wf_node(orig[i as int]));
            lemma_weight_share_bounds(total as int, w as int);
            assert(total * w <= TARGET_CAP * WEIGHT_SCALE) by (nonlinear_arith)
                requires 0 <= total <= TARGET_CAP && 0 <= w <= WEIGHT_SCALE;
            assert(total * w >= 0) by (nonlinear_arith)
                requires total >= 0 && w >= 0;
        }
        let t = round_div_i128(total * w, WEIGHT_SCALE);
        let a = &mut assets[i];
        a.target_value = t;
        proof {
            assert(assets@[i as int]@ == retarget(orig[i as int], t as int));
            assert forall|j: int| 0 <= j < n implies nodes_model(assets@)[j] == (if j == i {
                retarget(orig[j], round_div(total * orig[j].weight, WEIGHT_SCALE as int))
            } else {
                before[j]
            }) by {
                assert(nodes_model(assets@)[j] == assets@[j]@);
            }
            let pre = nodes_model(assets@).subrange(0, i as int);
            let post = nodes_model(assets@).subrange(0, i + 1);
            assert(pre.push(nodes_model(assets@)[i as int]) =~= post);
            lemma_sum_targets_push(pre, nodes_model(assets@)[i as int]);
            assert(pre =~= before.subrange(0, i as int));
        }
        balance = balance - t;
        i = i + 1;
    }
    proof {
        assert(nodes_model(assets@).subrange(0, n as int) =~= nodes_model(assets@));
    }
    balance
}

/// Where the rounded target can land: at the current value, or within one
/// lot of the desired target.
pub proof fn lemma_rounded_target_bounds(m: NodeModel, mtv: int)
    requires
        wf_node(m),
        0 <= m.target,
    ensures
        -(VALUE_LIMIT as int) <= spec_rounded_target(m, mtv) <= m.target + VALUE_LIMIT,
        lot_aligned_node(retarget(m, spec_rounded_target(m, mtv))),
{
    match m.holding {
        HoldingModel::Stock { price } => {
            let diff0 = m.target - m.current;
            lemma_round_div_bounds(diff0, price);
            let lots = round_div(diff0, price);
            let diff = lots * price;
            vstd::arithmetic::div_mod::lemma_mod_multiples_basic(lots, price);
            assert((m.current + diff - m.current) % price == 0);
            assert((m.current - m.current) % price == 0) by {
                vstd::arithmetic::div_mod::lemma_mod_multiples_basic(0, price);
            }
        },
        HoldingModel::Group { .. } => {},
    }
}

/// Step 2 of the allocation pass: snap every desired trade to whole lots
/// (instruments only) and drop trades under the minimum volume.  Returns the
/// amount by which the targets shrank, so that targets plus the adjusted
/// balance still add up to the same total.
fn round_targets(assets: &mut Vec<AssetAllocation>, min_trade_volume: i128) -> (delta: i128)
    requires
        wf_nodes(nodes_model(old(assets)@)),
        0 <= min_trade_volume <= VALUE_LIMIT,
        forall|i: int| 0 <= i < old(assets)@.len() ==> 0 <= #[trigger] nodes_model(
            old(assets)@,
        )[i].target <= TARGET_CAP,
    ensures
        final(assets)@.len() == old(assets)@.len(),
        forall|i: int| 0 <= i < old(assets)@.len() ==> nodes_model(final(assets)@)[i] == retarget(
            nodes_model(old(assets)@)[i],
            spec_rounded_target(nodes_model(old(assets)@)[i], min_trade_volume as int),
        ),
        sum_targets(nodes_model(final(assets)@)) + delta == sum_targets(
            nodes_model(old(assets)@),
        ),
{
    let ghost orig = nodes_model(old(assets)@);
    let n = assets.len();
    let mut delta: i128 = 0;
    let mut i: usize = 0;
    while i < n
        invariant
            n == old(assets)@.len(),
            assets@.len() == n,
            orig == nodes_model(old(assets)@),
            wf_nodes(orig),
            0 <= min_trade_volume <= VALUE_LIMIT,
            forall|j: int| 0 <= j < n ==> 0 <= #[trigger] orig[j].target <= TARGET_CAP,
            0 <= i <= n,
            forall|j: int| i <= j < n ==> nodes_model(assets@)[j] == orig[j],
            forall|j: int| 0 <= j < i ==> nodes_model(assets@)[j] == retarget(
                orig[j],
                spec_rounded_target(orig[j], min_trade_volume as int),
            ),
            sum_targets(nodes_model(assets@).subrange(0, i as int)) + delta == sum_targets(
                orig.subrange(0, i as int),
            ),
            -(i as int) * 2_000_000_000_000_000_000 <= delta <= (i as int)
                * 2_000_000_000_000_000_000,
        decreases n - i,
    {
        let ghost before = nodes_model(assets@);
        proof {
            assert(before[i as int] == orig[i as int]);
            assert(assets@[i as int]@ == orig[i as int]);
            assert(wf_node(orig[i as int]));
            lemma_rounded_target_bounds(orig[i as int], min_trade_volume as int);
        }
        let c = assets[i].current_value;
        let t0 = assets[i].target_value;
        proof {
            assert(c as int == orig[i as int].current);
            assert(t0 as int == orig[i as int].target);
        }
        let mut diff = t0 - c;
        match &assets[i].holding {
            Holding::Stock(h) => {
                proof {
                    assert(orig[i as int].holding == HoldingModel::Stock {
                        price: h.price as int,
                    });
                    lemma_round_div_bounds(diff as int, h.price as int);
                }
                let lots = round_div_i128(diff, h.price);
                diff = lots * h.price;
            },
            Holding::Group(_) => {},
        }
        if -min_trade_volume < diff && diff < min_trade_volume {
            diff = 0;
        }
        let t1 = c + diff;
        proof {
            assert(t1 as int == spec_rounded_target(orig[i as int], min_trade_volume as int));
        }
        let ghost head = assets@;
        let a = &mut assets[i];
        a.target_value = t1;
        proof {
            assert(assets@[i as int]@ == retarget(
                orig[i as int],
                spec_rounded_target(orig[i as int], min_trade_volume as int),
            ));
            assert forall|j: int| 0 <= j < n implies nodes_model(assets@)[j] == (if j == i {
                retarget(orig[j], spec_rounded_target(orig[j], min_trade_volume as int))
            } else {
                before[j]
            }) by {
                assert(nodes_model(assets@)[j] == assets@[j]@);
                if j != i {
                    assert(assets@[j] == head[j]);
                    assert(nodes_model(head)[j] == head[j]@);
                    assert(before[j] == nodes_model(head)[j]);
                }
            }
            let pre = nodes_model(assets@).subrange(0, i as int);
            let post = nodes_model(assets@).subrange(0, i + 1);
            assert(pre.push(nodes_model(assets@)[i as int]) =~= post);
            lemma_sum_targets_push(pre, nodes_model(assets@)[i as int]);
            assert(pre =~= before.subrange(0, i as int));
            assert(orig.subrange(0, i as int).push(orig[i as int]) =~= orig.subrange(0, i + 1));
            lemma_sum_targets_push(orig.subrange(0, i as int), orig[i as int]);
        }
        proof {
            assert(0 <= t0 <= TARGET_CAP);
            assert(-(VALUE_LIMIT as int) <= t1 as int <= t0 as int + VALUE_LIMIT);
        }
        delta = delta + (t0 - t1);
        i = i + 1;
    }
    proof {
        assert(nodes_model(assets@).subrange(0, n as int) =~= nodes_model(assets@));
        assert(orig.subrange(0, n as int) =~= orig);
    }
    delta
}

/// Step 3: cap every target at its hard maximum, marking capped nodes as
/// blocked for buying; the excess is returned for redistribution.
fn clamp_to_max(assets: &mut Vec<AssetAllocation>) -> (delta: i128)
    requires
        forall|i: int| 0 <= i < old(assets)@.len() ==> -(VALUE_LIMIT as int) <= #[trigger]
        nodes_model(old(assets)@)[i].target <= TARGET_CAP + VALUE_LIMIT,
        forall|i: int| 0 <= i < old(assets)@.len() ==> bounds_wf_node(
            #[trigger] nodes_model(old(assets)@)[i],
        ),
    ensures
        final(assets)@.len() == old(assets)@.len(),
        forall|i: int| 0 <= i < old(assets)@.len() ==> nodes_model(final(assets)@)[i] == (
        if clamp_max_applies(nodes_model(old(assets)@)[i]) {
            reflag(
                nodes_model(old(assets)@)[i],
                nodes_model(old(assets)@)[i].max->Some_0,
                true,
                nodes_model(old(assets)@)[i].sell_blocked,
            )
        } else {
            nodes_model(old(assets)@)[i]
        }),
        sum_targets(nodes_model(final(assets)@)) + delta == sum_targets(
            nodes_model(old(assets)@),
        ),
        delta >= 0,
{
    let ghost orig = nodes_model(old(assets)@);
    let n = assets.len();
    let mut delta: i128 = 0;
    let mut i: usize = 0;
    while i < n
        invariant
            n == old(assets)@.len(),
            assets@.len() == n,
            orig == nodes_model(old(assets)@),
            forall|j: int| 0 <= j < n ==> -(VALUE_LIMIT as int) <= #[trigger] orig[j].target
                <= TARGET_CAP + VALUE_LIMIT,
            forall|j: int| 0 <= j < n ==> bounds_wf_node(#[trigger] orig[j]),
            0 <= i <= n,
            forall|j: int| i <= j < n ==> nodes_model(assets@)[j] == orig[j],
            forall|j: int| 0 <= j < i ==> nodes_model(assets@)[j] == (
            if clamp_max_applies(orig[j]) {
                reflag(orig[j], orig[j].max->Some_0, true, orig[j].sell_blocked)
            } else {
                orig[j]
            }),
            sum_targets(nodes_model(assets@).subrange(0, i as int)) + delta == sum_targets(
                orig.subrange(0, i as int),
            ),
            0 <= delta <= (i as int) * 2_000_000_000_000_000_000,
        decreases n - i,
    {
        let ghost before = nodes_model(assets@);
        proof {
            assert(before[i as int] == orig[i as int]);
        }
        proof {
            assert(assets@[i as int]@ == orig[i as int]);
        }
        let t0 = assets[i].target_value;
        let mxo = assets[i].max_value;
        proof {
            assert(t0 as int == orig[i as int].target);
            assert(bounds_wf_node(orig[i as int]));
        }
        let ghost head = assets@;
        match mxo {
            Option::Some(mx) => {
                proof {
                    assert(orig[i as int].max == Option::Some(mx as int));
                }
                if t0 > mx {
                    proof {
                        assert(0 <= mx as int);
                        assert(t0 <= TARGET_CAP + VALUE_LIMIT);
                    }
                    delta = delta + (t0 - mx);
                    let a = &mut assets[i];
                    a.target_value = mx;
                    a.buy_blocked = true;
                }
            },
            Option::None => {},
        }
        proof {
            if clamp_max_applies(orig[i as int]) {
                assert(assets@[i as int]@ == reflag(
                    orig[i as int],
                    orig[i as int].max->Some_0,
                    true,
                    orig[i as int].sell_blocked,
                ));
            } else {
                assert(assets@[i as int]@ == orig[i as int]);
            }
            assert forall|j: int| 0 <= j < n implies nodes_model(assets@)[j] == (if j == i {
                if clamp_max_applies(orig[j]) {
                    reflag(orig[j], orig[j].max->Some_0, true, orig[j].sell_blocked)
                } else {
                    orig[j]
                }
            } else {
                before[j]
            }) by {
                assert(nodes_model(assets@)[j] == assets@[j]@);
                if j != i {
                    assert(assets@[j] == head[j]);
                    assert(nodes_model(head)[j] == head[j]@);
                    assert(before[j] == nodes_model(head)[j]);
                }
            }
            let pre = nodes_model(assets@).subrange(0, i as int);
            let post = nodes_model(assets@).subrange(0, i + 1);
            assert(pre.push(nodes_model(assets@)[i as int]) =~= post);
            lemma_sum_targets_push(pre, nodes_model(assets@)[i as int]);
            assert(pre =~= before.subrange(0, i as int));
            assert(orig.subrange(0, i as int).push(orig[i as int]) =~= orig.subrange(0, i + 1));
            lemma_sum_targets_push(orig.subrange(0, i as int), orig[i as int]);
        }
        i = i + 1;
    }
    proof {
        assert(nodes_model(assets@).subrange(0, n as int) =~= nodes_model(assets@));
        assert(orig.subrange(0, n as int) =~= orig);
    }
    delta
}

/// Whether step 3 caps this node.
pub open spec fn clamp_max_applies(m: NodeModel) -> bool {
    match m.max {
        Option::Some(x) => m.target > x,
        Option::None => false,
    }
}

/// Whether step 4 lifts this node.
pub open spec fn clamp_min_applies(m: NodeModel) -> bool {
    m.target < m.min
}

/// Step 4: lift every target to its hard minimum, marking lifted nodes as
/// blocked for selling; the (negative) deficit is returned for
/// redistribution.
fn clamp_to_min(assets: &mut Vec<AssetAllocation>) -> (delta: i128)
    requires
        forall|i: int| 0 <= i < old(assets)@.len() ==> -(VALUE_LIMIT as int) <= #[trigger]
        nodes_model(old(assets)@)[i].target <= TARGET_CAP + VALUE_LIMIT,
        forall|i: int| 0 <= i < old(assets)@.len() ==> bounds_wf_node(
            #[trigger] nodes_model(old(assets)@)[i],
        ),
    ensures
        final(assets)@.len() == old(assets)@.len(),
        forall|i: int| 0 <= i < old(assets)@.len() ==> nodes_model(final(assets)@)[i] == (
        if clamp_min_applies(nodes_model(old(assets)@)[i]) {
            reflag(
                nodes_model(old(assets)@)[i],
                nodes_model(old(assets)@)[i].min,
                nodes_model(old(assets)@)[i].buy_blocked,
                true,
            )
        } else {
            nodes_model(old(assets)@)[i]
        }),
        sum_targets(nodes_model(final(assets)@)) + delta == sum_targets(
            nodes_model(old(assets)@),
        ),
        delta <= 0,
{
    let ghost orig = nodes_model(old(assets)@);
    let n = assets.len();
    let mut delta: i128 = 0;
    let mut i: usize = 0;
    while i < n
        invariant
            n == old(assets)@.len(),
            assets@.len() == n,
            orig == nodes_model(old(assets)@),
            forall|j: int| 0 <= j < n ==> -(VALUE_LIMIT as int) <= #[trigger] orig[j].target
                <= TARGET_CAP + VALUE_LIMIT,
            forall|j: int| 0 <= j < n ==> bounds_wf_node(#[trigger] orig[j]),
            0 <= i <= n,
            forall|j: int| i <= j < n ==> nodes_model(assets@)[j] == orig[j],
            forall|j: int| 0 <= j < i ==> nodes_model(assets@)[j] == (
            if clamp_min_applies(orig[j]) {
                reflag(orig[j], orig[j].min, orig[j].buy_blocked, true)
            } else {
                orig[j]
            }),
            sum_targets(nodes_model(assets@).subrange(0, i as int)) + delta == sum_targets(
                orig.subrange(0, i as int),
            ),
            -(i as int) * 2_000_000_000_000_000_000 <= delta <= 0,
        decreases n - i,
    {
        let ghost before = nodes_model(assets@);
        proof {
            assert(before[i as int] == orig[i as int]);
        }
        proof {
            assert(assets@[i as int]@ == orig[i as int]);
        }
        let t0 = assets[i].target_value;
        let mn = assets[i].min_value;
        proof {
            assert(t0 as int == orig[i as int].target);
            assert(mn as int == orig[i as int].min);
            assert(bounds_wf_node(orig[i as int]));
        }
        let ghost head = assets@;
        if t0 < mn {
            proof {
                assert(-(VALUE_LIMIT as int) <= t0 as int);
                assert(0 <= mn as int <= VALUE_LIMIT);
            }
            delta = delta + (t0 - mn);
            let a = &mut assets[i];
            a.target_value = mn;
            a.sell_blocked = true;
        }
        proof {
            if clamp_min_applies(orig[i as int]) {
                assert(assets@[i as int]@ == reflag(
                    orig[i as int],
                    orig[i as int].min,
                    orig[i as int].buy_blocked,
                    true,
                ));
            } else {
                assert(assets@[i as int]@ == orig[i as int]);
            }
            assert forall|j: int| 0 <= j < n implies nodes_model(assets@)[j] == (if j == i {
                if clamp_min_applies(orig[j]) {
                    reflag(orig[j], orig[j].min, orig[j].buy_blocked, true)
                } else {
                    orig[j]
                }
            } else {
                before[j]
            }) by {
                assert(nodes_model(assets@)[j] == assets@[j]@);
                if j != i {
                    assert(assets@[j] == head[j]);
                    assert(nodes_model(head)[j] == head[j]@);
                    assert(before[j] == nodes_model(head)[j]);
                }
            }
            let pre = nodes_model(assets@).subrange(0, i as int);
            let post = nodes_model(assets@).subrange(0, i + 1);
            assert(pre.push(nodes_model(assets@)[i as int]) =~= post);
            lemma_sum_targets_push(pre, nodes_model(assets@)[i as int]);
            assert(pre =~= before.subrange(0, i as int));
            assert(orig.subrange(0, i as int).push(orig[i as int]) =~= orig.subrange(0, i + 1));
            lemma_sum_targets_push(orig.subrange(0, i as int), orig[i as int]);
        }
        i = i + 1;
    }
    proof {
        assert(nodes_model(assets@).subrange(0, n as int) =~= nodes_model(assets@));
        assert(orig.subrange(0, n as int) =~= orig);
    }
    delta
}

/// Smallest amount a redistribution step may move for a node: the minimum
/// trade volume rounded up to whole lots for an instrument, the minimum trade
/// volume itself for a group — and never less than one currency unit (one
/// lot), so a step always makes progress.
pub open spec fn spec_trade_unit(m: NodeModel, mtv: int) -> int {
    match m.holding {
        HoldingModel::Stock { price } => if ceil_div(mtv, price) >= 1 {
            ceil_div(mtv, price) * price
        } else {
            price
        },
        HoldingModel::Group { .. } => if mtv >= 1 {
            mtv
        } else {
            1
        },
    }
}

/// A trade unit is at least one currency unit, at most the minimum trade
/// volume plus one lot, and a whole number of lots for an instrument.
pub proof fn lemma_trade_unit_bounds(m: NodeModel, mtv: int)
    requires
        wf_node(m),
        0 <= mtv <= VALUE_LIMIT,
    ensures
        1 <= spec_trade_unit(m, mtv) <= 2_000_000_000_000_000,
        match m.holding {
            HoldingModel::Stock { price } => spec_trade_unit(m, mtv) % price == 0,
            HoldingModel::Group { .. } => true,
        },
{
    match m.holding {
        HoldingModel::Stock { price } => {
            lemma_ceil_div_bounds(mtv, price);
            let lots = ceil_div(mtv, price);
            if lots >= 1 {
                vstd::arithmetic::div_mod::lemma_mod_multiples_basic(lots, price);
                assert(lots * price >= 1 * price) by (nonlinear_arith)
                    requires lots >= 1 && price > 0;
            } else {
                vstd::arithmetic::div_mod::lemma_mod_multiples_basic(1, price);
                assert(price % price == 0) by {
                    assert(1 * price == price) by (nonlinear_arith);
                }
            }
        },
        HoldingModel::Group { .. } => {},
    }
}

/// The trade unit only reads the node's price or kind, which a frame keeps.
pub proof fn lemma_trade_unit_frame(a: NodeModel, b: NodeModel, mtv: int)
    requires
        same_frame(a, b),
    ensures
        spec_trade_unit(a, mtv) == spec_trade_unit(b, mtv),
{
}

/// Moving a whole number of lots keeps an instrument's trade on whole lots.
pub proof fn lemma_lot_step(t: int, c: int, u: int, p: int)
    requires
        p > 0,
        (t - c) % p == 0,
        u % p == 0,
    ensures
        (t - u - c) % p == 0,
        (t + u - c) % p == 0,
{
    vstd::arithmetic::div_mod::lemma_sub_mod_noop(t - c, u, p);
    vstd::arithmetic::div_mod::lemma_add_mod_noop(t - c, u, p);
    vstd::arithmetic::div_mod::lemma_mod_multiples_basic(0, p);
    assert(0 * p == 0) by (nonlinear_arith);
    assert((t - c - u) % p == 0);
    assert(t - c - u == t - u - c);
    assert(t - c + u == t + u - c);
}

/// A forest whose targets are all within a range has a bounded sum.
pub proof fn lemma_sum_targets_range(s: Seq<NodeModel>)
    requires
        forall|j: int| 0 <= j < s.len() ==> -2_000_000_000_000_000_000 <= #[trigger] s[j].target
            <= 2_000_000_000_000_000_000,
    ensures
        -(s.len() as int) * 2_000_000_000_000_000_000 <= sum_targets(s) <= (s.len() as int)
            * 2_000_000_000_000_000_000,
    decreases s,
{
    if s.len() > 0 {
        let tail = s.subrange(1, s.len() as int);
        assert(forall|j: int| 0 <= j < tail.len() ==> #[trigger] tail[j] == s[j + 1]);
        lemma_sum_targets_range(tail);
    }
}

/// Executable form of [`spec_trade_unit`].
fn trade_unit(asset: &AssetAllocation, min_trade_volume: i128) -> (u: i128)
    requires
        wf_node(asset@),
        0 <= min_trade_volume <= VALUE_LIMIT,
    ensures
        u as int == spec_trade_unit(asset@, min_trade_volume as int),
        1 <= u <= 2_000_000_000_000_000,
{
    proof {
        lemma_trade_unit_bounds(asset@, min_trade_volume as int);
    }
    match &asset.holding {
        Holding::Stock(h) => {
            proof {
                lemma_ceil_div_bounds(min_trade_volume as int, h.price as int);
            }
            let lots = ceil_div_i128(min_trade_volume, h.price);
            if lots >= 1 {
                lots * h.price
            } else {
                h.price
            }
        },
        Holding::Group(_) => {
            if min_trade_volume >= 1 {
                min_trade_volume
            } else {
                1
            }
        },
    }
}

/// Step 5, selling half: while the balance is negative (the children were
/// promised more than the group holds), repeatedly take one trade unit away
/// from the child whose lowered target stays proportionally largest against
/// its ideal share.  A child whose lowered target would cross its floor drops
/// out.  Impact ratios — the candidate target against its weight-implied
/// ideal share — are compared by cross-multiplication, where the group's
/// positive total cancels; ties resolve to the lowest index.
fn redistribute_sell(
    assets: &mut Vec<AssetAllocation>,
    min_trade_volume: i128,
    balance_in: i128,
) -> (balance: i128)
    requires
        wf_nodes(nodes_model(old(assets)@)),
        0 <= min_trade_volume <= VALUE_LIMIT,
        -50_000_000_000_000_000_000_000_000_000_000_000_000 <= balance_in
            <= 2_000_000_000_000_000_000,
        forall|i: int| 0 <= i < old(assets)@.len() ==> 0 <= #[trigger] nodes_model(
            old(assets)@,
        )[i].min <= nodes_model(old(assets)@)[i].target <= 2_000_000_000_000_000_000,
    ensures
        final(assets)@.len() == old(assets)@.len(),
        forall|i: int| 0 <= i < old(assets)@.len() ==> nodes_model(final(assets)@)[i]
            == retarget(
            nodes_model(old(assets)@)[i],
            nodes_model(final(assets)@)[i].target,
        ),
        forall|i: int| 0 <= i < old(assets)@.len() ==> nodes_model(old(assets)@)[i].min
            <= #[trigger] nodes_model(final(assets)@)[i].target <= nodes_model(
            old(assets)@,
        )[i].target,
        forall|i: int| 0 <= i < old(assets)@.len() ==> (lot_aligned_node(
            nodes_model(old(assets)@)[i],
        ) ==> lot_aligned_node(#[trigger] nodes_model(final(assets)@)[i])),
        sum_targets(nodes_model(final(assets)@)) + balance == sum_targets(
            nodes_model(old(assets)@),
        ) + balance_in,
        balance_in <= balance,
        balance_in >= 0 ==> balance == balance_in && nodes_model(final(assets)@) == nodes_model(
            old(assets)@,
        ),
        balance <= 2_000_000_000_000_000_000,
        balance < 0 ==> forall|i: int| 0 <= i < old(assets)@.len() ==> (#[trigger] nodes_model(
            final(assets)@,
        )[i]).target - spec_trade_unit(nodes_model(final(assets)@)[i], min_trade_volume as int)
            < nodes_model(final(assets)@)[i].min,
{
    let ghost orig = nodes_model(old(assets)@);
    let n = assets.len();
    let mut balance: i128 = balance_in;
    let mut correctable: Vec<bool> = Vec::new();
    let mut k: usize = 0;
    while k < n
        invariant
            correctable@.len() == k,
            0 <= k <= n,
            forall|i: int| 0 <= i < k ==> correctable@[i] == true,
        decreases n - k,
    {
        correctable.push(true);
        k = k + 1;
    }
    let mut stalled = false;
    while balance < 0 && !stalled
        invariant
            n == old(assets)@.len(),
            assets@.len() == n,
            correctable@.len() == n,
            orig == nodes_model(old(assets)@),
            wf_nodes(orig),
            0 <= min_trade_volume <= VALUE_LIMIT,
            forall|i: int| 0 <= i < n ==> 0 <= #[trigger] orig[i].min <= orig[i].target
                <= 2_000_000_000_000_000_000,
            forall|i: int| 0 <= i < n ==> nodes_model(assets@)[i] == retarget(
                orig[i],
                nodes_model(assets@)[i].target,
            ),
            forall|i: int| 0 <= i < n ==> orig[i].min <= #[trigger] nodes_model(
                assets@,
            )[i].target <= orig[i].target,
            forall|i: int| 0 <= i < n ==> (lot_aligned_node(orig[i]) ==> lot_aligned_node(
                #[trigger] nodes_model(assets@)[i],
            )),
            forall|i: int| 0 <= i < n && !correctable@[i] ==> (#[trigger] nodes_model(
                assets@,
            )[i]).target - spec_trade_unit(nodes_model(assets@)[i], min_trade_volume as int)
                < nodes_model(assets@)[i].min,
            stalled ==> forall|i: int| 0 <= i < n ==> (#[trigger] nodes_model(assets@)[i]).target
                - spec_trade_unit(nodes_model(assets@)[i], min_trade_volume as int)
                < nodes_model(assets@)[i].min,
            sum_targets(nodes_model(assets@)) + balance == sum_targets(orig) + balance_in,
            balance_in <= balance,
            balance_in >= 0 ==> balance == balance_in && nodes_model(assets@) == orig,
            balance <= 2_000_000_000_000_000_000,
        decreases vstd::math::max(-(balance as int), 0), (if stalled { 0int } else { 1int }),
    {
        let mut best_index: usize = 0;
        let mut best_unit: i128 = 0;
        let mut best_candidate: i128 = 0;
        let mut best_weight: i128 = 0;
        let mut have_best = false;
        let mut j: usize = 0;
        while j < n
            invariant
                n == old(assets)@.len(),
                assets@.len() == n,
                correctable@.len() == n,
                orig == nodes_model(old(assets)@),
                wf_nodes(orig),
                0 <= min_trade_volume <= VALUE_LIMIT,
                forall|i: int| 0 <= i < n ==> 0 <= #[trigger] orig[i].min <= orig[i].target
                    <= 2_000_000_000_000_000_000,
                forall|i: int| 0 <= i < n ==> nodes_model(assets@)[i] == retarget(
                    orig[i],
                    nodes_model(assets@)[i].target,
                ),
                forall|i: int| 0 <= i < n ==> orig[i].min <= #[trigger] nodes_model(
                    assets@,
                )[i].target <= orig[i].target,
                0 <= j <= n,
                forall|i: int| 0 <= i < n && !correctable@[i] ==> (#[trigger] nodes_model(
                    assets@,
                )[i]).target - spec_trade_unit(nodes_model(assets@)[i], min_trade_volume as int)
                    < nodes_model(assets@)[i].min,
                !have_best ==> forall|i: int| 0 <= i < j ==> !correctable@[i],
                have_best ==> best_index < n && correctable@[best_index as int]
                    && best_unit as int == spec_trade_unit(
                    nodes_model(assets@)[best_index as int],
                    min_trade_volume as int,
                ) && best_candidate as int == nodes_model(assets@)[best_index as int].target
                    - best_unit && best_candidate as int >= nodes_model(
                    assets@,
                )[best_index as int].min && best_weight as int == nodes_model(
                    assets@,
                )[best_index as int].weight && 1 <= best_unit <= 2_000_000_000_000_000,
            decreases n - j,
        {
            if correctable[j] {
                proof {
                    assert(nodes_model(assets@)[j as int] == assets@[j as int]@);
                    assert(wf_node(orig[j as int]));
                    assert(wf_node(nodes_model(assets@)[j as int]));
                }
                let unit = trade_unit(&assets[j], min_trade_volume);
                let candidate = assets[j].target_value - unit;
                if candidate < assets[j].min_value {
                    proof {
                        assert(candidate as int == nodes_model(assets@)[j as int].target
                            - spec_trade_unit(
                            nodes_model(assets@)[j as int],
                            min_trade_volume as int,
                        ));
                        assert((candidate as int) < nodes_model(assets@)[j as int].min);
                    }
                    correctable[j] = false;
                } else {
                    let w = assets[j].expected_weight;
                    proof {
                        assert(w as int == orig[j as int].weight);
                        assert(0 <= w <= WEIGHT_SCALE);
                        assert(0 <= candidate as int <= 2_000_000_000_000_000_000);
                    }
                    let mut replace = true;
                    if have_best {
                        proof {
                            assert(0 <= candidate as int * best_weight as int
                                <= 3_000_000_000_000_000_000_000_000_000) by (nonlinear_arith)
                                requires
                                    0 <= candidate as int <= 3_000_000_000_000_000_000,
                                    0 <= best_weight as int <= 1_000_000,
                            ;
                            assert(0 <= best_candidate as int * w as int
                                <= 3_000_000_000_000_000_000_000_000_000) by (nonlinear_arith)
                                requires
                                    0 <= best_candidate as int <= 3_000_000_000_000_000_000,
                                    0 <= w as int <= 1_000_000,
                            ;
                        }
                        replace = candidate * best_weight > best_candidate * w;
                    }
                    if replace {
                        best_index = j;
                        best_unit = unit;
                        best_candidate = candidate;
                        best_weight = w;
                        have_best = true;
                    }
                }
            }
            j = j + 1;
        }
        if !have_best {
            stalled = true;
        } else {
        let ghost head = assets@;
        let ghost before = nodes_model(assets@);
        let a = &mut assets[best_index];
        a.target_value = best_candidate;
        proof {
            assert(assets@[best_index as int]@ == retarget(
                before[best_index as int],
                best_candidate as int,
            ));
            assert forall|i: int| 0 <= i < n implies nodes_model(assets@)[i] == (
            if i == best_index {
                retarget(before[i], best_candidate as int)
            } else {
                before[i]
            }) by {
                assert(nodes_model(assets@)[i] == assets@[i]@);
                if i != best_index {
                    assert(assets@[i] == head[i]);
                    assert(nodes_model(head)[i] == head[i]@);
                }
            }
            assert(nodes_model(assets@) =~= before.update(
                best_index as int,
                retarget(before[best_index as int], best_candidate as int),
            ));
            lemma_sum_targets_update(
                before,
                best_index as int,
                retarget(before[best_index as int], best_candidate as int),
            );
            let bi = best_index as int;
            if lot_aligned_node(orig[bi]) {
                match orig[bi].holding {
                    HoldingModel::Stock { price } => {
                        lemma_trade_unit_bounds(before[bi], min_trade_volume as int);
                        lemma_lot_step(
                            before[bi].target,
                            before[bi].current,
                            best_unit as int,
                            price,
                        );
                    },
                    HoldingModel::Group { .. } => {},
                }
            }
        }
            balance = balance + best_unit;
        }
    }
    balance
}

/// Step 5, buying half: while the balance is positive (money is still
/// unplaced), repeatedly add one trade unit to the child whose raised target
/// is proportionally largest against its ideal share; a child whose raised
/// target would cross its ceiling drops out.
fn redistribute_buy(
    assets: &mut Vec<AssetAllocation>,
    target_total_value: i128,
    min_trade_volume: i128,
    balance_in: i128,
) -> (balance: i128)
    requires
        wf_nodes(nodes_model(old(assets)@)),
        0 <= min_trade_volume <= VALUE_LIMIT,
        0 <= target_total_value <= TARGET_CAP,
        -50_000_000_000_000_000_000_000_000_000_000_000_000 <= balance_in
            <= 50_000_000_000_000_000_000_000_000_000_000_000_000,
        sum_targets(nodes_model(old(assets)@)) + balance_in == target_total_value as int,
        forall|i: int| 0 <= i < old(assets)@.len() ==> 0 <= #[trigger] nodes_model(
            old(assets)@,
        )[i].min <= nodes_model(old(assets)@)[i].target <= 2_000_000_000_000_000_000,
        forall|i: int| 0 <= i < old(assets)@.len() ==> (match (#[trigger] nodes_model(
            old(assets)@,
        )[i]).max {
            Option::Some(x) => nodes_model(old(assets)@)[i].target <= x,
            Option::None => true,
        }),
        forall|i: int| 0 <= i < old(assets)@.len() ==> #[trigger] nodes_model(
            old(assets)@,
        )[i].target <= target_total_value + 2_000_000_000_000_000,
    ensures
        final(assets)@.len() == old(assets)@.len(),
        forall|i: int| 0 <= i < old(assets)@.len() ==> nodes_model(final(assets)@)[i]
            == retarget(
            nodes_model(old(assets)@)[i],
            nodes_model(final(assets)@)[i].target,
        ),
        forall|i: int| 0 <= i < old(assets)@.len() ==> nodes_model(old(assets)@)[i].min
            <= #[trigger] nodes_model(final(assets)@)[i].target,
        forall|i: int| 0 <= i < old(assets)@.len() ==> nodes_model(old(assets)@)[i].target
            <= #[trigger] nodes_model(final(assets)@)[i].target,
        forall|i: int| 0 <= i < old(assets)@.len() ==> (match nodes_model(old(assets)@)[i].max {
            Option::Some(x) => #[trigger] nodes_model(final(assets)@)[i].target <= x,
            Option::None => true,
        }),
        forall|i: int| 0 <= i < old(assets)@.len() ==> #[trigger] nodes_model(
            final(assets)@,
        )[i].target <= target_total_value + 2_000_000_000_000_000,
        forall|i: int| 0 <= i < old(assets)@.len() ==> (lot_aligned_node(
            nodes_model(old(assets)@)[i],
        ) ==> lot_aligned_node(#[trigger] nodes_model(final(assets)@)[i])),
        sum_targets(nodes_model(final(assets)@)) + balance == sum_targets(
            nodes_model(old(assets)@),
        ) + balance_in,
        balance <= balance_in,
        balance_in <= 0 ==> balance == balance_in && nodes_model(final(assets)@) == nodes_model(
            old(assets)@,
        ),
        balance >= -2_000_000_000_000_000 || balance == balance_in,
        balance > 0 ==> forall|i: int| 0 <= i < old(assets)@.len() ==> (match (#[trigger]
        nodes_model(final(assets)@)[i]).max {
            Option::Some(x) => nodes_model(final(assets)@)[i].target + spec_trade_unit(
                nodes_model(final(assets)@)[i],
                min_trade_volume as int,
            ) > x,
            Option::None => false,
        }),
{
    let ghost orig = nodes_model(old(assets)@);
    let n = assets.len();
    let mut balance: i128 = balance_in;
    let mut correctable: Vec<bool> = Vec::new();
    let mut k: usize = 0;
    while k < n
        invariant
            correctable@.len() == k,
            0 <= k <= n,
            forall|i: int| 0 <= i < k ==> correctable@[i] == true,
        decreases n - k,
    {
        correctable.push(true);
        k = k + 1;
    }
    let mut stalled = false;
    while balance > 0 && !stalled
        invariant
            n == old(assets)@.len(),
            assets@.len() == n,
            correctable@.len() == n,
            orig == nodes_model(old(assets)@),
            wf_nodes(orig),
            0 <= min_trade_volume <= VALUE_LIMIT,
            0 <= target_total_value <= TARGET_CAP,
            forall|i: int| 0 <= i < n ==> 0 <= #[trigger] orig[i].min <= orig[i].target
                <= 2_000_000_000_000_000_000,
            forall|i: int| 0 <= i < n ==> nodes_model(assets@)[i] == retarget(
                orig[i],
                nodes_model(assets@)[i].target,
            ),
            forall|i: int| 0 <= i < n ==> orig[i].min <= #[trigger] nodes_model(
                assets@,
            )[i].target,
            forall|i: int| 0 <= i < n ==> orig[i].target <= #[trigger] nodes_model(
                assets@,
            )[i].target,
            forall|i: int| 0 <= i < n ==> (match (#[trigger] orig[i]).max {
                Option::Some(x) => nodes_model(assets@)[i].target <= x,
                Option::None => true,
            }),
            forall|i: int| 0 <= i < n ==> (lot_aligned_node(orig[i]) ==> lot_aligned_node(
                #[trigger] nodes_model(assets@)[i],
            )),
            sum_targets(nodes_model(assets@)) + balance == sum_targets(orig) + balance_in,
            sum_targets(orig) + balance_in == target_total_value as int,
            balance <= balance_in,
            balance_in <= 0 ==> balance == balance_in && nodes_model(assets@) == orig,
            balance >= -2_000_000_000_000_000 || balance == balance_in,
            forall|i: int| 0 <= i < n ==> #[trigger] nodes_model(assets@)[i].target
                <= target_total_value + 2_000_000_000_000_000,
            forall|i: int| 0 <= i < n && !correctable@[i] ==> (match (#[trigger] nodes_model(
                assets@,
            )[i]).max {
                Option::Some(x) => nodes_model(assets@)[i].target + spec_trade_unit(
                    nodes_model(assets@)[i],
                    min_trade_volume as int,
                ) > x,
                Option::None => false,
            }),
            stalled ==> forall|i: int| 0 <= i < n ==> (match (#[trigger] nodes_model(
                assets@,
            )[i]).max {
                Option::Some(x) => nodes_model(assets@)[i].target + spec_trade_unit(
                    nodes_model(assets@)[i],
                    min_trade_volume as int,
                ) > x,
                Option::None => false,
            }),
        decreases vstd::math::max(balance as int, 0), (if stalled { 0int } else { 1int }),
    {
        let mut best_index: usize = 0;
        let mut best_unit: i128 = 0;
        let mut best_candidate: i128 = 0;
        let mut best_weight: i128 = 0;
        let mut have_best = false;
        let mut j: usize = 0;
        while j < n
            invariant
                n == old(assets)@.len(),
                assets@.len() == n,
                correctable@.len() == n,
                orig == nodes_model(old(assets)@),
                wf_nodes(orig),
                0 <= min_trade_volume <= VALUE_LIMIT,
                0 <= target_total_value <= TARGET_CAP,
                balance > 0,
                forall|i: int| 0 <= i < n ==> 0 <= #[trigger] orig[i].min <= orig[i].target
                    <= 2_000_000_000_000_000_000,
                forall|i: int| 0 <= i < n ==> nodes_model(assets@)[i] == retarget(
                    orig[i],
                    nodes_model(assets@)[i].target,
                ),
                forall|i: int| 0 <= i < n ==> orig[i].min <= #[trigger] nodes_model(
                    assets@,
                )[i].target,
                forall|i: int| 0 <= i < n ==> #[trigger] nodes_model(assets@)[i].target
                    <= target_total_value + 2_000_000_000_000_000,
                sum_targets(nodes_model(assets@)) + balance == sum_targets(orig) + balance_in,
                0 <= j <= n,
                forall|i: int| 0 <= i < n && !correctable@[i] ==> (match (#[trigger]
                nodes_model(assets@)[i]).max {
                    Option::Some(x) => nodes_model(assets@)[i].target + spec_trade_unit(
                        nodes_model(assets@)[i],
                        min_trade_volume as int,
                    ) > x,
                    Option::None => false,
                }),
                !have_best ==> forall|i: int| 0 <= i < j ==> !correctable@[i],
                have_best ==> best_index < n && correctable@[best_index as int]
                    && best_unit as int == spec_trade_unit(
                    nodes_model(assets@)[best_index as int],
                    min_trade_volume as int,
                ) && best_candidate as int == nodes_model(assets@)[best_index as int].target
                    + best_unit && (match nodes_model(assets@)[best_index as int].max {
                    Option::Some(x) => best_candidate as int <= x,
                    Option::None => true,
                }) && best_weight as int == nodes_model(assets@)[best_index as int].weight
                    && 1 <= best_unit <= 2_000_000_000_000_000 && 0 <= best_weight
                    <= WEIGHT_SCALE && 0 <= best_candidate <= 3_000_000_000_000_000_000,
            decreases n - j,
        {
            if correctable[j] {
                proof {
                    assert(nodes_model(assets@)[j as int] == assets@[j as int]@);
                    assert(wf_node(orig[j as int]));
                    assert(wf_node(nodes_model(assets@)[j as int]));
                }
                let unit = trade_unit(&assets[j], min_trade_volume);
                let candidate = assets[j].target_value + unit;
                let over = match assets[j].max_value {
                    Option::Some(mx) => candidate > mx,
                    Option::None => false,
                };
                if over {
                    proof {
                        assert(candidate as int == nodes_model(assets@)[j as int].target
                            + spec_trade_unit(
                            nodes_model(assets@)[j as int],
                            min_trade_volume as int,
                        ));
                    }
                    correctable[j] = false;
                } else {
                    let w = assets[j].expected_weight;
                    proof {
                        assert(w as int == orig[j as int].weight);
                        assert(0 <= w <= WEIGHT_SCALE);
                        assert(0 <= candidate as int <= 3_000_000_000_000_000_000);
                    }
                    let mut replace = true;
                    if have_best {
                        proof {
                            assert(0 <= candidate as int * best_weight as int
                                <= 3_000_000_000_000_000_000_000_000_000) by (nonlinear_arith)
                                requires
                                    0 <= candidate as int <= 3_000_000_000_000_000_000,
                                    0 <= best_weight as int <= 1_000_000,
                            ;
                            assert(0 <= best_candidate as int * w as int
                                <= 3_000_000_000_000_000_000_000_000_000) by (nonlinear_arith)
                                requires
                                    0 <= best_candidate as int <= 3_000_000_000_000_000_000,
                                    0 <= w as int <= 1_000_000,
                            ;
                        }
                        replace = candidate * best_weight > best_candidate * w;
                    }
                    if replace {
                        best_index = j;
                        best_unit = unit;
                        best_candidate = candidate;
                        best_weight = w;
                        have_best = true;
                    }
                }
            }
            j = j + 1;
        }
        if !have_best {
            stalled = true;
        } else {
        let ghost head = assets@;
        let ghost before = nodes_model(assets@);
        let a = &mut assets[best_index];
        a.target_value = best_candidate;
        proof {
            assert(assets@[best_index as int]@ == retarget(
                before[best_index as int],
                best_candidate as int,
            ));
            assert forall|i: int| 0 <= i < n implies nodes_model(assets@)[i] == (
            if i == best_index {
                retarget(before[i], best_candidate as int)
            } else {
                before[i]
            }) by {
                assert(nodes_model(assets@)[i] == assets@[i]@);
                if i != best_index {
                    assert(assets@[i] == head[i]);
                    assert(nodes_model(head)[i] == head[i]@);
                }
            }
            assert(nodes_model(assets@) =~= before.update(
                best_index as int,
                retarget(before[best_index as int], best_candidate as int),
            ));
            lemma_sum_targets_update(
                before,
                best_index as int,
                retarget(before[best_index as int], best_candidate as int),
            );
            let bi = best_index as int;
            if lot_aligned_node(orig[bi]) {
                match orig[bi].holding {
                    HoldingModel::Stock { price } => {
                        lemma_trade_unit_bounds(before[bi], min_trade_volume as int);
                        lemma_lot_step(
                            before[bi].target,
                            before[bi].current,
                            best_unit as int,
                            price,
                        );
                    },
                    HoldingModel::Group { .. } => {},
                }
            }
            assert(sum_targets(nodes_model(assets@)) == sum_targets(before) + best_unit);
            assert(sum_targets(before) == target_total_value - balance);
            assert forall|i: int| 0 <= i < n implies #[trigger] nodes_model(assets@)[i].target
                >= 0 by {
                if i == best_index {
                    assert(nodes_model(assets@)[i].target == before[i].target + best_unit);
                } else {
                    assert(nodes_model(assets@)[i] == before[i]);
                }
            }
            lemma_sum_targets_member_bound(nodes_model(assets@), best_index as int);
            assert(nodes_model(assets@)[best_index as int].target <= target_total_value
                + 2_000_000_000_000_000 - 1);
            assert forall|i: int| 0 <= i < n implies #[trigger] nodes_model(assets@)[i].target
                <= target_total_value + 2_000_000_000_000_000 by {
                if i != best_index {
                    assert(nodes_model(assets@)[i] == before[i]);
                }
            }
        }
            balance = balance - best_unit;
        }
    }
    balance
}

/// Every target in the subtree respects its node's hard bounds.
pub open spec fn in_bounds_deep(m: NodeModel) -> bool
    decreases m,
{
    in_bounds_node(m) && match m.holding {
        HoldingModel::Group { children } => forall|i: int|
            0 <= i < children.len() ==> in_bounds_deep(#[trigger] children[i]),
        HoldingModel::Stock { .. } => true,
    }
}

/// Every instrument in the subtree trades in whole lots.
pub open spec fn lot_aligned_deep(m: NodeModel) -> bool
    decreases m,
{
    lot_aligned_node(m) && match m.holding {
        HoldingModel::Group { children } => forall|i: int|
            0 <= i < children.len() ==> lot_aligned_deep(#[trigger] children[i]),
        HoldingModel::Stock { .. } => true,
    }
}

/// Every target in the subtree is a bounded, non-negative amount.
pub open spec fn targets_bounded_deep(m: NodeModel) -> bool
    decreases m,
{
    0 <= m.target <= TARGET_CAP && match m.holding {
        HoldingModel::Group { children } => forall|i: int|
            0 <= i < children.len() ==> targets_bounded_deep(#[trigger] children[i]),
        HoldingModel::Stock { .. } => true,
    }
}

/// Conservation: every group's target equals the sum of its children's
/// targets, at every level of the subtree.
pub open spec fn conservation_deep(m: NodeModel) -> bool
    decreases m,
{
    match m.holding {
        HoldingModel::Group { children } => sum_targets(children) == m.target && forall|i: int|
            0 <= i < children.len() ==> conservation_deep(#[trigger] children[i]),
        HoldingModel::Stock { .. } => true,
    }
}

/// Two nodes of the same shape: only the target and the blocked flags may
/// differ, everything else — including the whole subtree below — is equal.
pub open spec fn same_shape(a: NodeModel, b: NodeModel) -> bool {
    b == reflag(a, b.target, b.buy_blocked, b.sell_blocked)
}

/// A same-shaped node keeps well-formedness and its bounds' consistency:
/// none of those predicates read the target or the blocked flags.
pub proof fn lemma_same_shape_preserves(a: NodeModel, b: NodeModel)
    requires
        same_shape(a, b),
        wf_node(a),
    ensures
        wf_node(b),
        bounds_wf_node(a) ==> bounds_wf_node(b),
        restriction_bounds_set_node(a) ==> restriction_bounds_set_node(b),
        spec_min_value(b) == spec_min_value(a),
        spec_max_value(b) == spec_max_value(a),
        node_height(b) == node_height(a),
{
}

/// Two nodes agreeing, at every level of the subtree, on everything but the
/// target values and the blocked flags: names, weights, current values,
/// bounds, restriction flags, prices and the shape of the tree are all equal.
pub open spec fn same_frame(a: NodeModel, b: NodeModel) -> bool
    decreases a,
{
    &&& b.name == a.name
    &&& b.weight == a.weight
    &&& b.current == a.current
    &&& b.min == a.min
    &&& b.max == a.max
    &&& b.restrict_buying == a.restrict_buying
    &&& b.restrict_selling == a.restrict_selling
    &&& match (a.holding, b.holding) {
        (HoldingModel::Stock { price: p1 }, HoldingModel::Stock { price: p2 }) => p1 == p2,
        (HoldingModel::Group { children: c1 }, HoldingModel::Group { children: c2 }) => c1.len()
            == c2.len() && forall|i: int|
            0 <= i < c1.len() ==> same_frame(#[trigger] c1[i], c2[i]),
        _ => false,
    }
}

/// Every node keeps its own frame.
pub proof fn lemma_same_frame_refl(m: NodeModel)
    ensures
        same_frame(m, m),
    decreases m,
{
    match m.holding {
        HoldingModel::Group { children } => {
            assert forall|i: int| 0 <= i < children.len() implies same_frame(
                #[trigger] children[i],
                children[i],
            ) by {
                lemma_same_frame_refl(children[i]);
            }
        },
        HoldingModel::Stock { .. } => {},
    }
}

/// Frames compose: two frame-preserving steps preserve the frame.
pub proof fn lemma_same_frame_trans(a: NodeModel, b: NodeModel, c: NodeModel)
    requires
        same_frame(a, b),
        same_frame(b, c),
    ensures
        same_frame(a, c),
    decreases a,
{
    match (a.holding, b.holding, c.holding) {
        (
            HoldingModel::Group { children: c1 },
            HoldingModel::Group { children: c2 },
            HoldingModel::Group { children: c3 },
        ) => {
            assert forall|i: int| 0 <= i < c1.len() implies same_frame(
                #[trigger] c1[i],
                c3[i],
            ) by {
                lemma_same_frame_trans(c1[i], c2[i], c3[i]);
            }
        },
        _ => {},
    }
}

/// A same-shaped node (equal everywhere but target and flags, children
/// identical) keeps its frame.
pub proof fn lemma_same_shape_frame(a: NodeModel, b: NodeModel)
    requires
        same_shape(a, b),
    ensures
        same_frame(a, b),
{
    match (a.holding, b.holding) {
        (HoldingModel::Group { children: c1 }, HoldingModel::Group { children: c2 }) => {
            assert(c1 == c2);
            assert forall|i: int| 0 <= i < c1.len() implies same_frame(
                #[trigger] c1[i],
                c2[i],
            ) by {
                lemma_same_frame_refl(c1[i]);
            }
        },
        _ => {},
    }
}

/// What one allocation pass reports for a group.
pub struct AllocationResult {
    /// Balance the redistribution could not place: zero when the group's
    /// total was distributed exactly.
    pub leftover: i128,
    /// Whether this group and every subgroup below it were allocated with a
    /// zero leftover.
    pub resolved: bool,
}

/// Top-down pass computing every node's target value from the group's total.
///
/// The total is first split by weight, then rounded to whole units and whole
/// lots, clamped to the propagated bounds, and the remaining imbalance is
/// redistributed greedily one trade unit at a time; finally each subgroup
/// distributes its own target among its children the same way.  The returned
/// leftover is what redistribution could not place; targets plus leftover
/// always equal the given total exactly.
#[verifier::rlimit(100)]
pub fn calculate_target_value(
    assets: Vec<AssetAllocation>,
    target_total_value: i128,
    min_trade_volume: i128,
) -> (res: (Vec<AssetAllocation>, AllocationResult))
    requires
        wf_nodes(nodes_model(assets@)),
        bounds_wf_nodes(nodes_model(assets@)),
        restriction_bounds_set_nodes(nodes_model(assets@)),
        0 <= target_total_value,
        target_total_value + 4_000_000_000_000_000 * (seq_height(nodes_model(assets@)) as int
            + 1) <= TARGET_CAP,
        0 <= min_trade_volume <= VALUE_LIMIT,
    ensures
        res.0@.len() == assets@.len(),
        sum_targets(nodes_model(res.0@)) + res.1.leftover as int == target_total_value as int,
        res.1.resolved ==> res.1.leftover == 0,
        wf_nodes(nodes_model(res.0@)),
        forall|i: int| 0 <= i < assets@.len() ==> same_frame(
            nodes_model(assets@)[i],
            #[trigger] nodes_model(res.0@)[i],
        ),
        forall|i: int| 0 <= i < assets@.len() ==> in_bounds_deep(
            #[trigger] nodes_model(res.0@)[i],
        ),
        forall|i: int| 0 <= i < assets@.len() ==> lot_aligned_deep(
            #[trigger] nodes_model(res.0@)[i],
        ),
        forall|i: int| 0 <= i < assets@.len() ==> targets_bounded_deep(
            #[trigger] nodes_model(res.0@)[i],
        ),
        forall|i: int| 0 <= i < assets@.len() ==> #[trigger] nodes_model(res.0@)[i].target
            <= target_total_value + 3_000_000_000_000_000,
        res.1.resolved ==> forall|i: int| 0 <= i < assets@.len() ==> conservation_deep(
            #[trigger] nodes_model(res.0@)[i],
        ),
        forall|i: int| 0 <= i < assets@.len() ==> (#[trigger] nodes_model(res.0@)[i]).buy_blocked
            == (nodes_model(assets@)[i].buy_blocked || spec_buy_clamp(
            nodes_model(assets@)[i],
            target_total_value as int,
            min_trade_volume as int,
        )),
        forall|i: int| 0 <= i < assets@.len() ==> (#[trigger] nodes_model(
            res.0@,
        )[i]).sell_blocked == (nodes_model(assets@)[i].sell_blocked || spec_sell_clamp(
            nodes_model(assets@)[i],
            target_total_value as int,
            min_trade_volume as int,
        )),
        sum_clamped(nodes_model(assets@), target_total_value as int, min_trade_volume as int)
            == target_total_value as int ==> forall|i: int|
            0 <= i < assets@.len() ==> (#[trigger] nodes_model(res.0@)[i]).target
                == spec_clamped_target(
                nodes_model(assets@)[i],
                target_total_value as int,
                min_trade_volume as int,
            ),
        res.1.leftover < -2_000_000_000_000_000 ==> forall|i: int|
            0 <= i < assets@.len() ==> (#[trigger] nodes_model(res.0@)[i]).target
                - spec_trade_unit(nodes_model(res.0@)[i], min_trade_volume as int)
                < nodes_model(res.0@)[i].min,
        res.1.leftover > 0 ==> forall|i: int| 0 <= i < assets@.len() ==> (match (#[trigger]
        nodes_model(res.0@)[i]).max {
            Option::Some(x) => nodes_model(res.0@)[i].target + spec_trade_unit(
                nodes_model(res.0@)[i],
                min_trade_volume as int,
            ) > x,
            Option::None => false,
        }),
    decreases seq_height(nodes_model(assets@)),
{
    let ghost orig = nodes_model(assets@);
    proof {
        lemma_restriction_bounds_set_nodes(orig);
    }
    let n = assets.len();
    let mut work = assets;
    let mut balance = init_targets(&mut work, target_total_value);
    let ghost s1 = nodes_model(work@);
    proof {
        assert forall|i: int| 0 <= i < n implies wf_node(#[trigger] s1[i]) && bounds_wf_node(
            s1[i],
        ) && restriction_bounds_set_node(s1[i]) && same_shape(orig[i], s1[i]) by {
            assert(s1[i] == retarget(
                orig[i],
                round_div(
                    target_total_value as int * orig[i].weight,
                    WEIGHT_SCALE as int,
                ),
            ));
            lemma_same_shape_preserves(orig[i], s1[i]);
        }
        lemma_wf_nodes_intro(s1);
    }
    let delta_round = round_targets(&mut work, min_trade_volume);
    let ghost s2 = nodes_model(work@);
    proof {
        assert forall|i: int| 0 <= i < n implies wf_node(#[trigger] s2[i]) && bounds_wf_node(
            s2[i],
        ) && restriction_bounds_set_node(s2[i]) && same_shape(orig[i], s2[i])
            && lot_aligned_node(s2[i]) && -(VALUE_LIMIT as int) <= s2[i].target
            <= target_total_value + VALUE_LIMIT by {
            assert(s2[i] == retarget(
                s1[i],
                spec_rounded_target(s1[i], min_trade_volume as int),
            ));
            lemma_same_shape_preserves(orig[i], s2[i]);
            assert(wf_node(s1[i]));
            lemma_rounded_target_bounds(s1[i], min_trade_volume as int);
            assert(lot_aligned_node(retarget(
                s1[i],
                spec_rounded_target(s1[i], min_trade_volume as int),
            )));
        }
        lemma_wf_nodes_intro(s2);
    }
    proof {
        lemma_sum_targets_range(s1);
        lemma_sum_targets_range(s2);
        assert(balance as int == target_total_value - sum_targets(s1));
        assert(balance as int + delta_round as int == target_total_value - sum_targets(s2));
    }
    balance = balance + delta_round;
    let delta_max = clamp_to_max(&mut work);
    let ghost s3 = nodes_model(work@);
    proof {
        assert forall|i: int| 0 <= i < n implies wf_node(#[trigger] s3[i]) && bounds_wf_node(
            s3[i],
        ) && restriction_bounds_set_node(s3[i]) && same_shape(orig[i], s3[i])
            && lot_aligned_node(s3[i]) && -(VALUE_LIMIT as int) <= s3[i].target
            <= target_total_value + VALUE_LIMIT && (match s3[i].max {
            Option::Some(x) => s3[i].target <= x,
            Option::None => true,
        }) by {
            if clamp_max_applies(s2[i]) {
                assert(s3[i] == reflag(s2[i], s2[i].max->Some_0, true, s2[i].sell_blocked));
                match s2[i].holding {
                    HoldingModel::Stock { price } => {
                        assert(s2[i].max == spec_max_value(s2[i]));
                        assert(s2[i].max->Some_0 == s2[i].current);
                        vstd::arithmetic::div_mod::lemma_mod_multiples_basic(0, price);
                        assert(0 * price == 0) by (nonlinear_arith);
                    },
                    HoldingModel::Group { .. } => {},
                }
            } else {
                assert(s3[i] == s2[i]);
            }
            lemma_same_shape_preserves(orig[i], s3[i]);
        }
        lemma_wf_nodes_intro(s3);
    }
    proof {
        lemma_sum_targets_range(s3);
        assert(balance as int + delta_max as int == target_total_value - sum_targets(s3));
    }
    balance = balance + delta_max;
    let delta_min = clamp_to_min(&mut work);
    let ghost s4 = nodes_model(work@);
    proof {
        assert forall|i: int| 0 <= i < n implies wf_node(#[trigger] s4[i]) && bounds_wf_node(
            s4[i],
        ) && restriction_bounds_set_node(s4[i]) && same_shape(orig[i], s4[i])
            && lot_aligned_node(s4[i]) && 0 <= s4[i].min <= s4[i].target
            <= target_total_value + 2_000_000_000_000_000 && (match s4[i].max {
            Option::Some(x) => s4[i].target <= x,
            Option::None => true,
        }) by {
            if clamp_min_applies(s3[i]) {
                assert(s4[i] == reflag(s3[i], s3[i].min, s3[i].buy_blocked, true));
                match s3[i].holding {
                    HoldingModel::Stock { price } => {
                        assert(s3[i].min == spec_min_value(s3[i]));
                        vstd::arithmetic::div_mod::lemma_mod_multiples_basic(0, price);
                        assert(0 * price == 0) by (nonlinear_arith);
                        if !s3[i].restrict_selling {
                            assert(s3[i].min == 0);
                            assert(s3[i].current % price == 0);
                            assert((0 - s3[i].current) % price == 0) by {
                                vstd::arithmetic::div_mod::lemma_sub_mod_noop(
                                    0,
                                    s3[i].current,
                                    price,
                                );
                            }
                        }
                    },
                    HoldingModel::Group { .. } => {},
                }
            } else {
                assert(s4[i] == s3[i]);
            }
            lemma_same_shape_preserves(orig[i], s4[i]);
        }
        lemma_wf_nodes_intro(s4);
        lemma_sum_targets_range(s4);
    }
    proof {
        assert(balance as int + delta_min as int == target_total_value - sum_targets(s4));
        if n > 0 {
            lemma_sum_targets_member_bound(s4, 0);
        } else {
            assert(sum_targets(s4) == 0);
        }
        assert forall|i: int| 0 <= i < n implies #[trigger] s4[i].target == spec_clamped_target(
            orig[i],
            target_total_value as int,
            min_trade_volume as int,
        ) && s4[i].buy_blocked == (orig[i].buy_blocked || spec_buy_clamp(
            orig[i],
            target_total_value as int,
            min_trade_volume as int,
        )) && s4[i].sell_blocked == (orig[i].sell_blocked || spec_sell_clamp(
            orig[i],
            target_total_value as int,
            min_trade_volume as int,
        )) by {
            assert(s1[i] == retarget(
                orig[i],
                round_div(target_total_value as int * orig[i].weight, WEIGHT_SCALE as int),
            ));
            assert(s2[i] == retarget(
                s1[i],
                spec_rounded_target(s1[i], min_trade_volume as int),
            ));
            assert(s2[i].target == spec_preclamp_target(
                orig[i],
                target_total_value as int,
                min_trade_volume as int,
            ));
            assert(clamp_max_applies(s2[i]) == spec_buy_clamp(
                orig[i],
                target_total_value as int,
                min_trade_volume as int,
            ));
            assert(s3[i].target == spec_max_clamped_target(
                orig[i],
                target_total_value as int,
                min_trade_volume as int,
            ));
            assert(clamp_min_applies(s3[i]) == spec_sell_clamp(
                orig[i],
                target_total_value as int,
                min_trade_volume as int,
            ));
        }
        lemma_sum_clamped_agrees(
            orig,
            s4,
            target_total_value as int,
            min_trade_volume as int,
        );
    }
    balance = balance + delta_min;
    balance = redistribute_sell(&mut work, min_trade_volume, balance);
    let ghost s5 = nodes_model(work@);
    proof {
        assert forall|i: int| 0 <= i < n implies wf_node(#[trigger] s5[i]) && bounds_wf_node(
            s5[i],
        ) && restriction_bounds_set_node(s5[i]) && same_shape(orig[i], s5[i])
            && lot_aligned_node(s5[i]) && 0 <= s5[i].min <= s5[i].target
            <= target_total_value + 2_000_000_000_000_000 && (match s5[i].max {
            Option::Some(x) => s5[i].target <= x,
            Option::None => true,
        }) by {
            assert(s5[i] == retarget(s4[i], s5[i].target));
            lemma_same_shape_preserves(orig[i], s5[i]);
        }
        lemma_wf_nodes_intro(s5);
    }
    balance = redistribute_buy(&mut work, target_total_value, min_trade_volume, balance);
    let ghost s6 = nodes_model(work@);
    proof {
        assert forall|i: int| 0 <= i < n implies wf_node(#[trigger] s6[i]) && bounds_wf_node(
            s6[i],
        ) && restriction_bounds_set_node(s6[i]) && same_shape(orig[i], s6[i])
            && lot_aligned_node(s6[i]) && 0 <= s6[i].min <= s6[i].target
            <= target_total_value + 2_000_000_000_000_000 && (match s6[i].max {
            Option::Some(x) => s6[i].target <= x,
            Option::None => true,
        }) by {
            assert(s6[i] == retarget(s5[i], s6[i].target));
            lemma_same_shape_preserves(orig[i], s6[i]);
        }
        lemma_wf_nodes_intro(s6);
    }
    let mut resolved = balance == 0;
    let mut i: usize = 0;
    while i < n
        invariant
            n == work@.len(),
            nodes_model(assets@) == orig,
            orig.len() == n,
            s6.len() == n,
            wf_nodes(orig),
            seq_height(nodes_model(assets@)) == seq_height(orig),
            0 <= target_total_value,
            target_total_value + 4_000_000_000_000_000 * (seq_height(orig) as int + 1)
                <= TARGET_CAP,
            0 <= min_trade_volume <= VALUE_LIMIT,
            0 <= i <= n,
            forall|j: int| 0 <= j < n ==> wf_node(#[trigger] s6[j]) && bounds_wf_node(s6[j])
                && restriction_bounds_set_node(s6[j]) && same_shape(orig[j], s6[j])
                && lot_aligned_node(s6[j]) && 0 <= s6[j].min <= s6[j].target
                <= target_total_value + 2_000_000_000_000_000 && (match s6[j].max {
                Option::Some(x) => s6[j].target <= x,
                Option::None => true,
            }),
            forall|j: int| i <= j < n ==> nodes_model(work@)[j] == s6[j],
            forall|j: int| 0 <= j < i ==> #[trigger] nodes_model(work@)[j].target
                == s6[j].target && nodes_model(work@)[j].min == s6[j].min && nodes_model(
                work@,
            )[j].max == s6[j].max && nodes_model(work@)[j].buy_blocked == s6[j].buy_blocked
                && nodes_model(work@)[j].sell_blocked == s6[j].sell_blocked && same_frame(
                orig[j],
                nodes_model(work@)[j],
            ) && wf_node(
                nodes_model(work@)[j],
            ) && in_bounds_deep(nodes_model(work@)[j]) && lot_aligned_deep(
                nodes_model(work@)[j],
            ) && targets_bounded_deep(nodes_model(work@)[j]) && (resolved
                ==> conservation_deep(nodes_model(work@)[j])),
            sum_targets(nodes_model(work@)) == sum_targets(s6),
            resolved ==> balance == 0,
        decreases n - i,
    {
        let ghost head = nodes_model(work@);
        let ghost pre_vec = work@;
        let asset = work.remove(i);
        proof {
            assert(asset@ == head[i as int]);
            assert(head[i as int] == s6[i as int]);
        }
        let ghost m_in = asset@;
        let AssetAllocation {
            name,
            expected_weight,
            current_value,
            target_value,
            min_value,
            max_value,
            restrict_buying,
            restrict_selling,
            buy_blocked,
            sell_blocked,
            holding,
        } = asset;
        let (holding, child_resolved): (Holding, bool) = match holding {
            Holding::Group(children) => {
                proof {
                    assert(m_in.holding == HoldingModel::Group {
                        children: nodes_model(children@),
                    });
                    assert(same_shape(orig[i as int], m_in));
                    assert(orig[i as int].holding == m_in.holding);
                    lemma_seq_height_bound(orig, i as int);
                    assert(node_height(orig[i as int]) == 1 + seq_height(
                        nodes_model(children@),
                    ));
                    assert(wf_node(m_in));
                    assert(bounds_wf_node(m_in));
                    assert(restriction_bounds_set_node(m_in));
                }
                let (children2, r) = calculate_target_value(
                    children,
                    target_value,
                    min_trade_volume,
                );
                (Holding::Group(children2), r.resolved)
            },
            Holding::Stock(h) => (Holding::Stock(h), true),
        };
        let updated = AssetAllocation {
            name,
            expected_weight,
            current_value,
            target_value,
            min_value,
            max_value,
            restrict_buying,
            restrict_selling,
            buy_blocked,
            sell_blocked,
            holding,
        };
        let ghost m_out = updated@;
        proof {
            assert(m_out.target == m_in.target);
            assert(m_out.min == m_in.min);
            assert(m_out.max == m_in.max);
            match m_out.holding {
                HoldingModel::Group { children } => {
                    assert(in_bounds_node(m_out));
                    assert(in_bounds_deep(m_out));
                    assert(lot_aligned_node(m_out));
                    assert(lot_aligned_deep(m_out));
                    assert(0 <= m_out.target <= TARGET_CAP);
                    assert(targets_bounded_deep(m_out));
                    assert(wf_nodes(children));
                    assert(wf_node(m_out));
                    assert(same_frame(orig[i as int], m_out));
                },
                HoldingModel::Stock { .. } => {
                    assert(m_out == m_in);
                    assert(same_shape(orig[i as int], m_in));
                    lemma_same_shape_preserves(orig[i as int], m_in);
                    assert(wf_node(m_out));
                    assert(in_bounds_deep(m_out));
                    assert(lot_aligned_deep(m_out));
                    assert(targets_bounded_deep(m_out));
                    assert(same_frame(orig[i as int], m_out));
                },
            }
            if resolved && child_resolved {
                assert(conservation_deep(m_out));
            }
        }
        work.insert(i, updated);
        proof {
            assert(work@ =~= pre_vec.update(i as int, updated));
            assert forall|j: int| 0 <= j < n implies nodes_model(work@)[j] == (if j == i {
                m_out
            } else {
                head[j]
            }) by {
                assert(nodes_model(work@)[j] == work@[j]@);
                if j != i {
                    assert(work@[j] == pre_vec[j]);
                    assert(nodes_model(pre_vec)[j] == pre_vec[j]@);
                }
            }
            assert(nodes_model(work@) =~= head.update(i as int, m_out));
            lemma_sum_targets_update(head, i as int, m_out);
        }
        resolved = resolved && child_resolved;
        i = i + 1;
    }
    proof {
        assert forall|j: int| 0 <= j < n implies wf_node(#[trigger] nodes_model(work@)[j])
            && same_frame(orig[j], nodes_model(work@)[j]) && in_bounds_deep(
            nodes_model(work@)[j],
        ) && lot_aligned_deep(nodes_model(work@)[j]) && targets_bounded_deep(
            nodes_model(work@)[j],
        ) && nodes_model(work@)[j].target <= target_total_value + 3_000_000_000_000_000 && (
        resolved ==> conservation_deep(nodes_model(work@)[j])) && nodes_model(
            work@,
        )[j].buy_blocked == (orig[j].buy_blocked || spec_buy_clamp(
            orig[j],
            target_total_value as int,
            min_trade_volume as int,
        )) && nodes_model(work@)[j].sell_blocked == (orig[j].sell_blocked || spec_sell_clamp(
            orig[j],
            target_total_value as int,
            min_trade_volume as int,
        )) by {
            assert(nodes_model(work@)[j].target == s6[j].target);
            assert(s5[j] == retarget(s4[j], s5[j].target));
            assert(s6[j] == retarget(s5[j], s6[j].target));
        }
        if sum_clamped(orig, target_total_value as int, min_trade_volume as int)
            == target_total_value as int {
            assert(sum_targets(s4) == target_total_value as int);
            assert(s5 == s4);
            assert(s6 == s5);
            assert forall|j: int| 0 <= j < n implies #[trigger] nodes_model(work@)[j].target
                == spec_clamped_target(
                orig[j],
                target_total_value as int,
                min_trade_volume as int,
            ) by {
                assert(nodes_model(work@)[j].target == s6[j].target);
                assert(s4[j].target == spec_clamped_target(
                    orig[j],
                    target_total_value as int,
                    min_trade_volume as int,
                ));
            }
        }
        if balance < -2_000_000_000_000_000 {
            assert forall|j: int| 0 <= j < n implies (#[trigger] nodes_model(work@)[j]).target
                - spec_trade_unit(nodes_model(work@)[j], min_trade_volume as int)
                < nodes_model(work@)[j].min by {
                assert(nodes_model(work@)[j].target == s6[j].target);
                assert(s6[j] == s5[j]);
                assert(same_shape(orig[j], s6[j]));
                lemma_same_shape_frame(orig[j], s6[j]);
                lemma_trade_unit_frame(orig[j], s6[j], min_trade_volume as int);
                lemma_trade_unit_frame(orig[j], nodes_model(work@)[j], min_trade_volume as int);
            }
        }
        if balance > 0 {
            assert forall|j: int| 0 <= j < n implies (match (#[trigger] nodes_model(
                work@,
            )[j]).max {
                Option::Some(x) => nodes_model(work@)[j].target + spec_trade_unit(
                    nodes_model(work@)[j],
                    min_trade_volume as int,
                ) > x,
                Option::None => false,
            }) by {
                assert(nodes_model(work@)[j].target == s6[j].target);
                assert(same_shape(orig[j], s6[j]));
                lemma_same_shape_frame(orig[j], s6[j]);
                lemma_trade_unit_frame(orig[j], s6[j], min_trade_volume as int);
                lemma_trade_unit_frame(orig[j], nodes_model(work@)[j], min_trade_volume as int);
            }
        }
        lemma_wf_nodes_intro(nodes_model(work@));
    }
    (work, AllocationResult { leftover: balance, resolved })
}

/// The weight share of a non-negative total is between zero and the total.
pub proof fn lemma_weight_share_bounds(total: int, w: int)
    requires
        0 <= total,
        0 <= w <= WEIGHT_SCALE,
    ensures
        0 <= round_div(total * w, WEIGHT_SCALE as int) <= total,
{
    let n = total * w;
    let s = WEIGHT_SCALE as int;
    assert(0 <= n <= total * s) by (nonlinear_arith)
        requires 0 <= total && 0 <= w <= s && n == total * w;
    lemma_round_div_bounds(n, s);
    let q = round_div(n, s);
    assert(q * s < n + s);
    assert(q * s <= total * s + s);
    assert(q <= total) by (nonlinear_arith)
        requires s > 0 && q * s < (total + 1) * s;
}

/// Sum of the targets of the masked-out (uncorrectable) nodes among the
/// first `k` of a forest.
pub open spec fn unc_sum(s: Seq<NodeModel>, mask: Seq<bool>, k: int) -> int
    decreases k,
{
    if k <= 0 {
        0
    } else {
        unc_sum(s, mask, k - 1) + if mask[k - 1] {
            0
        } else {
            s[k - 1].target
        }
    }
}

/// No forbidden sale anywhere in the subtree: a sell-restricted instrument
/// never ends under its current value, and any sale is at least the minimum
/// trade volume.
pub open spec fn sales_legal_deep(m: NodeModel, mtv: int) -> bool
    decreases m,
{
    match m.holding {
        HoldingModel::Stock { .. } => (m.restrict_selling ==> m.target >= m.current) && (
        m.target < m.current ==> m.current - m.target >= mtv),
        HoldingModel::Group { children } => forall|i: int|
            0 <= i < children.len() ==> sales_legal_deep(#[trigger] children[i], mtv),
    }
}

/// Outcome of the debt resolver for one group.
pub enum SellResult {
    /// Every implied sale could be carried out; the group's debt is zero.
    Resolved,
    /// Restrictions left this amount of the requested reduction unrealised.
    Debt(i128),
}

/// A non-negative sum capped at [`TARGET_CAP`].  Genuine amounts stay far
/// under the cap, which only guards the arithmetic of the debt resolver.
fn add_capped(a: i128, b: i128) -> (r: i128)
    requires
        0 <= a <= TARGET_CAP,
        0 <= b <= TARGET_CAP,
    ensures
        r as int == vstd::math::min(a as int + b as int, TARGET_CAP as int),
        0 <= r <= TARGET_CAP,
        a + b <= TARGET_CAP ==> r == a + b,
{
    if a + b > TARGET_CAP {
        TARGET_CAP
    } else {
        a + b
    }
}

/// Recursive fallback for a group whose assigned target cannot be reached
/// because sales are restricted or too small to trade.
///
/// Children split into a correctable set, reweighted and reassigned a share
/// of what the uncorrectable children leave over, and an uncorrectable set
/// pinned to what they hold.  A pass that cannot shrink the debt escalates
/// once into force-selling, which allows shaving a position down by one
/// minimum trade volume; when the correctable set empties with debt left,
/// that debt is reported to the parent.  Passes are bounded as the
/// termination argument promises: each pass either clears the debt, pins at
/// least one child, or escalates once.
///
/// The contract relates the result to the requested total: the final targets
/// never exceed the total plus the reported debt, and when everything
/// resolves they never exceed the total — a force sale trades a whole
/// minimum volume, so it may leave the held total just under the request.
/// A position whose entire value is below the minimum trade volume is
/// pinned outright, the original reading of the small-sale rule; sales
/// merely smaller than the minimum stay correctable until force selling.
/// Shares are rounded and capped so a group never hands out more than its
/// residual; reported debt saturates at [`TARGET_CAP`], far beyond any
/// amount the accepted inputs can produce.
#[verifier::rlimit(100)]
pub fn sell_overbought_assets(
    assets: Vec<AssetAllocation>,
    target_total_value: i128,
    min_trade_volume: i128,
) -> (res: (Vec<AssetAllocation>, SellResult))
    requires
        wf_nodes(nodes_model(assets@)),
        forall|i: int| 0 <= i < assets@.len() ==> targets_bounded_deep(
            #[trigger] nodes_model(assets@)[i],
        ),
        0 <= target_total_value <= TARGET_CAP,
        0 <= min_trade_volume <= VALUE_LIMIT,
    ensures
        res.0@.len() == assets@.len(),
        wf_nodes(nodes_model(res.0@)),
        forall|i: int| 0 <= i < assets@.len() ==> targets_bounded_deep(
            #[trigger] nodes_model(res.0@)[i],
        ),
        forall|i: int| 0 <= i < assets@.len() ==> same_frame(
            nodes_model(assets@)[i],
            #[trigger] nodes_model(res.0@)[i],
        ),
        forall|i: int| 0 <= i < assets@.len() ==> node_height(
            #[trigger] nodes_model(res.0@)[i],
        ) == node_height(nodes_model(assets@)[i]),
        match res.1 {
            SellResult::Debt(d) => 0 < d <= TARGET_CAP && (sum_targets(nodes_model(res.0@))
                <= target_total_value + d || d == TARGET_CAP),
            SellResult::Resolved => sum_targets(nodes_model(res.0@)) <= target_total_value,
        },
        forall|i: int| 0 <= i < assets@.len() ==> sales_legal_deep(
            #[trigger] nodes_model(res.0@)[i],
            min_trade_volume as int,
        ),
        forall|i: int| 0 <= i < assets@.len() ==> (#[trigger] nodes_model(res.0@)[i]).buy_blocked
            == nodes_model(assets@)[i].buy_blocked && nodes_model(res.0@)[i].sell_blocked
            == nodes_model(assets@)[i].sell_blocked,
    decreases seq_height(nodes_model(assets@)),
{
    let ghost orig = nodes_model(assets@);
    let n = assets.len();
    let mut work = assets;
    let mut correctable: Vec<bool> = Vec::new();
    let mut k: usize = 0;
    while k < n
        invariant
            correctable@.len() == k,
            0 <= k <= n,
            forall|i: int| 0 <= i < k ==> correctable@[i] == true,
        decreases n - k,
    {
        correctable.push(true);
        k = k + 1;
    }
    let mut force_selling = false;
    let mut fuel: u128 = 4 * (n as u128) + 10;
    proof {
        assert forall|i: int| 0 <= i < n implies same_frame(
            orig[i],
            #[trigger] nodes_model(work@)[i],
        ) by {
            assert(nodes_model(work@)[i] == orig[i]);
            lemma_same_frame_refl(orig[i]);
        }
        assert forall|i: int| 0 <= i < n && !correctable@[i] implies sales_legal_deep(
            #[trigger] nodes_model(work@)[i],
            min_trade_volume as int,
        ) by {
            assert(correctable@[i] == true);
        }
    }
    loop
        invariant
            n == work@.len(),
            nodes_model(assets@) == orig,
            orig.len() == n,
            correctable@.len() == n,
            wf_nodes(orig),
            0 <= target_total_value <= TARGET_CAP,
            0 <= min_trade_volume <= VALUE_LIMIT,
            forall|i: int| 0 <= i < n ==> targets_bounded_deep(#[trigger] orig[i]),
            forall|i: int| 0 <= i < n ==> targets_bounded_deep(
                #[trigger] nodes_model(work@)[i],
            ),
            forall|i: int| 0 <= i < n ==> same_frame(orig[i], #[trigger] nodes_model(work@)[i]),
            forall|i: int| 0 <= i < n ==> node_height(#[trigger] nodes_model(work@)[i])
                == node_height(orig[i]),
            forall|i: int| 0 <= i < n ==> (#[trigger] nodes_model(work@)[i]).buy_blocked
                == orig[i].buy_blocked && nodes_model(work@)[i].sell_blocked
                == orig[i].sell_blocked,
            forall|i: int| 0 <= i < n ==> wf_node(#[trigger] nodes_model(work@)[i]),
            forall|i: int| 0 <= i < n && !correctable@[i] ==> sales_legal_deep(
                #[trigger] nodes_model(work@)[i],
                min_trade_volume as int,
            ),
        decreases fuel,
    {
        let mut unc_w: i128 = 0;
        let mut unc_v: i128 = 0;
        let mut j: usize = 0;
        while j < n
            invariant
                n == work@.len(),
                correctable@.len() == n,
                0 <= j <= n,
                0 <= unc_w <= (j as int) * 1_000_000,
                0 <= unc_v <= (j as int) * 1_000_000_000_000_000_000,
                unc_v as int == unc_sum(nodes_model(work@), correctable@, j as int),
                forall|i: int| 0 <= i < n ==> targets_bounded_deep(
                    #[trigger] nodes_model(work@)[i],
                ),
                forall|i: int| 0 <= i < n ==> same_frame(
                    orig[i],
                    #[trigger] nodes_model(work@)[i],
                ),
                wf_nodes(orig),
                orig.len() == n,
            decreases n - j,
        {
            proof {
                assert(nodes_model(work@)[j as int] == work@[j as int]@);
                assert(wf_node(orig[j as int]));
                assert(targets_bounded_deep(nodes_model(work@)[j as int]));
                assert(unc_sum(nodes_model(work@), correctable@, j as int + 1) == unc_sum(
                    nodes_model(work@),
                    correctable@,
                    j as int,
                ) + if correctable@[j as int] {
                    0
                } else {
                    nodes_model(work@)[j as int].target
                });
            }
            if !correctable[j] {
                unc_w = unc_w + work[j].expected_weight;
                unc_v = unc_v + work[j].target_value;
            }
            j = j + 1;
        }
        let mut correctable_total = target_total_value - unc_v;
        let mut debt: i128 = 0;
        if correctable_total < 0 {
            debt = -correctable_total;
            correctable_total = 0;
        }
        let ghost scan_base = nodes_model(work@);
        let ghost mask0 = correctable@;
        let ghost debt0 = debt as int;
        proof {
            assert(unc_v as int + correctable_total as int == target_total_value + debt0);
        }
        let divider = WEIGHT_SCALE - unc_w;
        let mut remaining = correctable_total;
        let mut placed: i128 = 0;
        let mut changed = false;
        let mut j2: usize = 0;
        while j2 < n
            invariant
                n == work@.len(),
                nodes_model(assets@) == orig,
                correctable@.len() == n,
                mask0.len() == n,
                scan_base.len() == n,
                wf_nodes(orig),
                0 <= target_total_value <= TARGET_CAP,
                0 <= min_trade_volume <= VALUE_LIMIT,
                0 <= j2 <= n,
                orig.len() == n,
                divider <= 1_000_000,
                0 <= debt0 <= (n as int) * 1_000_000_000_000_000_000,
                0 <= debt <= ((n as int) + (j2 as int) + 1) * 1_000_000_000_000_000_000,
                0 <= correctable_total <= TARGET_CAP,
                0 <= remaining <= correctable_total,
                0 <= placed <= (j2 as int) * 1_000_000_000_000_000_000,
                placed as int == sum_targets(nodes_model(work@).subrange(0, j2 as int)),
                placed as int <= unc_sum(scan_base, mask0, j2 as int) + (
                correctable_total as int - remaining as int) + (debt as int - debt0),
                forall|i: int| j2 <= i < n ==> correctable@[i] == mask0[i],
                forall|i: int| j2 <= i < n ==> #[trigger] nodes_model(work@)[i]
                    == scan_base[i],
                forall|i: int| 0 <= i < j2 ==> sales_legal_deep(
                    #[trigger] nodes_model(work@)[i],
                    min_trade_volume as int,
                ),
                forall|i: int| 0 <= i < n && !mask0[i] ==> sales_legal_deep(
                    #[trigger] scan_base[i],
                    min_trade_volume as int,
                ),
                forall|i: int| 0 <= i < n ==> targets_bounded_deep(#[trigger] orig[i]),
                forall|i: int| 0 <= i < n ==> targets_bounded_deep(
                    #[trigger] nodes_model(work@)[i],
                ),
                forall|i: int| 0 <= i < n ==> same_frame(
                    orig[i],
                    #[trigger] nodes_model(work@)[i],
                ),
                forall|i: int| 0 <= i < n ==> node_height(#[trigger] nodes_model(work@)[i])
                    == node_height(orig[i]),
                forall|i: int| 0 <= i < n ==> wf_node(#[trigger] nodes_model(work@)[i]),
                forall|i: int| 0 <= i < n ==> (#[trigger] nodes_model(work@)[i]).buy_blocked
                    == orig[i].buy_blocked && nodes_model(work@)[i].sell_blocked
                    == orig[i].sell_blocked,
            decreases n - j2,
        {
            proof {
                assert(unc_sum(scan_base, mask0, j2 as int + 1) == unc_sum(
                    scan_base,
                    mask0,
                    j2 as int,
                ) + if mask0[j2 as int] {
                    0
                } else {
                    scan_base[j2 as int].target
                });
            }
            let ghost body_head = nodes_model(work@);
            let ghost debt_pre = debt as int;
            if correctable[j2] {
                let ghost head = nodes_model(work@);
                let ghost pre_vec = work@;
                let asset = work.remove(j2);
                proof {
                    assert(asset@ == head[j2 as int]);
                }
                let ghost m_in = asset@;
                let prev_target = asset.target_value;
                let AssetAllocation {
                    name,
                    expected_weight,
                    current_value,
                    target_value: _,
                    min_value,
                    max_value,
                    restrict_buying,
                    restrict_selling,
                    buy_blocked,
                    sell_blocked,
                    holding,
                } = asset;
                proof {
                    assert(wf_node(m_in));
                    assert(0 <= expected_weight <= WEIGHT_SCALE);
                }
                let assigned: i128 = if divider > 0 {
                    proof {
                        assert(0 <= correctable_total as int * expected_weight as int
                            <= 1_000_000_000_000_000_000_000_000) by (nonlinear_arith)
                            requires
                                0 <= correctable_total as int <= 1_000_000_000_000_000_000,
                                0 <= expected_weight as int <= 1_000_000,
                        ;
                        lemma_round_div_bounds(
                            correctable_total as int * expected_weight as int,
                            divider as int,
                        );
                    }
                    let q = round_div_i128(correctable_total * expected_weight, divider);
                    if q > remaining {
                        remaining
                    } else {
                        q
                    }
                } else {
                    0
                };
                remaining = remaining - assigned;
                let mut target = assigned;
                let holding: Holding = match holding {
                    Holding::Group(children) => {
                        proof {
                            assert(m_in.holding == HoldingModel::Group {
                                children: nodes_model(children@),
                            });
                            assert(same_frame(orig[j2 as int], m_in));
                            lemma_seq_height_bound(orig, j2 as int);
                            assert(node_height(m_in) == node_height(orig[j2 as int]));
                            assert(node_height(m_in) == 1 + seq_height(nodes_model(children@)));
                            assert(wf_nodes(nodes_model(children@)));
                            assert(targets_bounded_deep(m_in));
                        }
                        let (children2, r) = sell_overbought_assets(
                            children,
                            target,
                            min_trade_volume,
                        );
                        match r {
                            SellResult::Resolved => {},
                            SellResult::Debt(d) => {
                                target = add_capped(target, d);
                                debt = debt + d;
                                correctable[j2] = false;
                            },
                        }
                        Holding::Group(children2)
                    },
                    Holding::Stock(h) => {
                        if current_value > target {
                            let rs = matches!(restrict_selling, Option::Some(true));
                            if rs || current_value < min_trade_volume {
                                debt = debt + (current_value - target);
                                target = current_value;
                                correctable[j2] = false;
                            } else if current_value - target < min_trade_volume {
                                if force_selling {
                                    let new_target = current_value - min_trade_volume;
                                    let extra = target - new_target;
                                    target = new_target;
                                    debt = debt - extra;
                                    if debt < 0 {
                                        debt = 0;
                                    }
                                } else {
                                    debt = debt + (current_value - target);
                                    target = current_value;
                                }
                            }
                        }
                        Holding::Stock(h)
                    },
                };
                let updated = AssetAllocation {
                    name,
                    expected_weight,
                    current_value,
                    target_value: target,
                    min_value,
                    max_value,
                    restrict_buying,
                    restrict_selling,
                    buy_blocked,
                    sell_blocked,
                    holding,
                };
                let ghost m_out = updated@;
                proof {
                    assert(same_frame(orig[j2 as int], m_out)) by {
                        match (orig[j2 as int].holding, m_in.holding, m_out.holding) {
                            (
                                HoldingModel::Group { children: oc },
                                HoldingModel::Group { children: c1 },
                                HoldingModel::Group { children: c2 },
                            ) => {
                                assert(same_frame(orig[j2 as int], m_in));
                                assert forall|k: int| 0 <= k < oc.len() implies same_frame(
                                    #[trigger] oc[k],
                                    c2[k],
                                ) by {
                                    assert(same_frame(oc[k], c1[k]));
                                    assert(same_frame(c1[k], c2[k]));
                                    lemma_same_frame_trans(oc[k], c1[k], c2[k]);
                                }
                            },
                            _ => {},
                        }
                    }
                    assert(node_height(m_out) == node_height(m_in)) by {
                        match (m_in.holding, m_out.holding) {
                            (
                                HoldingModel::Group { children: c1 },
                                HoldingModel::Group { children: c2 },
                            ) => {
                                lemma_seq_height_congruence(c2, c1);
                            },
                            _ => {},
                        }
                    }
                    assert(wf_node(m_out)) by {
                        match m_out.holding {
                            HoldingModel::Group { children } => {
                                assert(wf_nodes(children));
                            },
                            HoldingModel::Stock { .. } => {},
                        }
                    }
                    assert(targets_bounded_deep(m_out));
                    assert(sales_legal_deep(m_out, min_trade_volume as int)) by {
                        match m_out.holding {
                            HoldingModel::Group { children } => {
                                assert forall|kk: int| 0 <= kk < children.len() implies
                                    sales_legal_deep(
                                    #[trigger] children[kk],
                                    min_trade_volume as int,
                                ) by {}
                            },
                            HoldingModel::Stock { .. } => {},
                        }
                    }
                    assert(target as int <= assigned as int + (debt as int - debt_pre));
                }
                if updated.target_value != prev_target {
                    changed = true;
                }
                work.insert(j2, updated);
                proof {
                    assert(work@ =~= pre_vec.update(j2 as int, updated));
                    assert forall|i: int| 0 <= i < n implies nodes_model(work@)[i] == (
                    if i == j2 {
                        m_out
                    } else {
                        head[i]
                    }) by {
                        assert(nodes_model(work@)[i] == work@[i]@);
                        if i != j2 {
                            assert(work@[i] == pre_vec[i]);
                            assert(nodes_model(pre_vec)[i] == pre_vec[i]@);
                        }
                    }
                }
                placed = placed + target;
            } else {
                proof {
                    assert(nodes_model(work@)[j2 as int] == scan_base[j2 as int]);
                    assert(targets_bounded_deep(scan_base[j2 as int]));
                    assert(!mask0[j2 as int]);
                    assert(sales_legal_deep(scan_base[j2 as int], min_trade_volume as int));
                    assert(nodes_model(work@)[j2 as int] == work@[j2 as int]@);
                }
                let t_unc = work[j2].target_value;
                proof {
                    assert(t_unc as int == scan_base[j2 as int].target);
                }
                placed = placed + t_unc;
            }
            proof {
                let cur = nodes_model(work@);
                assert forall|i: int| 0 <= i < j2 implies cur[i] == body_head[i] by {
                    assert(cur[i] == work@[i]@);
                }
                assert(cur.subrange(0, j2 as int) =~= body_head.subrange(0, j2 as int));
                assert(cur.subrange(0, j2 as int).push(cur[j2 as int]) =~= cur.subrange(
                    0,
                    j2 as int + 1,
                ));
                lemma_sum_targets_push(cur.subrange(0, j2 as int), cur[j2 as int]);
                assert(placed as int == sum_targets(cur.subrange(0, j2 as int + 1)));
            }
            j2 = j2 + 1;
        }
        proof {
            let cur = nodes_model(work@);
            assert(cur.subrange(0, n as int) =~= cur);
            assert(sum_targets(cur) == placed as int);
            assert(sum_targets(cur) <= target_total_value + debt as int);
        }
        if debt == 0 {
            proof {
                lemma_wf_nodes_intro(nodes_model(work@));
            }
            return (work, SellResult::Resolved);
        }
        let mut any_correctable = false;
        let mut j3: usize = 0;
        while j3 < n
            invariant
                correctable@.len() == n,
                0 <= j3 <= n,
            decreases n - j3,
        {
            if correctable[j3] {
                any_correctable = true;
            }
            j3 = j3 + 1;
        }
        if !any_correctable {
            proof {
                lemma_wf_nodes_intro(nodes_model(work@));
            }
            let reported = if debt > TARGET_CAP {
                TARGET_CAP
            } else {
                debt
            };
            return (work, SellResult::Debt(reported));
        }
        if !changed {
            if force_selling {
                proof {
                lemma_wf_nodes_intro(nodes_model(work@));
            }
            let reported = if debt > TARGET_CAP {
                TARGET_CAP
            } else {
                debt
            };
            return (work, SellResult::Debt(reported));
            }
            force_selling = true;
        }
        if fuel == 0 {
            proof {
                lemma_wf_nodes_intro(nodes_model(work@));
            }
            let reported = if debt > TARGET_CAP {
                TARGET_CAP
            } else {
                debt
            };
            return (work, SellResult::Debt(reported));
        }
        fuel = fuel - 1;
    }
}

/// Appending a node to a forest raises the height to the taller of the two.
pub proof fn lemma_seq_height_push(s: Seq<NodeModel>, x: NodeModel)
    ensures
        seq_height(s.push(x)) == if node_height(x) >= seq_height(s) {
            node_height(x)
        } else {
            seq_height(s)
        },
    decreases s,
{
    let p = s.push(x);
    assert(p.len() == s.len() + 1);
    if s.len() == 0 {
        assert(p[0] == x);
        assert(p.subrange(1, p.len() as int) =~= Seq::<NodeModel>::empty());
        assert(seq_height(Seq::<NodeModel>::empty()) == 0);
    } else {
        let tail = s.subrange(1, s.len() as int);
        assert(p.subrange(1, p.len() as int) =~= tail.push(x));
        lemma_seq_height_push(tail, x);
        assert(p[0] == s[0]);
        assert(seq_height(p) == if node_height(p[0]) >= seq_height(p.subrange(1, p.len() as int)) {
            node_height(p[0])
        } else {
            seq_height(p.subrange(1, p.len() as int))
        });
        assert(seq_height(s) == if node_height(s[0]) >= seq_height(tail) {
            node_height(s[0])
        } else {
            seq_height(tail)
        });
    }
}

/// Why a rebalancing request is rejected before any computation starts.
#[derive(Clone, Copy, Debug, PartialEq, Eq, Structural)]
pub enum DomainError {
    /// The portfolio's total value is negative.
    NegativeTotalValue,
    /// The minimum trade volume is negative.
    NegativeMinTradeVolume,
    /// An instrument's unit price is zero or negative.
    NonPositivePrice,
    /// A node's expected weight lies outside the unit interval.
    InvalidWeight,
    /// A node's current value is negative.
    NegativeCurrentValue,
    /// An amount exceeds [`VALUE_LIMIT`], the largest the engine accepts.
    ValueOutOfRange,
    /// An instrument's current value is not a whole number of lots.
    UnalignedCurrentValue,
    /// The tree is deeper than [`HEIGHT_LIMIT`].
    TreeTooDeep,
}

/// What [`rebalance_portfolio`] reports on success.
#[derive(Clone, Copy, Debug, PartialEq, Eq, Structural)]
pub enum RebalanceResult {
    /// The allocator placed the whole total: every bound holds, trades are on
    /// whole lots and every group's children sum to the group's target.
    Balanced,
    /// The allocator left an unplaced balance and the debt resolver cleared
    /// it.
    Resolved,
    /// The debt resolver could not realise this amount of the requested
    /// reduction.
    Debt(i128),
}

/// The inputs [`rebalance_portfolio`] accepts: amounts in range, positive
/// prices, weights in the unit interval, whole-lot positions, the combined
/// instrument value within range, and a tree of accepted depth.
pub open spec fn portfolio_domain_ok(p: Portfolio) -> bool {
    &&& 0 <= p.total_value <= VALUE_LIMIT
    &&& 0 <= p.min_trade_volume <= VALUE_LIMIT
    &&& wf_nodes(nodes_model(p.assets@))
    &&& stock_current_sum_seq(nodes_model(p.assets@)) <= VALUE_LIMIT
    &&& seq_height(nodes_model(p.assets@)) <= HEIGHT_LIMIT
}

/// Facts linking one node's violation or share to the whole forest, used by
/// the validation walk's error paths.
proof fn lemma_node_in_forest(s: Seq<NodeModel>, j: int)
    requires
        0 <= j < s.len(),
    ensures
        !wf_node(s[j]) ==> !wf_nodes(s),
        wf_nodes(s) ==> node_height(s[j]) <= seq_height(s) && 0 <= stock_current_sum(s[j])
            <= stock_current_sum_seq(s),
{
    if wf_nodes(s) {
        lemma_wf_nodes(s);
        lemma_stock_current_sum_seq_nonneg(s);
        lemma_stock_current_sum_nonneg(s[j]);
        lemma_seq_height_bound(s, j);
    }
}

/// Checks every node of a forest, returning its combined instrument value
/// and its height, or the first domain violation found.
fn validate_nodes(assets: &Vec<AssetAllocation>) -> (r: Result<(i128, u64), DomainError>)
    ensures
        match r {
            Result::Ok(sh) => wf_nodes(nodes_model(assets@)) && sh.0 as int
                == stock_current_sum_seq(nodes_model(assets@)) && sh.1 as nat == seq_height(
                nodes_model(assets@),
            ) && sh.1 <= HEIGHT_LIMIT && 0 <= sh.0 <= VALUE_LIMIT,
            Result::Err(_) => !(wf_nodes(nodes_model(assets@)) && seq_height(
                nodes_model(assets@),
            ) <= HEIGHT_LIMIT && stock_current_sum_seq(nodes_model(assets@)) <= VALUE_LIMIT),
        },
    decreases seq_height(nodes_model(assets@)),
{
    let ghost orig = nodes_model(assets@);
    let n = assets.len();
    let mut total: i128 = 0;
    let mut height: u64 = 0;
    let mut j: usize = 0;
    while j < n
        invariant
            n == assets@.len(),
            orig == nodes_model(assets@),
            0 <= j <= n,
            wf_nodes(orig.subrange(0, j as int)),
            total as int == stock_current_sum_seq(orig.subrange(0, j as int)),
            0 <= total <= VALUE_LIMIT,
            height as nat == seq_height(orig.subrange(0, j as int)),
            height <= HEIGHT_LIMIT,
        decreases n - j,
    {
        let ghost m = orig[j as int];
        proof {
            assert(nodes_model(assets@)[j as int] == assets@[j as int]@);
            lemma_node_in_forest(orig, j as int);
        }
        let w = assets[j].expected_weight;
        if w < 0 || w > WEIGHT_SCALE {
            return Result::Err(DomainError::InvalidWeight);
        }
        let c = assets[j].current_value;
        if c < 0 {
            return Result::Err(DomainError::NegativeCurrentValue);
        }
        if c > VALUE_LIMIT {
            return Result::Err(DomainError::ValueOutOfRange);
        }
        let (node_sum, node_height_val): (i128, u64) = match &assets[j].holding {
            Holding::Stock(h) => {
                if h.price <= 0 {
                    return Result::Err(DomainError::NonPositivePrice);
                }
                if h.price > VALUE_LIMIT {
                    return Result::Err(DomainError::ValueOutOfRange);
                }
                if c % h.price != 0 {
                    return Result::Err(DomainError::UnalignedCurrentValue);
                }
                (c, 0u64)
            },
            Holding::Group(children) => {
                proof {
                    assert(m.holding == HoldingModel::Group {
                        children: nodes_model(children@),
                    });
                    lemma_seq_height_bound(orig, j as int);
                }
                match validate_nodes(children) {
                    Result::Ok(sh) => {
                        if sh.1 >= HEIGHT_LIMIT {
                            return Result::Err(DomainError::TreeTooDeep);
                        }
                        (sh.0, sh.1 + 1)
                    },
                    Result::Err(e) => {
                        return Result::Err(e);
                    },
                }
            },
        };
        proof {
            assert(wf_node(m));
            assert(node_height(m) == node_height_val as nat);
            assert(stock_current_sum(m) == node_sum as int);
            lemma_stock_current_sum_nonneg(m);
            let pre = orig.subrange(0, j as int);
            assert(pre.push(m) =~= orig.subrange(0, j + 1));
            lemma_seq_height_push(pre, m);
            lemma_wf_nodes(pre);
            lemma_wf_nodes_intro(pre.push(m));
            assert(stock_current_sum_seq(pre.push(m)) == stock_current_sum_seq(pre)
                + stock_current_sum(m)) by {
                lemma_stock_sum_push(pre, m);
            }
        }
        total = total + node_sum;
        if total > VALUE_LIMIT {
            proof {
                assert(!(wf_nodes(orig) && stock_current_sum_seq(orig) <= VALUE_LIMIT)) by {
                    if wf_nodes(orig) {
                        lemma_stock_sum_prefix_le(orig, j + 1);
                    }
                }
            }
            return Result::Err(DomainError::ValueOutOfRange);
        }
        height = if node_height_val > height {
            node_height_val
        } else {
            height
        };
        j = j + 1;
    }
    proof {
        assert(orig.subrange(0, n as int) =~= orig);
    }
    Result::Ok((total, height))
}

/// A prefix of a well-formed forest holds at most the whole forest's
/// instrument value.
proof fn lemma_stock_sum_prefix_le(s: Seq<NodeModel>, k: int)
    requires
        wf_nodes(s),
        0 <= k <= s.len(),
    ensures
        0 <= stock_current_sum_seq(s.subrange(0, k)) <= stock_current_sum_seq(s),
    decreases s,
{
    lemma_stock_current_sum_seq_nonneg(s);
    if k == 0 {
        assert(s.subrange(0, 0) =~= Seq::<NodeModel>::empty());
    } else {
        let tail = s.subrange(1, s.len() as int);
        let p = s.subrange(0, k);
        assert(p[0] == s[0]);
        assert(p.subrange(1, p.len() as int) =~= tail.subrange(0, k - 1));
        lemma_stock_current_sum_nonneg(s[0]);
        lemma_stock_sum_prefix_le(tail, k - 1);
        assert(stock_current_sum_seq(p) == stock_current_sum(p[0]) + stock_current_sum_seq(
            p.subrange(1, p.len() as int),
        ));
    }
}

/// Appending a node extends the instrument value sum.
proof fn lemma_stock_sum_push(s: Seq<NodeModel>, x: NodeModel)
    ensures
        stock_current_sum_seq(s.push(x)) == stock_current_sum_seq(s) + stock_current_sum(x),
    decreases s,
{
    let p = s.push(x);
    assert(p.len() == s.len() + 1);
    assert(stock_current_sum_seq(p) == stock_current_sum(p[0]) + stock_current_sum_seq(
        p.subrange(1, p.len() as int),
    ));
    if s.len() == 0 {
        assert(p[0] == x);
        assert(p.subrange(1, p.len() as int) =~= Seq::<NodeModel>::empty());
        assert(stock_current_sum_seq(Seq::<NodeModel>::empty()) == 0);
    } else {
        let tail = s.subrange(1, s.len() as int);
        assert(p.subrange(1, p.len() as int) =~= tail.push(x));
        lemma_stock_sum_push(tail, x);
        assert(p[0] == s[0]);
        assert(stock_current_sum_seq(s) == stock_current_sum(s[0]) + stock_current_sum_seq(
            tail,
        ));
    }
}

/// Full rebalancing of a portfolio, in place.
///
/// The request is first validated; a domain violation is reported without
/// touching the tree.  Restriction bounds are then propagated bottom-up and
/// targets allocated top-down.  When the allocator places the whole total the
/// result is [`RebalanceResult::Balanced`] and the contracts of the passes
/// guarantee conservation, bounds and whole-lot trades throughout the tree;
/// otherwise the debt resolver runs and reports whether it cleared the
/// leftover or what debt remains.
pub fn rebalance_portfolio(portfolio: &mut Portfolio) -> (r: Result<
    RebalanceResult,
    DomainError,
>)
    ensures
        final(portfolio).name == old(portfolio).name,
        final(portfolio).total_value == old(portfolio).total_value,
        final(portfolio).min_trade_volume == old(portfolio).min_trade_volume,
        final(portfolio).assets@.len() == old(portfolio).assets@.len(),
        r is Err <==> !portfolio_domain_ok(*old(portfolio)),
        r is Err ==> final(portfolio).assets@ == old(portfolio).assets@,
        r == Result::<RebalanceResult, DomainError>::Ok(RebalanceResult::Balanced) ==> {
            &&& sum_targets(nodes_model(final(portfolio).assets@)) == old(
                portfolio,
            ).total_value as int
            &&& forall|i: int| 0 <= i < final(portfolio).assets@.len() ==> conservation_deep(
                #[trigger] nodes_model(final(portfolio).assets@)[i],
            )
            &&& forall|i: int| 0 <= i < final(portfolio).assets@.len() ==> in_bounds_deep(
                #[trigger] nodes_model(final(portfolio).assets@)[i],
            )
            &&& forall|i: int| 0 <= i < final(portfolio).assets@.len() ==> lot_aligned_deep(
                #[trigger] nodes_model(final(portfolio).assets@)[i],
            )
        },
        r matches Result::Ok(RebalanceResult::Debt(d)) ==> 0 < d && (sum_targets(
            nodes_model(final(portfolio).assets@),
        ) <= old(portfolio).total_value + d || d == TARGET_CAP),
        r == Result::<RebalanceResult, DomainError>::Ok(RebalanceResult::Resolved)
            ==> sum_targets(nodes_model(final(portfolio).assets@)) <= old(
            portfolio,
        ).total_value as int,
        (r == Result::<RebalanceResult, DomainError>::Ok(RebalanceResult::Resolved) || r matches
        Result::Ok(RebalanceResult::Debt(_))) ==> forall|i: int|
            0 <= i < final(portfolio).assets@.len() ==> sales_legal_deep(
                #[trigger] nodes_model(final(portfolio).assets@)[i],
                old(portfolio).min_trade_volume as int,
            ),
        r is Ok ==> forall|i: int| 0 <= i < final(portfolio).assets@.len() ==> same_frame(
            with_restrictions(nodes_model(old(portfolio).assets@)[i]),
            #[trigger] nodes_model(final(portfolio).assets@)[i],
        ),
        r is Ok ==> forall|i: int| 0 <= i < final(portfolio).assets@.len() ==> (#[trigger]
        nodes_model(final(portfolio).assets@)[i]).min == spec_min_value(
            nodes_model(old(portfolio).assets@)[i],
        ) && nodes_model(final(portfolio).assets@)[i].max == spec_max_value(
            nodes_model(old(portfolio).assets@)[i],
        ),
        r is Ok ==> forall|i: int| 0 <= i < final(portfolio).assets@.len() ==> (#[trigger]
        nodes_model(final(portfolio).assets@)[i]).buy_blocked == (nodes_model(
            old(portfolio).assets@,
        )[i].buy_blocked || spec_buy_clamp(
            with_restrictions(nodes_model(old(portfolio).assets@)[i]),
            old(portfolio).total_value as int,
            old(portfolio).min_trade_volume as int,
        )) && nodes_model(final(portfolio).assets@)[i].sell_blocked == (nodes_model(
            old(portfolio).assets@,
        )[i].sell_blocked || spec_sell_clamp(
            with_restrictions(nodes_model(old(portfolio).assets@)[i]),
            old(portfolio).total_value as int,
            old(portfolio).min_trade_volume as int,
        )),
{
    if portfolio.total_value < 0 {
        return Result::Err(DomainError::NegativeTotalValue);
    }
    if portfolio.total_value > VALUE_LIMIT {
        return Result::Err(DomainError::ValueOutOfRange);
    }
    if portfolio.min_trade_volume < 0 {
        return Result::Err(DomainError::NegativeMinTradeVolume);
    }
    if portfolio.min_trade_volume > VALUE_LIMIT {
        return Result::Err(DomainError::ValueOutOfRange);
    }
    match validate_nodes(&portfolio.assets) {
        Result::Err(e) => {
            return Result::Err(e);
        },
        Result::Ok(_) => {},
    }
    let ghost orig = nodes_model(old(portfolio).assets@);
    let mut assets: Vec<AssetAllocation> = Vec::new();
    core::mem::swap(&mut portfolio.assets, &mut assets);
    proof {
        lemma_with_restrictions_seq(orig);
        lemma_with_restrictions_seq_preserves(orig);
        lemma_with_restrictions_sets_bounds(orig);
    }
    let (assets, _total_min, _total_max) = calculate_restrictions(assets);
    proof {
        assert(nodes_model(assets@) == with_restrictions_seq(orig));
        assert(seq_height(nodes_model(assets@)) == seq_height(orig));
        assert(seq_height(orig) <= 200);
        assert(portfolio.total_value + 4_000_000_000_000_000 * (seq_height(
            nodes_model(assets@),
        ) as int + 1) <= TARGET_CAP);
    }
    let total_value = portfolio.total_value;
    let min_trade_volume = portfolio.min_trade_volume;
    let (assets, alloc) = calculate_target_value(assets, total_value, min_trade_volume);
    if alloc.resolved {
        proof {
            assert(nodes_model(assets@).len() == orig.len());
            assert(assets@.len() == old(portfolio).assets@.len());
            assert forall|i: int| 0 <= i < orig.len() implies same_frame(
                with_restrictions(orig[i]),
                #[trigger] nodes_model(assets@)[i],
            ) && nodes_model(assets@)[i].min == spec_min_value(orig[i]) && nodes_model(
                assets@,
            )[i].max == spec_max_value(orig[i]) by {
                assert(same_frame(with_restrictions(orig[i]), nodes_model(assets@)[i]));
            }
        }
        portfolio.assets = assets;
        return Result::Ok(RebalanceResult::Balanced);
    }
    let ghost allocated = nodes_model(assets@);
    let (assets, sold) = sell_overbought_assets(assets, total_value, min_trade_volume);
    proof {
        assert(nodes_model(assets@).len() == orig.len());
        assert(assets@.len() == old(portfolio).assets@.len());
        assert forall|i: int| 0 <= i < orig.len() implies same_frame(
            with_restrictions(orig[i]),
            #[trigger] nodes_model(assets@)[i],
        ) && nodes_model(assets@)[i].min == spec_min_value(orig[i]) && nodes_model(
            assets@,
        )[i].max == spec_max_value(orig[i]) by {
            assert(same_frame(with_restrictions(orig[i]), allocated[i]));
            assert(same_frame(allocated[i], nodes_model(assets@)[i]));
            lemma_same_frame_trans(
                with_restrictions(orig[i]),
                allocated[i],
                nodes_model(assets@)[i],
            );
        }
    }
    portfolio.assets = assets;
    match sold {
        SellResult::Resolved => Result::Ok(RebalanceResult::Resolved),
        SellResult::Debt(d) => Result::Ok(RebalanceResult::Debt(d)),
    }
}

} // verus!
