//! The asset tree: a portfolio holds an ordered forest of allocation nodes,
//! each either a priced instrument or a group of further nodes.
//!
//! Monetary amounts are integers in the smallest currency unit and weights
//! are parts per million, so all contracts can be stated in exact integer
//! arithmetic.  Every node carries a ghost mirror ([`NodeModel`]) that the
//! contracts of the rebalancing passes are written over.

use vstd::prelude::*;

verus! {

/// Weights are fractions of the parent's target value, in parts per million.
pub const WEIGHT_SCALE: i128 = 1_000_000;

/// Upper bound accepted for caller-supplied amounts (total value, current
/// values, prices, minimum trade volume) and for the instrument values of a
/// whole tree.  Amounts beyond it are rejected as out of range so that all
/// internal arithmetic stays far away from overflow.
pub const VALUE_LIMIT: i128 = 1_000_000_000_000_000;

/// Bound that every computed target value provably stays under.
pub const TARGET_CAP: i128 = 1_000_000_000_000_000_000;

/// Deepest accepted tree; deeper trees are rejected as a domain error.
pub const HEIGHT_LIMIT: u64 = 200;

/// A priced instrument: trades happen in whole lots of `price`.
pub struct StockHolding {
    pub price: i128,
}

/// What a node holds: either child nodes or a priced instrument.
pub enum Holding {
    Group(Vec<AssetAllocation>),
    Stock(StockHolding),
}

/// One node of the asset tree.
///
/// `expected_weight`, `current_value` and the restriction flags are supplied
/// by the caller; `min_value`, `max_value`, `target_value`, `buy_blocked` and
/// `sell_blocked` are computed by the engine.
pub struct AssetAllocation {
    pub name: String,
    pub expected_weight: i128,
    pub current_value: i128,
    pub target_value: i128,
    pub min_value: i128,
    pub max_value: Option<i128>,
    pub restrict_buying: Option<bool>,
    pub restrict_selling: Option<bool>,
    pub buy_blocked: bool,
    pub sell_blocked: bool,
    pub holding: Holding,
}

/// The whole rebalancing request.
pub struct Portfolio {
    pub name: String,
    pub assets: Vec<AssetAllocation>,
    pub total_value: i128,
    pub min_trade_volume: i128,
}

/// Ghost mirror of [`Holding`].
#[verifier::ext_equal]
pub ghost enum HoldingModel {
    Group { children: Seq<NodeModel> },
    Stock { price: int },
}

/// Ghost mirror of [`AssetAllocation`].  The optional restriction flags are
/// mirrored as their effective value: an absent flag means no restriction.
#[verifier::ext_equal]
pub ghost struct NodeModel {
    pub name: Seq<char>,
    pub weight: int,
    pub current: int,
    pub target: int,
    pub min: int,
    pub max: Option<int>,
    pub restrict_buying: bool,
    pub restrict_selling: bool,
    pub buy_blocked: bool,
    pub sell_blocked: bool,
    pub holding: HoldingModel,
}

impl View for AssetAllocation {
    type V = NodeModel;

    open spec fn view(&self) -> NodeModel
        decreases self,
    {
        NodeModel {
            name: self.name@,
            weight: self.expected_weight as int,
            current: self.current_value as int,
            target: self.target_value as int,
            min: self.min_value as int,
            max: match self.max_value {
                Option::Some(x) => Option::Some(x as int),
                Option::None => Option::None,
            },
            restrict_buying: self.restrict_buying == Option::Some(true),
            restrict_selling: self.restrict_selling == Option::Some(true),
            buy_blocked: self.buy_blocked,
            sell_blocked: self.sell_blocked,
            holding: match self.holding {
                Holding::Group(children) => HoldingModel::Group {
                    children: nodes_model(children@),
                },
                Holding::Stock(h) => HoldingModel::Stock { price: h.price as int },
            },
        }
    }
}

/// Ghost mirror of a sequence of nodes, element by element.
pub open spec fn nodes_model(s: Seq<AssetAllocation>) -> Seq<NodeModel>
    decreases s,
{
    if s.len() == 0 {
        Seq::empty()
    } else {
        seq![s[0]@] + nodes_model(s.subrange(1, s.len() as int))
    }
}

/// `nodes_model` is the element-wise mirror.
pub broadcast proof fn lemma_nodes_model(s: Seq<AssetAllocation>)
    ensures
        (#[trigger] nodes_model(s)).len() == s.len(),
        forall|i: int| 0 <= i < s.len() ==> nodes_model(s)[i] == s[i]@,
    decreases s,
{
    if s.len() > 0 {
        let tail = s.subrange(1, s.len() as int);
        lemma_nodes_model(tail);
        assert(nodes_model(s) == seq![s[0]@] + nodes_model(tail));
        assert forall|i: int| 0 <= i < s.len() implies nodes_model(s)[i] == s[i]@ by {
            if i > 0 {
                assert(nodes_model(s)[i] == nodes_model(tail)[i - 1]);
                assert(tail[i - 1] == s[i]);
            }
        }
    }
}

/// Height of a node: instruments are leaves, a group is one above its
/// tallest child.
pub open spec fn node_height(m: NodeModel) -> nat
    decreases m,
{
    match m.holding {
        HoldingModel::Stock { .. } => 0,
        HoldingModel::Group { children } => 1 + seq_height(children),
    }
}

/// Height of a forest: the tallest of its nodes.
pub open spec fn seq_height(s: Seq<NodeModel>) -> nat
    decreases s,
{
    if s.len() == 0 {
        0
    } else if node_height(s[0]) >= seq_height(s.subrange(1, s.len() as int)) {
        node_height(s[0])
    } else {
        seq_height(s.subrange(1, s.len() as int))
    }
}

/// A suffix of a forest is no taller than the forest.
pub proof fn lemma_seq_height_suffix(s: Seq<NodeModel>, i: int)
    requires
        0 <= i <= s.len(),
    ensures
        seq_height(s.subrange(i, s.len() as int)) <= seq_height(s),
    decreases i,
{
    if i > 0 {
        let x = s.subrange(i - 1, s.len() as int);
        lemma_seq_height_suffix(s, i - 1);
        assert(x.subrange(1, x.len() as int) =~= s.subrange(i, s.len() as int));
        assert(seq_height(x.subrange(1, x.len() as int)) <= seq_height(x));
    } else {
        assert(s.subrange(0, s.len() as int) =~= s);
    }
}

/// Every node of a forest fits under the forest's height.
pub proof fn lemma_seq_height_bound(s: Seq<NodeModel>, i: int)
    requires
        0 <= i < s.len(),
    ensures
        node_height(s[i]) <= seq_height(s),
    decreases s,
{
    if i > 0 {
        lemma_seq_height_bound(s.subrange(1, s.len() as int), i - 1);
    }
}

/// Forests whose nodes have pairwise equal heights have equal heights.
pub proof fn lemma_seq_height_congruence(s1: Seq<NodeModel>, s2: Seq<NodeModel>)
    requires
        s1.len() == s2.len(),
        forall|i: int| 0 <= i < s1.len() ==> node_height(#[trigger] s1[i]) == node_height(
            s2[i],
        ),
    ensures
        seq_height(s1) == seq_height(s2),
    decreases s1,
{
    if s1.len() > 0 {
        let t1 = s1.subrange(1, s1.len() as int);
        let t2 = s2.subrange(1, s2.len() as int);
        assert(forall|i: int| 0 <= i < t1.len() ==> #[trigger] t1[i] == s1[i + 1] && t2[i]
            == s2[i + 1]);
        lemma_seq_height_congruence(t1, t2);
    }
}

/// Caller-supplied fields are within range: weights are fractions, values
/// and prices are non-negative and bounded, prices are positive.
pub open spec fn wf_node(m: NodeModel) -> bool
    decreases m,
{
    &&& 0 <= m.weight <= WEIGHT_SCALE
    &&& 0 <= m.current <= VALUE_LIMIT
    &&& match m.holding {
        HoldingModel::Stock { price } => 0 < price <= VALUE_LIMIT && m.current % price == 0,
        HoldingModel::Group { children } => wf_nodes(children),
    }
}

/// [`wf_node`] over a forest.
pub open spec fn wf_nodes(s: Seq<NodeModel>) -> bool
    decreases s,
{
    if s.len() == 0 {
        true
    } else {
        wf_node(s[0]) && wf_nodes(s.subrange(1, s.len() as int))
    }
}

/// Pointwise reading of [`wf_nodes`].
pub broadcast proof fn lemma_wf_nodes(s: Seq<NodeModel>)
    requires
        #[trigger] wf_nodes(s),
    ensures
        forall|i: int| 0 <= i < s.len() ==> wf_node(#[trigger] s[i]),
    decreases s,
{
    if s.len() > 0 {
        lemma_wf_nodes(s.subrange(1, s.len() as int));
        assert forall|i: int| 0 <= i < s.len() implies wf_node(#[trigger] s[i]) by {
            if i > 0 {
                assert(s[i] == s.subrange(1, s.len() as int)[i - 1]);
            }
        }
    }
}

/// [`wf_nodes`] holds of any forest whose nodes all satisfy [`wf_node`].
pub proof fn lemma_wf_nodes_intro(s: Seq<NodeModel>)
    requires
        forall|i: int| 0 <= i < s.len() ==> wf_node(#[trigger] s[i]),
    ensures
        wf_nodes(s),
    decreases s,
{
    if s.len() > 0 {
        let tail = s.subrange(1, s.len() as int);
        assert(forall|i: int| 0 <= i < tail.len() ==> #[trigger] tail[i] == s[i + 1]);
        lemma_wf_nodes_intro(tail);
    }
}

/// Total current value held in instruments, the amount that restriction
/// bounds can add up to.
pub open spec fn stock_current_sum(m: NodeModel) -> int
    decreases m,
{
    match m.holding {
        HoldingModel::Stock { .. } => m.current,
        HoldingModel::Group { children } => stock_current_sum_seq(children),
    }
}

/// [`stock_current_sum`] over a forest.
pub open spec fn stock_current_sum_seq(s: Seq<NodeModel>) -> int
    decreases s,
{
    if s.len() == 0 {
        0
    } else {
        stock_current_sum(s[0]) + stock_current_sum_seq(s.subrange(1, s.len() as int))
    }
}

/// Instrument values are individually non-negative, so every node's share is
/// bounded by the forest's total.
pub proof fn lemma_stock_current_sum_nonneg(m: NodeModel)
    requires
        wf_node(m),
    ensures
        stock_current_sum(m) >= 0,
    decreases m,
{
    match m.holding {
        HoldingModel::Stock { .. } => {},
        HoldingModel::Group { children } => {
            lemma_stock_current_sum_seq_nonneg(children);
        },
    }
}

/// [`lemma_stock_current_sum_nonneg`] over a forest, with the bound on each
/// member.
pub proof fn lemma_stock_current_sum_seq_nonneg(s: Seq<NodeModel>)
    requires
        wf_nodes(s),
    ensures
        stock_current_sum_seq(s) >= 0,
        forall|i: int| 0 <= i < s.len() ==> #[trigger] stock_current_sum(s[i])
            <= stock_current_sum_seq(s),
    decreases s,
{
    if s.len() > 0 {
        let tail = s.subrange(1, s.len() as int);
        lemma_stock_current_sum_nonneg(s[0]);
        lemma_stock_current_sum_seq_nonneg(tail);
        assert forall|i: int| 0 <= i < s.len() implies #[trigger] stock_current_sum(s[i])
            <= stock_current_sum_seq(s) by {
            if i > 0 {
                assert(s[i] == tail[i - 1]);
            }
        }
    }
}

/// Computed restriction bounds are in range and consistent: the minimum is
/// non-negative and never above a defined maximum.
pub open spec fn bounds_wf_node(m: NodeModel) -> bool
    decreases m,
{
    &&& 0 <= m.min <= VALUE_LIMIT
    &&& match m.max {
        Option::Some(x) => m.min <= x <= VALUE_LIMIT,
        Option::None => true,
    }
    &&& match m.holding {
        HoldingModel::Group { children } => bounds_wf_nodes(children),
        HoldingModel::Stock { .. } => true,
    }
}

/// [`bounds_wf_node`] over a forest.
pub open spec fn bounds_wf_nodes(s: Seq<NodeModel>) -> bool
    decreases s,
{
    if s.len() == 0 {
        true
    } else {
        bounds_wf_node(s[0]) && bounds_wf_nodes(s.subrange(1, s.len() as int))
    }
}

/// Pointwise reading of [`bounds_wf_nodes`].
pub broadcast proof fn lemma_bounds_wf_nodes(s: Seq<NodeModel>)
    requires
        #[trigger] bounds_wf_nodes(s),
    ensures
        forall|i: int| 0 <= i < s.len() ==> bounds_wf_node(#[trigger] s[i]),
    decreases s,
{
    if s.len() > 0 {
        lemma_bounds_wf_nodes(s.subrange(1, s.len() as int));
        assert forall|i: int| 0 <= i < s.len() implies bounds_wf_node(#[trigger] s[i]) by {
            if i > 0 {
                assert(s[i] == s.subrange(1, s.len() as int)[i - 1]);
            }
        }
    }
}

/// Sum of the target values of a forest's roots.
pub open spec fn sum_targets(s: Seq<NodeModel>) -> int
    decreases s,
{
    if s.len() == 0 {
        0
    } else {
        s[0].target + sum_targets(s.subrange(1, s.len() as int))
    }
}

/// Replacing one node changes the sum by the difference of its target.
pub proof fn lemma_sum_targets_update(s: Seq<NodeModel>, i: int, x: NodeModel)
    requires
        0 <= i < s.len(),
    ensures
        sum_targets(s.update(i, x)) == sum_targets(s) - s[i].target + x.target,
    decreases s,
{
    let t = s.update(i, x);
    if i == 0 {
        assert(t.subrange(1, t.len() as int) =~= s.subrange(1, s.len() as int));
    } else {
        assert(t.subrange(1, t.len() as int) =~= s.subrange(1, s.len() as int).update(
            i - 1,
            x,
        ));
        lemma_sum_targets_update(s.subrange(1, s.len() as int), i - 1, x);
    }
}

/// Sums split around the last element.
pub proof fn lemma_sum_targets_push(s: Seq<NodeModel>, x: NodeModel)
    ensures
        sum_targets(s.push(x)) == sum_targets(s) + x.target,
    decreases s,
{
    let p = s.push(x);
    assert(p.len() == s.len() + 1);
    if s.len() == 0 {
        assert(p[0] == x);
        assert(p.subrange(1, p.len() as int) =~= Seq::<NodeModel>::empty());
        assert(sum_targets(p) == p[0].target + sum_targets(p.subrange(1, p.len() as int)));
    } else {
        let tail = s.subrange(1, s.len() as int);
        assert(p.subrange(1, p.len() as int) =~= tail.push(x));
        lemma_sum_targets_push(tail, x);
        assert(p[0] == s[0]);
        assert(sum_targets(p) == p[0].target + sum_targets(p.subrange(1, p.len() as int)));
    }
}

/// A non-negative forest sums to at least each member's target.
pub proof fn lemma_sum_targets_member_bound(s: Seq<NodeModel>, i: int)
    requires
        0 <= i < s.len(),
        forall|j: int| 0 <= j < s.len() ==> #[trigger] s[j].target >= 0,
    ensures
        s[i].target <= sum_targets(s),
        sum_targets(s) >= 0,
    decreases s,
{
    let tail = s.subrange(1, s.len() as int);
    assert(forall|j: int| 0 <= j < tail.len() ==> #[trigger] tail[j] == s[j + 1]);
    assert(sum_targets(s) == s[0].target + sum_targets(tail));
    if s.len() == 1 {
        assert(tail.len() == 0);
        assert(sum_targets(tail) == 0);
    } else if i == 0 {
        lemma_sum_targets_member_bound(tail, 0);
    } else {
        lemma_sum_targets_member_bound(tail, i - 1);
    }
}

} // verus!
