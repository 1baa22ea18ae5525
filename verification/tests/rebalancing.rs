use investments::asset_allocation::{AssetAllocation, Holding, Portfolio, StockHolding};
use investments::rebalancing::{
    calculate_restrictions, rebalance_portfolio, sell_overbought_assets, DomainError,
    RebalanceResult, SellResult,
};

fn stock(
    name: &str,
    weight: i128,
    current: i128,
    price: i128,
    restrict_buying: Option<bool>,
    restrict_selling: Option<bool>,
) -> AssetAllocation {
    AssetAllocation {
        name: String::from(name),
        expected_weight: weight,
        current_value: current,
        target_value: 0,
        min_value: 0,
        max_value: None,
        restrict_buying,
        restrict_selling,
        buy_blocked: false,
        sell_blocked: false,
        holding: Holding::Stock(StockHolding { price }),
    }
}

fn group(name: &str, weight: i128, current: i128, children: Vec<AssetAllocation>) -> AssetAllocation {
    AssetAllocation {
        name: String::from(name),
        expected_weight: weight,
        current_value: current,
        target_value: 0,
        min_value: 0,
        max_value: None,
        restrict_buying: None,
        restrict_selling: None,
        buy_blocked: false,
        sell_blocked: false,
        holding: Holding::Group(children),
    }
}

fn portfolio(total_value: i128, min_trade_volume: i128, assets: Vec<AssetAllocation>) -> Portfolio {
    Portfolio {
        name: String::from("portfolio"),
        assets,
        total_value,
        min_trade_volume,
    }
}

#[test]
fn two_instruments_split_evenly() {
    let mut p = portfolio(
        100,
        1,
        vec![
            stock("a", 500_000, 0, 10, None, None),
            stock("b", 500_000, 0, 5, None, None),
        ],
    );
    let r = rebalance_portfolio(&mut p).unwrap();
    assert_eq!(r, RebalanceResult::Balanced);
    assert_eq!(p.assets[0].target_value, 50);
    assert_eq!(p.assets[1].target_value, 50);
    assert_eq!(p.assets[0].target_value % 10, 0);
    assert_eq!(p.assets[1].target_value % 5, 0);
}

#[test]
fn sell_restricted_instrument_keeps_its_value() {
    let mut p = portfolio(
        2000,
        1,
        vec![
            stock("a", 0, 1000, 1, None, Some(true)),
            stock("b", 1_000_000, 1000, 1, None, None),
        ],
    );
    let r = rebalance_portfolio(&mut p).unwrap();
    assert_eq!(r, RebalanceResult::Balanced);
    assert_eq!(p.assets[0].target_value, 1000);
    assert!(p.assets[0].sell_blocked);
    assert_eq!(p.assets[1].target_value, 1000);
    assert_eq!(p.assets[0].target_value + p.assets[1].target_value, 2000);
}

#[test]
fn debt_reported_when_nothing_can_be_sold() {
    let mut p = portfolio(0, 1, vec![stock("a", 1_000_000, 1000, 1, None, Some(true))]);
    let r = rebalance_portfolio(&mut p).unwrap();
    assert_eq!(r, RebalanceResult::Debt(1000));
    assert_eq!(p.assets[0].target_value, 1000);
}

#[test]
fn three_level_tree_conserves_totals_at_every_level() {
    let sub = group(
        "sub",
        600_000,
        0,
        vec![
            stock("a", 500_000, 0, 1, None, None),
            stock("b", 500_000, 0, 1, None, None),
        ],
    );
    let mut p = portfolio(1000, 1, vec![sub, stock("c", 400_000, 0, 1, None, None)]);
    let r = rebalance_portfolio(&mut p).unwrap();
    assert_eq!(r, RebalanceResult::Balanced);
    assert_eq!(p.assets[0].target_value, 600);
    assert_eq!(p.assets[1].target_value, 400);
    match &p.assets[0].holding {
        Holding::Group(children) => {
            assert_eq!(children[0].target_value, 300);
            assert_eq!(children[1].target_value, 300);
            assert_eq!(
                children[0].target_value + children[1].target_value,
                p.assets[0].target_value
            );
        }
        Holding::Stock(_) => panic!("expected a group"),
    }
    assert_eq!(p.assets[0].target_value + p.assets[1].target_value, 1000);
}

#[test]
fn buy_restricted_instrument_releases_value_to_siblings() {
    let mut p = portfolio(
        2000,
        1,
        vec![
            stock("a", 800_000, 100, 1, Some(true), None),
            stock("b", 200_000, 0, 1, None, None),
        ],
    );
    let r = rebalance_portfolio(&mut p).unwrap();
    assert_eq!(r, RebalanceResult::Balanced);
    assert_eq!(p.assets[0].target_value, 100);
    assert!(p.assets[0].buy_blocked);
    assert_eq!(p.assets[1].target_value, 1900);
}

#[test]
fn restriction_propagation_bounds() {
    let assets = vec![
        stock("a", 500_000, 300, 3, Some(true), Some(true)),
        stock("b", 500_000, 200, 2, None, None),
    ];
    let (out, total_min, total_max) = calculate_restrictions(assets);
    assert_eq!(out[0].min_value, 300);
    assert_eq!(out[0].max_value, Some(300));
    assert_eq!(out[1].min_value, 0);
    assert_eq!(out[1].max_value, None);
    assert_eq!(total_min, 300);
    assert_eq!(total_max, None);
}

#[test]
fn restriction_propagation_is_idempotent() {
    let assets = vec![group(
        "g",
        1_000_000,
        500,
        vec![
            stock("a", 500_000, 300, 3, Some(true), Some(true)),
            stock("b", 500_000, 200, 2, Some(true), None),
        ],
    )];
    let (once, min1, max1) = calculate_restrictions(assets);
    let (twice, min2, max2) = calculate_restrictions(once);
    assert_eq!(min1, min2);
    assert_eq!(max1, max2);
    assert_eq!(twice[0].min_value, 300);
    assert_eq!(twice[0].max_value, Some(500));
    match &twice[0].holding {
        Holding::Group(children) => {
            assert_eq!(children[0].min_value, 300);
            assert_eq!(children[0].max_value, Some(300));
            assert_eq!(children[1].min_value, 0);
            assert_eq!(children[1].max_value, Some(200));
        }
        Holding::Stock(_) => panic!("expected a group"),
    }
}

#[test]
fn group_ceiling_needs_every_child_bounded() {
    let assets = vec![group(
        "g",
        1_000_000,
        0,
        vec![
            stock("a", 500_000, 100, 1, Some(true), None),
            stock("b", 500_000, 100, 1, Some(true), None),
        ],
    )];
    let (out, _, total_max) = calculate_restrictions(assets);
    assert_eq!(out[0].max_value, Some(200));
    assert_eq!(total_max, Some(200));
}

#[test]
fn debt_resolver_clears_feasible_reduction() {
    let assets = vec![
        stock("a", 500_000, 600, 1, None, None),
        stock("b", 500_000, 600, 1, None, None),
    ];
    let (out, result) = sell_overbought_assets(assets, 1000, 1);
    assert!(matches!(result, SellResult::Resolved));
    assert_eq!(out[0].target_value + out[1].target_value, 1000);
}

#[test]
fn negative_total_value_is_rejected() {
    let mut p = portfolio(-1, 1, vec![stock("a", 1_000_000, 0, 1, None, None)]);
    assert_eq!(rebalance_portfolio(&mut p), Err(DomainError::NegativeTotalValue));
    assert_eq!(p.assets[0].target_value, 0);
}

#[test]
fn negative_min_trade_volume_is_rejected() {
    let mut p = portfolio(100, -1, vec![stock("a", 1_000_000, 0, 1, None, None)]);
    assert_eq!(
        rebalance_portfolio(&mut p),
        Err(DomainError::NegativeMinTradeVolume)
    );
}

#[test]
fn non_positive_price_is_rejected() {
    let mut p = portfolio(100, 1, vec![stock("a", 1_000_000, 0, 0, None, None)]);
    assert_eq!(rebalance_portfolio(&mut p), Err(DomainError::NonPositivePrice));
}

#[test]
fn out_of_range_weight_is_rejected() {
    let mut p = portfolio(100, 1, vec![stock("a", 2_000_000, 0, 1, None, None)]);
    assert_eq!(rebalance_portfolio(&mut p), Err(DomainError::InvalidWeight));
}

#[test]
fn negative_current_value_is_rejected() {
    let mut p = portfolio(100, 1, vec![stock("a", 1_000_000, -5, 1, None, None)]);
    assert_eq!(
        rebalance_portfolio(&mut p),
        Err(DomainError::NegativeCurrentValue)
    );
}

#[test]
fn oversized_amount_is_rejected() {
    let mut p = portfolio(
        100,
        1,
        vec![stock("a", 1_000_000, 10_000_000_000_000_000, 1, None, None)],
    );
    assert_eq!(rebalance_portfolio(&mut p), Err(DomainError::ValueOutOfRange));
}

#[test]
fn fractional_position_is_rejected() {
    let mut p = portfolio(100, 1, vec![stock("a", 1_000_000, 7, 2, None, None)]);
    assert_eq!(
        rebalance_portfolio(&mut p),
        Err(DomainError::UnalignedCurrentValue)
    );
}

#[test]
fn too_deep_tree_is_rejected() {
    let mut node = stock("leaf", 1_000_000, 0, 1, None, None);
    for level in 0..201 {
        node = group(&format!("level{level}"), 1_000_000, 0, vec![node]);
    }
    let mut p = portfolio(100, 1, vec![node]);
    assert_eq!(rebalance_portfolio(&mut p), Err(DomainError::TreeTooDeep));
}

#[test]
fn unnormalized_weights_still_conserve_the_total() {
    let mut p = portfolio(
        900,
        1,
        vec![
            stock("a", 200_000, 0, 1, None, None),
            stock("b", 200_000, 0, 1, None, None),
        ],
    );
    let r = rebalance_portfolio(&mut p).unwrap();
    assert_eq!(r, RebalanceResult::Balanced);
    assert_eq!(p.assets[0].target_value + p.assets[1].target_value, 900);
}

#[test]
fn tiny_differences_are_not_traded() {
    let mut p = portfolio(
        200,
        10,
        vec![
            stock("a", 500_000, 98, 1, None, None),
            stock("b", 500_000, 102, 1, None, None),
        ],
    );
    let r = rebalance_portfolio(&mut p).unwrap();
    assert_eq!(r, RebalanceResult::Balanced);
    assert_eq!(p.assets[0].target_value, 98);
    assert_eq!(p.assets[1].target_value, 102);
}

#[test]
fn debt_resolver_force_sells_when_a_pass_stalls() {
    // The implied sale of 5 is below the minimum trade volume of 7, so an
    // ordinary pass cannot shrink the position; the resolver escalates into
    // force selling and shaves the position down by one minimum trade volume.
    let assets = vec![stock("a", 1_000_000, 100, 1, None, None)];
    let (out, result) = sell_overbought_assets(assets, 95, 7);
    assert!(matches!(result, SellResult::Resolved));
    assert_eq!(out[0].target_value, 93);
}
