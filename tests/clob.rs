use omniliquid_clob::events::OrderMatched;
use omniliquid_clob::exchange::{
    cancel_all_orders, cancel_order, change_market_status, deposit_collateral, initialize,
    liquidate_position, place_order, refund_amount, update_funding_rate, withdraw_collateral,
    MarketAccounts, PlaceOrderOutcome,
};
use omniliquid_clob::market::Market;
use omniliquid_clob::oracle::{get_feed_id_from_hex, scale_oracle_price};
use omniliquid_clob::order::Order;
use omniliquid_clob::orderbook::Orderbook;
use omniliquid_clob::position::Position;
use omniliquid_clob::types::{
    AccountKey, AssetRiskParams, ErrorCode, MarketStatus, OrderType, SelfTradeBehavior, Side,
};

const FEED: &str = "0xe62df6c8b4a85fe1a67db44dc12de5db330f7ac66b72dc658afedf0f4a415b43";

fn key(n: u8) -> AccountKey {
    AccountKey::new([n; 32])
}

fn accounts() -> MarketAccounts {
    MarketAccounts {
        market: key(200),
        authority: key(201),
        base_mint: key(202),
        quote_mint: key(203),
        base_vault: key(204),
        quote_vault: key(205),
    }
}

fn new_market(is_perpetual: bool) -> (Market, Orderbook) {
    let (m, b, _) = initialize(
        accounts(),
        "SOL-PERP".to_string(),
        "SOL".to_string(),
        "SOL".to_string(),
        is_perpetual,
        true,
        1,
        1,
        10,
        5,
        20,
        3600,
        255,
        key(206),
        FEED,
        60,
        1_000,
    )
    .unwrap();
    (m, b)
}

fn risk() -> AssetRiskParams {
    AssetRiskParams { max_leverage: 20, maintenance_margin_ratio: 500, liquidation_fee: 1000 }
}

#[allow(clippy::too_many_arguments)]
fn order(
    m: &mut Market,
    b: &mut Orderbook,
    user: u8,
    oracle: Option<u64>,
    side: Side,
    price: u64,
    size: u64,
    order_type: OrderType,
    stb: SelfTradeBehavior,
    reduce_only: bool,
    leverage: Option<u16>,
) -> Result<PlaceOrderOutcome, ErrorCode> {
    place_order(
        m, b, key(user), 2_000, oracle, 500, None, side, price, size, order_type, stb, reduce_only,
        false, leverage,
    )
}

fn limit(m: &mut Market, b: &mut Orderbook, user: u8, side: Side, price: u64, size: u64) -> PlaceOrderOutcome {
    order(m, b, user, None, side, price, size, OrderType::Limit, SelfTradeBehavior::DecrementTake, false, None)
        .unwrap()
}

fn level_prices(levels: &[omniliquid_clob::orderbook::PriceLevel]) -> Vec<u64> {
    levels.iter().map(|l| l.price).collect()
}

fn position_of(m: &Market, user: u8) -> Position {
    *m.get_position(&key(user)).unwrap().1
}

fn flat_position(side: Side, size: u64, margin: u64, entry_price: u64, leverage: u16) -> Position {
    let mut p = Position::new(side, margin, 0);
    p.size = size;
    p.entry_price = entry_price;
    p.leverage = leverage;
    p
}

#[test]
fn limit_bid_rests_on_empty_book() {
    let (mut m, mut b) = new_market(false);
    let out = limit(&mut m, &mut b, 1, Side::Bid, 100, 10);
    assert!(out.fills.is_empty());
    let rested = out.rested.unwrap();
    assert_eq!(rested.remaining_size, 10);
    assert_eq!(rested.id, 1);
    assert_eq!(b.best_bid_price(), Some(100));
    assert_eq!(b.best_ask_price(), None);
    assert_eq!(b.mid_price(), Some(100));
    assert_eq!(m.next_order_id, 2);
    assert_eq!(m.next_client_id, 2);
}

#[test]
fn crossing_ask_partially_fills_resting_bid() {
    let (mut m, mut b) = new_market(false);
    limit(&mut m, &mut b, 1, Side::Bid, 100, 10);
    let out = limit(&mut m, &mut b, 2, Side::Ask, 100, 4);
    assert_eq!(out.fills.len(), 1);
    let f: OrderMatched = out.fills[0];
    assert_eq!(f.size, 4);
    assert_eq!(f.price, 100);
    assert_eq!(f.maker_order_id, 1);
    assert_eq!(f.remaining_size, 0);
    assert_eq!(f.maker_remaining_size, 6);
    assert_eq!(f.quote_amount, 4 * 100 / 1_000_000);
    assert!(out.rested.is_none());
    assert_eq!(b.bids[0].orders[0].remaining_size, 6);
    assert!(b.asks.is_empty());
}

#[test]
fn fill_fees_follow_quote_amount() {
    let (mut m, mut b) = new_market(false);
    limit(&mut m, &mut b, 1, Side::Ask, 2_000_000, 3_000_000);
    let out = limit(&mut m, &mut b, 2, Side::Bid, 2_000_000, 1_000_000);
    let f = out.fills[0];
    assert_eq!(f.quote_amount, 2_000_000);
    assert_eq!(f.taker_fee, 2_000_000 * 10 / 10_000);
    assert_eq!(f.maker_rebate, 2_000_000 * 5 / 10_000);
}

#[test]
fn post_only_that_would_cross_is_rejected() {
    let (mut m, mut b) = new_market(false);
    limit(&mut m, &mut b, 1, Side::Ask, 100, 5);
    let before = level_prices(&b.asks);
    let r = order(&mut m, &mut b, 2, None, Side::Bid, 101, 5, OrderType::PostOnly, SelfTradeBehavior::DecrementTake, false, None);
    assert!(matches!(r, Err(ErrorCode::PostOnlyWouldMatch)));
    assert_eq!(level_prices(&b.asks), before);
    assert!(b.bids.is_empty());
    assert_eq!(b.asks[0].orders[0].remaining_size, 5);
    assert_eq!(m.next_order_id, 2);
}

#[test]
fn post_only_below_best_ask_rests() {
    let (mut m, mut b) = new_market(false);
    limit(&mut m, &mut b, 1, Side::Ask, 100, 5);
    let out = order(&mut m, &mut b, 2, None, Side::Bid, 99, 5, OrderType::PostOnly, SelfTradeBehavior::DecrementTake, false, None).unwrap();
    assert_eq!(out.rested.unwrap().remaining_size, 5);
    assert_eq!(b.best_bid_price(), Some(99));
}

#[test]
fn reduce_only_without_position_is_rejected() {
    let (mut m, mut b) = new_market(true);
    let r = order(&mut m, &mut b, 1, None, Side::Bid, 100, 5, OrderType::Limit, SelfTradeBehavior::DecrementTake, true, None);
    assert!(matches!(r, Err(ErrorCode::NoPositionToReduce)));
    assert!(b.bids.is_empty());
}

#[test]
fn reduce_only_checks_side_and_size() {
    let (mut m, mut b) = new_market(true);
    limit(&mut m, &mut b, 1, Side::Bid, 100, 10);
    limit(&mut m, &mut b, 2, Side::Ask, 100, 10);
    // user 1 is long 10
    let same_side = order(&mut m, &mut b, 1, None, Side::Bid, 100, 5, OrderType::Limit, SelfTradeBehavior::DecrementTake, true, None);
    assert!(matches!(same_side, Err(ErrorCode::InvalidReduceOnlyOrder)));
    let too_big = order(&mut m, &mut b, 1, None, Side::Ask, 100, 11, OrderType::Limit, SelfTradeBehavior::DecrementTake, true, None);
    assert!(matches!(too_big, Err(ErrorCode::InvalidReduceOnlySize)));
    let ok = order(&mut m, &mut b, 1, None, Side::Ask, 100, 10, OrderType::Limit, SelfTradeBehavior::DecrementTake, true, None);
    assert!(ok.is_ok());
}

#[test]
fn order_validation_errors() {
    let (mut m, mut b) = new_market(true);
    m.min_base_order_size = 5;
    m.tick_size = 10;
    let small = order(&mut m, &mut b, 1, None, Side::Bid, 100, 4, OrderType::Limit, SelfTradeBehavior::DecrementTake, false, None);
    assert!(matches!(small, Err(ErrorCode::OrderSizeTooSmall)));
    let tick = order(&mut m, &mut b, 1, None, Side::Bid, 105, 5, OrderType::Limit, SelfTradeBehavior::DecrementTake, false, None);
    assert!(matches!(tick, Err(ErrorCode::InvalidTickSize)));
    let band = order(&mut m, &mut b, 1, Some(100), Side::Bid, 160, 5, OrderType::Limit, SelfTradeBehavior::DecrementTake, false, None);
    assert!(matches!(band, Err(ErrorCode::PriceOutOfRange)));
    let in_band = order(&mut m, &mut b, 1, Some(100), Side::Bid, 150, 5, OrderType::Limit, SelfTradeBehavior::DecrementTake, false, None);
    assert!(in_band.is_ok());
    let lev = order(&mut m, &mut b, 1, None, Side::Bid, 100, 5, OrderType::Limit, SelfTradeBehavior::DecrementTake, false, Some(21));
    assert!(matches!(lev, Err(ErrorCode::ExceedsMaxLeverage)));
    let lev0 = order(&mut m, &mut b, 1, None, Side::Bid, 100, 5, OrderType::Limit, SelfTradeBehavior::DecrementTake, false, Some(0));
    assert!(matches!(lev0, Err(ErrorCode::ExceedsMaxLeverage)));
}

#[test]
fn inactive_market_rejects_orders() {
    let (mut m, mut b) = new_market(false);
    assert!(matches!(change_market_status(&mut m, key(9), MarketStatus::Paused, 5), Err(ErrorCode::InvalidAuthority)));
    let ev = change_market_status(&mut m, key(201), MarketStatus::Paused, 5).unwrap();
    assert_eq!(ev.status, MarketStatus::Paused);
    let r = order(&mut m, &mut b, 1, None, Side::Bid, 100, 5, OrderType::Limit, SelfTradeBehavior::DecrementTake, false, None);
    assert!(matches!(r, Err(ErrorCode::MarketInactive)));
}

#[test]
fn market_order_walks_levels_and_needs_a_fill() {
    let (mut m, mut b) = new_market(false);
    let empty = order(&mut m, &mut b, 1, None, Side::Bid, 0, 5, OrderType::Market, SelfTradeBehavior::DecrementTake, false, None);
    assert!(matches!(empty, Err(ErrorCode::OrderNotFound)));
    limit(&mut m, &mut b, 2, Side::Ask, 100, 3);
    limit(&mut m, &mut b, 3, Side::Ask, 105, 3);
    let out = order(&mut m, &mut b, 1, None, Side::Bid, 0, 5, OrderType::Market, SelfTradeBehavior::DecrementTake, false, None).unwrap();
    assert_eq!(out.fills.len(), 2);
    assert_eq!((out.fills[0].price, out.fills[0].size), (100, 3));
    assert_eq!((out.fills[1].price, out.fills[1].size), (105, 2));
    assert_eq!(out.fills[1].remaining_size, 0);
    assert!(out.rested.is_none());
    assert_eq!(level_prices(&b.asks), vec![105]);
    assert_eq!(b.asks[0].orders[0].remaining_size, 1);
}

#[test]
fn immediate_or_cancel_drops_remainder() {
    let (mut m, mut b) = new_market(false);
    let none = order(&mut m, &mut b, 1, None, Side::Bid, 100, 5, OrderType::ImmediateOrCancel, SelfTradeBehavior::DecrementTake, false, None);
    assert!(matches!(none, Err(ErrorCode::OrderNotFound)));
    limit(&mut m, &mut b, 2, Side::Ask, 100, 3);
    limit(&mut m, &mut b, 2, Side::Ask, 110, 3);
    let out = order(&mut m, &mut b, 1, None, Side::Bid, 100, 5, OrderType::ImmediateOrCancel, SelfTradeBehavior::DecrementTake, false, None).unwrap();
    assert_eq!(out.fills.len(), 1);
    assert_eq!(out.fills[0].size, 3);
    assert!(out.rested.is_none());
    assert!(b.bids.is_empty());
    assert_eq!(level_prices(&b.asks), vec![110]);
}

#[test]
fn limit_matches_up_to_its_price_then_rests() {
    let (mut m, mut b) = new_market(false);
    limit(&mut m, &mut b, 2, Side::Ask, 100, 3);
    limit(&mut m, &mut b, 2, Side::Ask, 110, 3);
    let out = limit(&mut m, &mut b, 1, Side::Bid, 105, 5);
    assert_eq!(out.fills.len(), 1);
    assert_eq!(out.rested.unwrap().remaining_size, 2);
    assert_eq!(b.best_bid_price(), Some(105));
    assert_eq!(b.best_ask_price(), Some(110));
    assert!(b.best_bid_price().unwrap() < b.best_ask_price().unwrap());
}

#[test]
fn price_time_priority_within_a_level() {
    let (mut m, mut b) = new_market(false);
    limit(&mut m, &mut b, 2, Side::Ask, 100, 3);
    limit(&mut m, &mut b, 3, Side::Ask, 100, 3);
    let out = limit(&mut m, &mut b, 1, Side::Bid, 100, 4);
    assert_eq!(out.fills[0].maker, key(2));
    assert_eq!(out.fills[0].size, 3);
    assert_eq!(out.fills[1].maker, key(3));
    assert_eq!(out.fills[1].size, 1);
    assert_eq!(out.fills[1].maker_remaining_size, 2);
}

#[test]
fn fill_conservation_on_a_walk() {
    let (mut m, mut b) = new_market(false);
    limit(&mut m, &mut b, 2, Side::Bid, 103, 2);
    limit(&mut m, &mut b, 3, Side::Bid, 102, 4);
    limit(&mut m, &mut b, 4, Side::Bid, 101, 9);
    let out = limit(&mut m, &mut b, 1, Side::Ask, 101, 10);
    let mut taker_open = 10;
    let makers = [2u64, 4, 9];
    for (f, maker_open) in out.fills.iter().zip(makers.iter()) {
        let amount = std::cmp::min(taker_open, *maker_open);
        assert_eq!(f.size, amount);
        assert_eq!(f.remaining_size, taker_open - amount);
        assert_eq!(f.maker_remaining_size, maker_open - amount);
        taker_open -= amount;
    }
    assert_eq!(taker_open, 0);
    assert_eq!(b.bids[0].orders[0].remaining_size, 5);
}

#[test]
fn self_trade_behaviours() {
    let (mut m, mut b) = new_market(false);
    limit(&mut m, &mut b, 1, Side::Ask, 100, 5);
    let taker = order(&mut m, &mut b, 1, None, Side::Bid, 100, 3, OrderType::Limit, SelfTradeBehavior::CancelTaker, false, None);
    assert!(matches!(taker, Err(ErrorCode::SelfTradePrevented)));
    assert_eq!(b.asks[0].orders[0].remaining_size, 5);

    let maker = order(&mut m, &mut b, 1, None, Side::Bid, 100, 3, OrderType::Limit, SelfTradeBehavior::CancelMaker, false, None).unwrap();
    assert!(maker.fills.is_empty());
    assert!(b.asks.is_empty());
    assert_eq!(b.best_bid_price(), Some(100));

    let (mut m, mut b) = new_market(false);
    limit(&mut m, &mut b, 1, Side::Ask, 100, 5);
    limit(&mut m, &mut b, 2, Side::Ask, 100, 5);
    let both = order(&mut m, &mut b, 1, None, Side::Bid, 100, 3, OrderType::Limit, SelfTradeBehavior::CancelBoth, false, None).unwrap();
    assert!(both.fills.is_empty());
    assert!(both.rested.is_none());
    assert!(b.bids.is_empty());
    assert_eq!(b.asks[0].orders.len(), 1);
    assert_eq!(b.asks[0].orders[0].user, key(2));

    let (mut m, mut b) = new_market(false);
    limit(&mut m, &mut b, 1, Side::Ask, 100, 5);
    let decrement = order(&mut m, &mut b, 1, None, Side::Bid, 100, 3, OrderType::Limit, SelfTradeBehavior::DecrementTake, false, None).unwrap();
    assert_eq!(decrement.fills.len(), 1);
    assert_eq!(b.asks[0].orders[0].remaining_size, 2);
}

#[test]
fn bid_levels_descend_and_ask_levels_ascend() {
    let (mut m, mut b) = new_market(false);
    for p in [100u64, 102, 101, 102] {
        limit(&mut m, &mut b, 1, Side::Bid, p, 1);
    }
    for p in [110u64, 108, 109, 108] {
        limit(&mut m, &mut b, 2, Side::Ask, p, 1);
    }
    assert_eq!(level_prices(&b.bids), vec![102, 101, 100]);
    assert_eq!(level_prices(&b.asks), vec![108, 109, 110]);
    assert_eq!(b.bids[0].orders.len(), 2);
    assert_eq!(b.mid_price(), Some(105));
    assert!(b.bids.iter().all(|l| !l.orders.is_empty()));
}

#[test]
fn cancelling_missing_order_fails_and_keeps_book() {
    let (mut m, mut b) = new_market(false);
    let placed = limit(&mut m, &mut b, 1, Side::Bid, 100, 10);
    let id = placed.order_id;
    assert!(matches!(cancel_order(&mut b, key(1), 5, id + 7, Side::Bid, 100), Err(ErrorCode::OrderNotFound)));
    assert!(matches!(cancel_order(&mut b, key(1), 5, id, Side::Ask, 100), Err(ErrorCode::OrderNotFound)));
    assert!(matches!(cancel_order(&mut b, key(1), 5, id, Side::Bid, 99), Err(ErrorCode::OrderNotFound)));
    assert!(matches!(cancel_order(&mut b, key(2), 5, id, Side::Bid, 100), Err(ErrorCode::OrderNotFound)));
    assert_eq!(level_prices(&b.bids), vec![100]);
    assert_eq!(b.bids[0].orders[0].remaining_size, 10);
    let ev = cancel_order(&mut b, key(1), 5, id, Side::Bid, 100).unwrap();
    assert_eq!(ev.remaining_size, 10);
    assert_eq!(ev.order_id, id);
    assert!(b.bids.is_empty());
    assert!(matches!(cancel_order(&mut b, key(1), 5, id, Side::Bid, 100), Err(ErrorCode::OrderNotFound)));
}

#[test]
fn cancel_all_orders_removes_only_the_users_orders() {
    let (mut m, mut b) = new_market(false);
    limit(&mut m, &mut b, 1, Side::Bid, 100, 1);
    limit(&mut m, &mut b, 2, Side::Bid, 100, 2);
    limit(&mut m, &mut b, 1, Side::Bid, 99, 3);
    limit(&mut m, &mut b, 1, Side::Ask, 120, 4);
    let found = b.find_orders_for_user(&key(1));
    assert_eq!(found, vec![(Side::Bid, 100, 0, 0), (Side::Bid, 99, 1, 0), (Side::Ask, 120, 0, 0)]);
    let events = cancel_all_orders(&mut b, key(1), 9);
    assert_eq!(events.len(), 3);
    assert_eq!(events[0].remaining_size, 1);
    assert_eq!(events[1].remaining_size, 3);
    assert_eq!(events[2].side, Side::Ask);
    assert_eq!(level_prices(&b.bids), vec![100]);
    assert_eq!(b.bids[0].orders[0].user, key(2));
    assert!(b.asks.is_empty());
    assert!(cancel_all_orders(&mut b, key(1), 9).is_empty());
}

#[test]
fn refund_amounts() {
    assert_eq!(refund_amount(Side::Bid, 3_000_000, 2_000_000), Some(6_000_000));
    assert_eq!(refund_amount(Side::Ask, 7, 2_000_000), Some(7));
    assert_eq!(refund_amount(Side::Bid, u64::MAX, u64::MAX), None);
}

#[test]
fn same_side_fills_average_the_entry_price() {
    let (mut m, mut b) = new_market(true);
    limit(&mut m, &mut b, 2, Side::Ask, 100, 1_000_000);
    limit(&mut m, &mut b, 1, Side::Bid, 100, 1_000_000);
    limit(&mut m, &mut b, 2, Side::Ask, 200, 3_000_000);
    limit(&mut m, &mut b, 1, Side::Bid, 200, 1_000_000);
    let p = position_of(&m, 1);
    assert_eq!(p.side, Side::Bid);
    assert_eq!(p.size, 2_000_000);
    assert_eq!(p.entry_price, (100 * 1_000_000 + 200 * 1_000_000) / 2_000_000);
    let maker = position_of(&m, 2);
    assert_eq!(maker.side, Side::Ask);
    assert_eq!(maker.size, 2_000_000);
    assert_eq!(maker.entry_price, 150);
    assert_eq!(m.open_interest_long, 2_000_000);
    assert_eq!(m.open_interest_short, 2_000_000);
}

#[test]
fn apply_fill_reduces_and_flips() {
    let mut p = flat_position(Side::Bid, 10, 0, 100, 2);
    p.apply_fill(Side::Ask, 4, 120, 500, 7).unwrap();
    assert_eq!((p.side, p.size, p.entry_price), (Side::Bid, 6, 100));
    p.apply_fill(Side::Ask, 10, 130, 500, 8).unwrap();
    assert_eq!((p.side, p.size, p.entry_price), (Side::Ask, 4, 130));
    assert_eq!(p.last_updated_timestamp, 8);
    let mut q = flat_position(Side::Bid, u64::MAX, 0, 100, 2);
    assert!(matches!(q.apply_fill(Side::Bid, 1, 100, 500, 9), Err(ErrorCode::MathOverflow)));
    assert_eq!(q.size, u64::MAX);
}

#[test]
fn position_formulas() {
    let long = flat_position(Side::Bid, 2_000_000, 50, 100, 10);
    assert_eq!(long.calculate_unrealized_pnl(90), -20);
    assert_eq!(long.calculate_unrealized_pnl(130), 60);
    assert_eq!(long.equity(90), 30);
    assert_eq!(long.equity(60), 0);
    assert_eq!(long.notional_value(90), 180);
    assert!(!long.is_liquidatable(90, 500));
    assert!(long.is_liquidatable(76, 1000));
    let short = flat_position(Side::Ask, 1_000_000, 10, 100, 10);
    assert_eq!(short.calculate_unrealized_pnl(90), 10);
    assert_eq!(short.equity(115), 0);
    assert!(!flat_position(Side::Bid, 0, 0, 100, 1).is_liquidatable(1, 10_000));
}

#[test]
fn liquidation_prices() {
    let mut long = flat_position(Side::Bid, 1, 0, 100_000, 10);
    long.update_liquidation_price(500);
    assert_eq!(long.liquidation_price, 95_000);
    let mut short = flat_position(Side::Ask, 1, 0, 100_000, 10);
    short.update_liquidation_price(500);
    assert_eq!(short.liquidation_price, 105_000);
    let mut flat = flat_position(Side::Ask, 0, 0, 100_000, 10);
    flat.liquidation_price = 3;
    flat.update_liquidation_price(500);
    assert_eq!(flat.liquidation_price, 0);
}

fn perp_with_long(margin: u64) -> (Market, Orderbook) {
    let (mut m, mut b) = new_market(true);
    limit(&mut m, &mut b, 1, Side::Bid, 100, 1_000_000);
    limit(&mut m, &mut b, 2, Side::Ask, 100, 1_000_000);
    deposit_collateral(&mut m, key(1), 3_000, margin, Some(100), Some(risk())).unwrap();
    (m, b)
}

#[test]
fn liquidation_of_an_undermargined_long() {
    let (mut m, _b) = perp_with_long(50);
    let p = position_of(&m, 1);
    assert_eq!((p.size, p.margin, p.entry_price), (1_000_000, 50, 100));
    assert_eq!(m.open_interest_long, 1_000_000);
    let ev = liquidate_position(&mut m, key(1), key(7), 4_000, 50, Some(risk())).unwrap();
    assert_eq!(ev.position_value, 50);
    assert_eq!(ev.maintenance_margin, 2);
    assert_eq!(ev.liquidation_fee, 5);
    assert_eq!(ev.remaining, 45);
    assert_eq!(ev.size, 1_000_000);
    assert_eq!(ev.liquidator, key(7));
    assert_eq!(m.open_interest_long, 0);
    assert_eq!(m.open_interest_short, 1_000_000);
    assert!(m.get_position(&key(1)).is_none());
}

#[test]
fn liquidation_needs_an_undermargined_position() {
    let (mut m, _b) = perp_with_long(50);
    let r = liquidate_position(&mut m, key(1), key(7), 4_000, 100, Some(risk()));
    assert!(matches!(r, Err(ErrorCode::PositionNotLiquidatable)));
    assert_eq!(position_of(&m, 1).size, 1_000_000);
    assert_eq!(m.open_interest_long, 1_000_000);
    assert!(matches!(liquidate_position(&mut m, key(9), key(7), 4_000, 50, Some(risk())), Err(ErrorCode::PositionNotFound)));
    assert!(matches!(liquidate_position(&mut m, key(1), key(7), 4_000, 50, None), Err(ErrorCode::AssetNotAvailable)));
    let (mut spot, _) = new_market(false);
    assert!(matches!(liquidate_position(&mut spot, key(1), key(7), 4_000, 50, Some(risk())), Err(ErrorCode::NotPerpetualMarket)));
}

#[test]
fn collateral_deposit_and_withdrawal() {
    let (mut m, _b) = new_market(true);
    assert!(matches!(deposit_collateral(&mut m, key(5), 1, 0, None, None), Err(ErrorCode::InvalidParameters)));
    let ev = deposit_collateral(&mut m, key(5), 1, 40, None, None).unwrap();
    assert_eq!(ev.total_margin, 40);
    let ev = deposit_collateral(&mut m, key(5), 2, 2, None, None).unwrap();
    assert_eq!(ev.total_margin, 42);
    assert!(matches!(withdraw_collateral(&mut m, key(5), 3, 43, None, None), Err(ErrorCode::InsufficientMargin)));
    assert!(matches!(withdraw_collateral(&mut m, key(6), 3, 1, None, None), Err(ErrorCode::PositionNotFound)));
    let ev = withdraw_collateral(&mut m, key(5), 3, 42, None, None).unwrap();
    assert_eq!(ev.remaining_margin, 0);
    assert!(m.get_position(&key(5)).is_none());
    let (mut spot, _) = new_market(false);
    assert!(matches!(deposit_collateral(&mut spot, key(5), 1, 1, None, None), Err(ErrorCode::NotPerpetualMarket)));
}

#[test]
fn withdrawal_keeps_maintenance_margin() {
    let (mut m, _b) = perp_with_long(50);
    // at 100 the maintenance margin is 1_000_000 * 100 / 1e6 * 500 / 10000 = 5
    assert!(matches!(withdraw_collateral(&mut m, key(1), 3, 10, None, Some(risk())), Err(ErrorCode::InvalidPriceFeed)));
    assert!(matches!(withdraw_collateral(&mut m, key(1), 3, 10, Some(100), None), Err(ErrorCode::AssetNotAvailable)));
    assert!(matches!(withdraw_collateral(&mut m, key(1), 3, 46, Some(100), Some(risk())), Err(ErrorCode::WithdrawalWouldTriggerLiquidation)));
    let ev = withdraw_collateral(&mut m, key(1), 3, 45, Some(100), Some(risk())).unwrap();
    assert_eq!(ev.remaining_margin, 5);
    assert_eq!(position_of(&m, 1).margin, 5);
}

#[test]
fn funding_moves_pnl_between_sides() {
    let (mut m, mut b) = new_market(true);
    limit(&mut m, &mut b, 1, Side::Bid, 100, 1_000_000_000_000);
    limit(&mut m, &mut b, 2, Side::Ask, 100, 1_000_000_000_000);
    limit(&mut m, &mut b, 3, Side::Bid, 100, 1);
    limit(&mut m, &mut b, 3, Side::Ask, 102, 1);
    assert!(matches!(update_funding_rate(&mut m, &b, 1_000, 100), Err(ErrorCode::FundingRateTooSoon)));
    let ev = update_funding_rate(&mut m, &b, 4_600, 100).unwrap();
    assert_eq!(ev.mark_price, 101);
    assert_eq!(ev.premium_index, 100);
    assert_eq!(ev.funding_rate, 4);
    assert_eq!(position_of(&m, 1).realized_pnl, -40_000);
    assert_eq!(position_of(&m, 2).realized_pnl, 40_000);
    assert_eq!(m.cumulative_funding_long, 4);
    assert_eq!(m.cumulative_funding_short, -4);
    assert_eq!(m.last_funding_timestamp, 4_600);
    let (mut spot, sb) = new_market(false);
    assert!(matches!(update_funding_rate(&mut spot, &sb, 9_000, 100), Err(ErrorCode::NotPerpetualMarket)));
}

#[test]
fn funding_uses_oracle_price_on_empty_book() {
    let (mut m, b) = new_market(true);
    let ev = update_funding_rate(&mut m, &b, 4_600, 250).unwrap();
    assert_eq!(ev.mark_price, 250);
    assert_eq!(ev.premium_index, 0);
    assert_eq!(ev.funding_rate, 0);
}

#[test]
fn initialize_validates_parameters() {
    let bad_fee = initialize(accounts(), "A".to_string(), "A".to_string(), "A".to_string(), true, true, 1, 1, 501, 0, 10, 1, 1, key(1), FEED, 1, 1);
    assert!(matches!(bad_fee, Err(ErrorCode::InvalidParameters)));
    let bad_rebate = initialize(accounts(), "A".to_string(), "A".to_string(), "A".to_string(), true, true, 1, 1, 10, 11, 10, 1, 1, key(1), FEED, 1, 1);
    assert!(matches!(bad_rebate, Err(ErrorCode::InvalidParameters)));
    let bad_tick = initialize(accounts(), "A".to_string(), "A".to_string(), "A".to_string(), true, true, 1, 0, 10, 1, 10, 1, 1, key(1), FEED, 1, 1);
    assert!(matches!(bad_tick, Err(ErrorCode::InvalidParameters)));
    let long_symbol = initialize(accounts(), "A".to_string(), "ABCDEFGHIJKLMNOPQ".to_string(), "A".to_string(), true, true, 1, 1, 10, 1, 10, 1, 1, key(1), FEED, 1, 1);
    assert!(matches!(long_symbol, Err(ErrorCode::InvalidParameters)));
    let bad_leverage = initialize(accounts(), "A".to_string(), "A".to_string(), "A".to_string(), true, true, 1, 1, 10, 1, 10_001, 1, 1, key(1), FEED, 1, 1);
    assert!(matches!(bad_leverage, Err(ErrorCode::InvalidParameters)));
    let bad_feed = initialize(accounts(), "A".to_string(), "A".to_string(), "A".to_string(), true, true, 1, 1, 10, 1, 10, 1, 1, key(1), "0x12", 1, 1);
    assert!(matches!(bad_feed, Err(ErrorCode::InvalidParameters)));
    let (m, b, created) = initialize(accounts(), "A".to_string(), "B".to_string(), "C".to_string(), true, false, 3, 2, 10, 1, 10, 60, 254, key(1), FEED, 30, 77).unwrap();
    assert_eq!(m.next_order_id, 1);
    assert_eq!(m.status, MarketStatus::Active);
    assert_eq!(m.last_funding_timestamp, 77);
    assert_eq!(m.oracle_feed_id[0], 0xe6);
    assert_eq!(m.oracle_feed_id[31], 0x43);
    assert_eq!(b.market, key(200));
    assert_eq!(created.market_symbol, "B");
}

#[test]
fn feed_id_parsing() {
    let id = get_feed_id_from_hex(&FEED[2..]).unwrap();
    assert_eq!(id[1], 0x2d);
    assert_eq!(get_feed_id_from_hex(FEED).unwrap(), id);
    let upper = FEED[2..].to_uppercase();
    assert_eq!(get_feed_id_from_hex(&upper).unwrap(), id);
    assert!(matches!(get_feed_id_from_hex("0xzz"), Err(ErrorCode::InvalidParameters)));
    let bad_digit = format!("g{}", &FEED[3..]);
    assert!(matches!(get_feed_id_from_hex(&bad_digit), Err(ErrorCode::InvalidParameters)));
}

#[test]
fn oracle_prices_scale_to_six_decimals() {
    assert_eq!(scale_oracle_price(15_012_345_678, -8).unwrap(), 150_123_456);
    assert_eq!(scale_oracle_price(-15_012_345_678, -8).unwrap(), 150_123_456);
    assert_eq!(scale_oracle_price(150, -2).unwrap(), 1_500_000);
    assert_eq!(scale_oracle_price(7, 0).unwrap(), 7_000_000);
    assert!(matches!(scale_oracle_price(i64::MAX, 10), Err(ErrorCode::InvalidPriceFeed)));
    assert!(matches!(scale_oracle_price(1, -30), Err(ErrorCode::InvalidPriceFeed)));
}

#[test]
fn order_constructor_and_fill_state() {
    let o = Order::new(3, 4, key(1), Side::Ask, 10, 5, 0, false, true, 99);
    assert_eq!(o.remaining_size, 5);
    assert!(!o.is_filled());
    assert!(Position::new(Side::Bid, 3, 1).is_empty());
}

#[test]
fn client_ids_come_from_caller_or_counter() {
    let (mut m, mut b) = new_market(false);
    let a = place_order(&mut m, &mut b, key(1), 1, None, 500, Some(77), Side::Bid, 100, 1, OrderType::Limit, SelfTradeBehavior::DecrementTake, false, false, None).unwrap();
    assert_eq!((a.order_id, a.client_id), (1, 77));
    assert_eq!(m.next_client_id, 1);
    let c = place_order(&mut m, &mut b, key(1), 1, None, 500, None, Side::Bid, 100, 1, OrderType::Limit, SelfTradeBehavior::DecrementTake, false, false, None).unwrap();
    assert_eq!((c.order_id, c.client_id), (2, 1));
    assert_eq!(m.next_client_id, 2);
}

#[test]
fn error_messages() {
    assert_eq!(ErrorCode::OrderNotFound.message(), "Order not found");
    assert_eq!(ErrorCode::PostOnlyWouldMatch.message(), "Post-only order would match");
}
