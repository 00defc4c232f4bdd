use vstd::prelude::*;
use vstd::string::StringSliceAdditionalSpecFns;
use vstd::utf8::encode_utf8;
use crate::events::{FundingRateUpdated, MarketCreated, MarketStatusChanged, CollateralDeposited, CollateralWithdrawn, OrderCancelled, OrderMatched, PositionLiquidated};
use crate::market::{
    copy_positions, find_position, has_position, lemma_share_within_total, lemma_total_remove,
    lemma_total_congruent, lemma_total_update, ledger_wf, position_index, set_leverage, settle_fills, settle_fills_spec,
    share, side_total, with_leverage_spec, Market, MAX_LEVERAGE_LIMIT, MAX_TAKER_FEE_BPS,
};
use crate::matching::{lemma_walk_tail, match_against, walk, MatchOutcome, Taker, WalkEnd};
use crate::order::Order;
use crate::orderbook::{better, flat, holds_order, level_ok, resting_ok, inserted, is_order_of, lemma_flat_sorted, removed_at, side_wf, Orderbook, PriceLevel};
use crate::position::{clamp_i64, clamp_u64, trunc_div, Position, BPS_DENOMINATOR, PRICE_PRECISION};
use crate::oracle::{feed_byte, get_feed_id_from_hex, is_feed_hex};
use crate::types::{AccountKey, AssetRiskParams, ErrorCode, MarketStatus, OrderType, SelfTradeBehavior, Side};

verus! {

/// Why a reduce-only order of `user` for `size` on `side` is refused, if it is: it must face an
/// open position on the other side at least as large.
pub open spec fn reduce_only_error(ps: Seq<(AccountKey, Position)>, user: AccountKey, side: Side, size: u64) -> Option<ErrorCode> {
    if !has_position(ps, user) {
        Some(ErrorCode::NoPositionToReduce)
    } else {
        let p = ps[position_index(ps, user)].1;
        if !(p.side == side.opposite() && p.size > 0) {
            Some(ErrorCode::InvalidReduceOnlyOrder)
        } else if size > p.size {
            Some(ErrorCode::InvalidReduceOnlySize)
        } else {
            None
        }
    }
}

/// `price` lies between half and one and a half times the oracle price.
pub open spec fn in_band(price: u64, oracle_price: u64) -> bool {
    oracle_price / 2 <= price && price <= oracle_price * 3 / 2
}

/// The first check that an order fails, if any.
pub open spec fn order_error(
    m: Market,
    user: AccountKey,
    oracle_price: Option<u64>,
    client_id: Option<u64>,
    side: Side,
    price: u64,
    size: u64,
    order_type: OrderType,
    reduce_only: bool,
    leverage: Option<u16>,
) -> Option<ErrorCode> {
    if m.status != MarketStatus::Active {
        Some(ErrorCode::MarketInactive)
    } else if size < m.min_base_order_size {
        Some(ErrorCode::OrderSizeTooSmall)
    } else if order_type != OrderType::Market && price % m.tick_size != 0 {
        Some(ErrorCode::InvalidTickSize)
    } else if order_type != OrderType::Market && m.is_perpetual && oracle_price is Some && !in_band(
        price,
        oracle_price.unwrap(),
    ) {
        Some(ErrorCode::PriceOutOfRange)
    } else if reduce_only && reduce_only_error(m.user_positions@, user, side, size) is Some {
        reduce_only_error(m.user_positions@, user, side, size)
    } else if m.is_perpetual && leverage is Some && !(0 < leverage.unwrap() <= m.max_leverage) {
        Some(ErrorCode::ExceedsMaxLeverage)
    } else if m.next_order_id == u64::MAX || (client_id is None && m.next_client_id == u64::MAX) {
        Some(ErrorCode::MathOverflow)
    } else {
        None
    }
}

/// The client id an order gets: the caller's, or the next of the market's counter.
pub open spec fn client_id_of(m: Market, client_id: Option<u64>) -> u64 {
    match client_id {
        Some(c) => c,
        None => m.next_client_id,
    }
}

pub open spec fn taker_of(
    m: Market,
    user: AccountKey,
    client_id: Option<u64>,
    side: Side,
    price: u64,
    order_type: OrderType,
    self_trade_behavior: SelfTradeBehavior,
    now: u64,
) -> Taker {
    Taker {
        order_id: m.next_order_id,
        client_id: client_id_of(m, client_id),
        user,
        side,
        limit: if order_type == OrderType::Market {
            None
        } else {
            Some(price)
        },
        self_trade_behavior,
        taker_fee_bps: m.taker_fee_bps,
        maker_rebate_bps: m.maker_rebate_bps,
        timestamp: now,
    }
}

pub open spec fn order_of(
    m: Market,
    user: AccountKey,
    client_id: Option<u64>,
    side: Side,
    price: u64,
    size: u64,
    reduce_only: bool,
    post_only: bool,
    now: u64,
) -> Order {
    Order {
        id: m.next_order_id,
        client_id: client_id_of(m, client_id),
        user,
        side,
        price,
        size,
        remaining_size: size,
        time_in_force: 0,
        timestamp: now,
        reduce_only,
        post_only,
    }
}

/// The ledger once the leverage asked for on a perpetual market is recorded.
pub open spec fn prepared_ledger(m: Market, user: AccountKey, side: Side, leverage: Option<u16>, now: u64) -> Seq<
    (AccountKey, Position),
> {
    if m.is_perpetual && leverage is Some {
        with_leverage_spec(m.user_positions@, user, side, leverage.unwrap(), now)
    } else {
        m.user_positions@
    }
}

/// An order on `side` at `price` would meet the best level of the opposite side.
pub open spec fn would_cross(opposite: Seq<PriceLevel>, side: Side, price: u64) -> bool {
    opposite.len() > 0 && match side {
        Side::Bid => opposite[0].price <= price,
        Side::Ask => opposite[0].price >= price,
    }
}

/// `new` is `old` after a placement: the order counter advanced, the client counter advanced
/// where it handed out the id, and the ledger replaced by `ledger`.
pub open spec fn advanced(old: Market, new: Market, client_id: Option<u64>, ledger: Seq<(AccountKey, Position)>) -> bool {
    &&& new.user_positions@ == ledger
    &&& new == Market {
        next_order_id: (old.next_order_id + 1) as u64,
        next_client_id: if client_id is None {
            (old.next_client_id + 1) as u64
        } else {
            old.next_client_id
        },
        user_positions: new.user_positions,
        open_interest_long: new.open_interest_long,
        open_interest_short: new.open_interest_short,
        ..old
    }
}

/// What a placement did: the ids it used, its matches in order, and what of it came to rest.
pub struct PlaceOrderOutcome {
    pub order_id: u64,
    pub client_id: u64,
    pub fills: Vec<OrderMatched>,
    pub rested: Option<Order>,
}

/// Places an order of `user` at time `now`. `oracle_price` is the current oracle price where
/// one was supplied, and `maintenance_margin_ratio` (basis points) the asset's maintenance ratio.
/// Market orders match the opposite side whatever its prices; limit and immediate-or-cancel
/// orders match it up to their limit price; a limit order rests what is left unmatched, and a
/// post-only order rests whole or is refused. On a perpetual market every match moves the
/// positions of both users. Any failure changes nothing.
pub fn place_order(
    market: &mut Market,
    orderbook: &mut Orderbook,
    user: AccountKey,
    now: u64,
    oracle_price: Option<u64>,
    maintenance_margin_ratio: u16,
    client_id: Option<u64>,
    side: Side,
    price: u64,
    size: u64,
    order_type: OrderType,
    self_trade_behavior: SelfTradeBehavior,
    reduce_only: bool,
    post_only: bool,
    leverage: Option<u16>,
) -> (r: Result<PlaceOrderOutcome, ErrorCode>)
    requires
        old(market).wf(),
        old(orderbook).wf(),
    ensures
        final(market).wf(),
        final(orderbook).wf(),
        r is Err ==> *final(market) == *old(market) && *final(orderbook) == *old(orderbook),
        r is Ok && old(orderbook).uncrossed() ==> final(orderbook).uncrossed(),
        final(orderbook).market == old(orderbook).market,
        order_error(
            *old(market),
            user,
            oracle_price,
            client_id,
            side,
            price,
            size,
            order_type,
            reduce_only,
            leverage,
        ) matches Some(e) ==> r == Err::<PlaceOrderOutcome, ErrorCode>(e),
        order_error(
            *old(market),
            user,
            oracle_price,
            client_id,
            side,
            price,
            size,
            order_type,
            reduce_only,
            leverage,
        ) is None ==> {
            let m = *old(market);
            let order = order_of(m, user, client_id, side, price, size, reduce_only, post_only, now);
            let own_old = old(orderbook).levels(side);
            let own_new = final(orderbook).levels(side);
            let opp_old = old(orderbook).levels(side.opposite());
            let opp_new = final(orderbook).levels(side.opposite());
            let prepared = prepared_ledger(m, user, side, leverage, now);
            if order_type == OrderType::PostOnly {
                if would_cross(opp_old, side, price) {
                    r == Err::<PlaceOrderOutcome, ErrorCode>(ErrorCode::PostOnlyWouldMatch)
                } else {
                    r matches Ok(out) && out.order_id == m.next_order_id && out.client_id == client_id_of(
                        m,
                        client_id,
                    ) && out.fills@.len() == 0 && out.rested == Some(order) && inserted(
                        own_old,
                        own_new,
                        price,
                        order,
                    ) && opp_new == opp_old && advanced(m, *final(market), client_id, prepared)
                }
            } else {
                match walk(
                    taker_of(m, user, client_id, side, price, order_type, self_trade_behavior, now),
                    flat(opp_old),
                    size,
                    Seq::empty(),
                ) {
                    WalkEnd::Failed { error } => r == Err::<PlaceOrderOutcome, ErrorCode>(error),
                    WalkEnd::Done { queue, remaining, fills, taker_cancelled } => {
                        if order_type != OrderType::Limit && remaining == size {
                            r == Err::<PlaceOrderOutcome, ErrorCode>(ErrorCode::OrderNotFound)
                        } else {
                            match (if m.is_perpetual {
                                settle_fills_spec(prepared, fills, maintenance_margin_ratio, now)
                            } else {
                                Some(prepared)
                            }) {
                                None => r == Err::<PlaceOrderOutcome, ErrorCode>(ErrorCode::MathOverflow),
                                Some(ledger) => r matches Ok(out) && out.order_id == m.next_order_id
                                    && out.client_id == client_id_of(m, client_id) && out.fills@ == fills
                                    && flat(opp_new) == queue && advanced(m, *final(market), client_id, ledger)
                                    && if order_type == OrderType::Limit && remaining > 0 && !taker_cancelled {
                                    out.rested == Some(order.with_remaining(remaining)) && inserted(
                                        own_old,
                                        own_new,
                                        price,
                                        order.with_remaining(remaining),
                                    )
                                } else {
                                    out.rested is None && own_new == own_old
                                },
                            }
                        }
                    },
                }
            }
        },
{
    let ghost old_book_uncrossed = orderbook.uncrossed();
    if market.status != MarketStatus::Active {
        return Err(ErrorCode::MarketInactive);
    }
    if size < market.min_base_order_size {
        return Err(ErrorCode::OrderSizeTooSmall);
    }
    if order_type != OrderType::Market {
        if price % market.tick_size != 0 {
            return Err(ErrorCode::InvalidTickSize);
        }
        if market.is_perpetual {
            if let Some(oracle) = oracle_price {
                if !(price >= oracle / 2 && price as u128 <= oracle as u128 * 3 / 2) {
                    return Err(ErrorCode::PriceOutOfRange);
                }
            }
        }
    }
    if reduce_only {
        match find_position(&market.user_positions, user) {
            None => {
                return Err(ErrorCode::NoPositionToReduce);
            },
            Some(i) => {
                let p = market.user_positions[i].1;
                if !(p.side == side.flip() && p.size > 0) {
                    return Err(ErrorCode::InvalidReduceOnlyOrder);
                }
                if size > p.size {
                    return Err(ErrorCode::InvalidReduceOnlySize);
                }
            },
        }
    }
    if market.is_perpetual {
        if let Some(lev) = leverage {
            if !(lev > 0 && lev <= market.max_leverage) {
                return Err(ErrorCode::ExceedsMaxLeverage);
            }
        }
    }
    if market.next_order_id == u64::MAX {
        return Err(ErrorCode::MathOverflow);
    }
    let assigned = match client_id {
        Some(c) => c,
        None => {
            if market.next_client_id == u64::MAX {
                return Err(ErrorCode::MathOverflow);
            }
            market.next_client_id
        },
    };
    let order_id = market.next_order_id;
    let order = Order::new(order_id, assigned, user, side, price, size, 0, reduce_only, post_only, now);
    let mut ps = copy_positions(&market.user_positions);
    if market.is_perpetual {
        if let Some(lev) = leverage {
            set_leverage(
                &mut ps,
                user,
                side,
                lev,
                now,
                Ghost(market.open_interest_long),
                Ghost(market.open_interest_short),
            );
        }
    }
    let mut long = market.open_interest_long;
    let mut short = market.open_interest_short;
    let next_client_id = if client_id.is_none() {
        market.next_client_id + 1
    } else {
        market.next_client_id
    };
    if order_type == OrderType::PostOnly {
        let crossing = match side {
            Side::Bid => orderbook.asks.len() > 0 && orderbook.asks[0].price <= price,
            Side::Ask => orderbook.bids.len() > 0 && orderbook.bids[0].price >= price,
        };
        if crossing {
            return Err(ErrorCode::PostOnlyWouldMatch);
        }
        match side {
            Side::Bid => orderbook.place_bid(price, order),
            Side::Ask => orderbook.place_ask(price, order),
        }
        market.user_positions = ps;
        market.next_order_id = order_id + 1;
        market.next_client_id = next_client_id;
        return Ok(PlaceOrderOutcome { order_id, client_id: assigned, fills: Vec::new(), rested: Some(order) });
    }
    let taker = Taker {
        order_id,
        client_id: assigned,
        user,
        side,
        limit: if order_type == OrderType::Market {
            None
        } else {
            Some(price)
        },
        self_trade_behavior,
        taker_fee_bps: market.taker_fee_bps,
        maker_rebate_bps: market.maker_rebate_bps,
        timestamp: now,
    };
    let matched = match side {
        Side::Bid => match_against(&orderbook.asks, taker, size),
        Side::Ask => match_against(&orderbook.bids, taker, size),
    };
    let outcome = match matched {
        Err(e) => {
            return Err(e);
        },
        Ok(o) => o,
    };
    if order_type != OrderType::Limit && outcome.remaining == size {
        return Err(ErrorCode::OrderNotFound);
    }
    if market.is_perpetual {
        match settle_fills(&mut ps, &mut long, &mut short, &outcome.fills, maintenance_margin_ratio, now) {
            Err(e) => {
                return Err(e);
            },
            Ok(()) => {},
        }
    }
    let ghost opp_old = orderbook.levels(side.opposite());
    let ghost own_old = orderbook.levels(side);
    let MatchOutcome { levels, remaining, fills, taker_cancelled } = outcome;
    proof {
        let n = lemma_walk_tail(taker, flat(opp_old), size, Seq::empty());
        lemma_flat_sorted(opp_old, side.opposite());
        lemma_flat_sorted(levels@, side.opposite());
    }
    match side {
        Side::Bid => {
            orderbook.asks = levels;
        },
        Side::Ask => {
            orderbook.bids = levels;
        },
    }
    let rested = if order_type == OrderType::Limit && remaining > 0 && !taker_cancelled {
        let mut rest = order;
        rest.remaining_size = remaining;
        match side {
            Side::Bid => orderbook.place_bid(price, rest),
            Side::Ask => orderbook.place_ask(price, rest),
        }
        Some(rest)
    } else {
        None
    };
    market.user_positions = ps;
    market.open_interest_long = long;
    market.open_interest_short = short;
    market.next_order_id = order_id + 1;
    market.next_client_id = next_client_id;
    Ok(PlaceOrderOutcome { order_id, client_id: assigned, fills, rested })
}

/// Cancels the resting order `order_id` of `user` on `side` at `price`. Fails with
/// `OrderNotFound`, leaving the book as it was, where there is no such order.
pub fn cancel_order(orderbook: &mut Orderbook, user: AccountKey, now: u64, order_id: u64, side: Side, price: u64) -> (r:
    Result<OrderCancelled, ErrorCode>)
    requires
        old(orderbook).wf(),
    ensures
        final(orderbook).wf(),
        final(orderbook).market == old(orderbook).market,
        old(orderbook).uncrossed() ==> final(orderbook).uncrossed(),
        final(orderbook).levels(side.opposite()) == old(orderbook).levels(side.opposite()),
        r is Err <==> !holds_order(old(orderbook).levels(side), price, order_id, user),
        r is Err ==> r == Err::<OrderCancelled, ErrorCode>(ErrorCode::OrderNotFound) && final(orderbook).levels(
            side,
        ) == old(orderbook).levels(side),
        r is Ok ==> exists|i: int, j: int|
            {
                let o = #[trigger] old(orderbook).levels(side)[i].orders@[j];
                &&& 0 <= i < old(orderbook).levels(side).len()
                &&& old(orderbook).levels(side)[i].price == price
                &&& 0 <= j < old(orderbook).levels(side)[i].orders@.len()
                &&& is_order_of(o, order_id, user)
                &&& removed_at(old(orderbook).levels(side), final(orderbook).levels(side), i, j)
                &&& r == Ok::<OrderCancelled, ErrorCode>(
                    OrderCancelled {
                        order_id,
                        client_id: o.client_id,
                        user,
                        side,
                        price,
                        remaining_size: o.remaining_size,
                        reduce_only: o.reduce_only,
                        timestamp: now,
                    },
                )
            },
{
    match orderbook.remove(side, order_id, price, user) {
        None => Err(ErrorCode::OrderNotFound),
        Some(o) => Ok(
            OrderCancelled {
                order_id,
                client_id: o.client_id,
                user,
                side,
                price,
                remaining_size: o.remaining_size,
                reduce_only: o.reduce_only,
                timestamp: now,
            },
        ),
    }
}

/// What a cancelled order on a spot market gives back: the quote it locked for a bid, the
/// base for an ask; none where that leaves `u64`.
pub fn refund_amount(side: Side, remaining_size: u64, price: u64) -> (r: Option<u64>)
    ensures
        side == Side::Ask ==> r == Some(remaining_size),
        side == Side::Bid ==> r == (if remaining_size * price / PRICE_PRECISION as int <= u64::MAX {
            Some((remaining_size * price / PRICE_PRECISION as int) as u64)
        } else {
            None::<u64>
        }),
{
    match side {
        Side::Ask => Some(remaining_size),
        Side::Bid => {
            assert(remaining_size as int * price as int <= u64::MAX as int * u64::MAX as int) by (nonlinear_arith)
                requires
                    remaining_size <= u64::MAX,
                    price <= u64::MAX,
            ;
            let quote = remaining_size as u128 * price as u128 / 1_000_000;
            if quote > u64::MAX as u128 {
                None
            } else {
                Some(quote as u64)
            }
        },
    }
}

/// `a * b / BPS_DENOMINATOR`, held to `u64`.
pub open spec fn bps_of(a: u64, b: u16) -> u64 {
    clamp_u64(a * b / BPS_DENOMINATOR as int) as u64
}

fn bps_of_exec(a: u64, b: u16) -> (r: u64)
    ensures
        r == bps_of(a, b),
{
    assert(a as int * b as int <= u64::MAX as int * 0xffff) by (nonlinear_arith)
        requires
            a <= u64::MAX,
            b <= 0xffff,
    ;
    let v = a as u128 * b as u128 / 10_000;
    if v > u64::MAX as u128 {
        u64::MAX
    } else {
        v as u64
    }
}

/// The record of a liquidation of `p` at `oracle_price`: the position's value, its maintenance
/// margin, the fee due to the liquidator and what is left of the margin for the owner.
pub open spec fn liquidation_of(
    p: Position,
    user: AccountKey,
    liquidator: AccountKey,
    oracle_price: u64,
    risk: AssetRiskParams,
    now: u64,
) -> PositionLiquidated {
    let value = clamp_u64(p.notional_spec(oracle_price)) as u64;
    let fee = bps_of(value, risk.liquidation_fee);
    PositionLiquidated {
        user,
        liquidator,
        side: p.side,
        size: p.size,
        position_value: value,
        maintenance_margin: bps_of(value, risk.maintenance_margin_ratio),
        liquidation_fee: fee,
        remaining: if p.margin > fee {
            (p.margin - fee) as u64
        } else {
            0
        },
        oracle_price,
        timestamp: now,
    }
}

/// Closes the position of `user` if its equity at `oracle_price` is below its maintenance
/// margin under `risk` (the asset's parameters, none where the registry lacks the asset). The
/// fee goes to `liquidator` and the rest of the margin to the owner, as the result says; the
/// open interest loses the position's size.
pub fn liquidate_position(
    market: &mut Market,
    liquidate_user: AccountKey,
    liquidator: AccountKey,
    now: u64,
    oracle_price: u64,
    risk: Option<AssetRiskParams>,
) -> (r: Result<PositionLiquidated, ErrorCode>)
    requires
        old(market).wf(),
    ensures
        final(market).wf(),
        r is Err ==> *final(market) == *old(market),
        !old(market).is_perpetual ==> r == Err::<PositionLiquidated, ErrorCode>(ErrorCode::NotPerpetualMarket),
        old(market).is_perpetual && !has_position(old(market).user_positions@, liquidate_user) ==> r == Err::<
            PositionLiquidated,
            ErrorCode,
        >(ErrorCode::PositionNotFound),
        old(market).is_perpetual && has_position(old(market).user_positions@, liquidate_user) && risk is None
            ==> r == Err::<PositionLiquidated, ErrorCode>(ErrorCode::AssetNotAvailable),
        old(market).is_perpetual && has_position(old(market).user_positions@, liquidate_user) && risk is Some
            ==> {
            let ps = old(market).user_positions@;
            let idx = position_index(ps, liquidate_user);
            let p = ps[idx].1;
            if p.liquidatable_spec(oracle_price, risk.unwrap().maintenance_margin_ratio) {
                &&& r == Ok::<PositionLiquidated, ErrorCode>(
                    liquidation_of(p, liquidate_user, liquidator, oracle_price, risk.unwrap(), now),
                )
                &&& final(market).user_positions@ == ps.remove(idx)
                &&& *final(market) == (Market {
                    user_positions: final(market).user_positions,
                    open_interest_long: (old(market).open_interest_long - share(p, Side::Bid)) as u64,
                    open_interest_short: (old(market).open_interest_short - share(p, Side::Ask)) as u64,
                    ..*old(market)
                })
            } else {
                r == Err::<PositionLiquidated, ErrorCode>(ErrorCode::PositionNotLiquidatable)
            }
        },
{
    if !market.is_perpetual {
        return Err(ErrorCode::NotPerpetualMarket);
    }
    let idx = match find_position(&market.user_positions, liquidate_user) {
        None => {
            return Err(ErrorCode::PositionNotFound);
        },
        Some(i) => i,
    };
    let params = match risk {
        None => {
            return Err(ErrorCode::AssetNotAvailable);
        },
        Some(a) => a,
    };
    let p = market.user_positions[idx].1;
    if !p.is_liquidatable(oracle_price, params.maintenance_margin_ratio) {
        return Err(ErrorCode::PositionNotLiquidatable);
    }
    let value = p.notional_value(oracle_price);
    let fee = bps_of_exec(value, params.liquidation_fee);
    let maintenance = bps_of_exec(value, params.maintenance_margin_ratio);
    let remaining = if p.margin > fee {
        p.margin - fee
    } else {
        0
    };
    let ghost old_ps = market.user_positions@;
    proof {
        lemma_share_within_total(old_ps, idx as int, Side::Bid);
        lemma_share_within_total(old_ps, idx as int, Side::Ask);
        lemma_total_remove(old_ps, idx as int, Side::Bid);
        lemma_total_remove(old_ps, idx as int, Side::Ask);
    }
    match p.side {
        Side::Bid => {
            market.open_interest_long = market.open_interest_long - p.size;
        },
        Side::Ask => {
            market.open_interest_short = market.open_interest_short - p.size;
        },
    }
    market.user_positions.remove(idx);
    assert(ledger_wf(market.user_positions@, market.open_interest_long, market.open_interest_short)) by {
        assert forall|a: int, b: int| 0 <= a < b < market.user_positions@.len() implies (
        #[trigger] market.user_positions@[a]).0@ != (#[trigger] market.user_positions@[b]).0@ by {
            if a >= idx {
                assert(market.user_positions@[a] == old_ps[a + 1]);
                assert(market.user_positions@[b] == old_ps[b + 1]);
            } else if b >= idx {
                assert(market.user_positions@[a] == old_ps[a]);
                assert(market.user_positions@[b] == old_ps[b + 1]);
            } else {
                assert(market.user_positions@[a] == old_ps[a]);
                assert(market.user_positions@[b] == old_ps[b]);
            }
        }
        assert forall|a: int| 0 <= a < market.user_positions@.len() implies (
        #[trigger] market.user_positions@[a]).1.leverage > 0 by {
            if a >= idx {
                assert(market.user_positions@[a] == old_ps[a + 1]);
            } else {
                assert(market.user_positions@[a] == old_ps[a]);
            }
        }
    }
    Ok(
        PositionLiquidated {
            user: liquidate_user,
            liquidator,
            side: p.side,
            size: p.size,
            position_value: value,
            maintenance_margin: maintenance,
            liquidation_fee: fee,
            remaining,
            oracle_price,
            timestamp: now,
        },
    )
}

/// `p` with its margin set to `margin`, and its liquidation price recomputed under `ratio`
/// where `recompute` holds.
pub open spec fn remargined(p: Position, margin: u64, recompute: bool, ratio: u16) -> Position {
    Position {
        margin,
        liquidation_price: if recompute {
            clamp_u64(p.liquidation_price_spec(ratio)) as u64
        } else {
            p.liquidation_price
        },
        ..p
    }
}

/// The ledger keeps its keys, leverages and open-interest sums when only margins and
/// liquidation prices change at `idx`.
proof fn lemma_remargin_keeps_wf(
    ps: Seq<(AccountKey, Position)>,
    idx: int,
    p: Position,
    long: u64,
    short: u64,
)
    requires
        ledger_wf(ps, long, short),
        0 <= idx < ps.len(),
        p.side == ps[idx].1.side,
        p.size == ps[idx].1.size,
        p.leverage == ps[idx].1.leverage,
        p.size == 0 ==> p.liquidation_price == 0,
    ensures
        ledger_wf(ps.update(idx, (ps[idx].0, p)), long, short),
{
    lemma_total_update(ps, idx, (ps[idx].0, p), Side::Bid);
    lemma_total_update(ps, idx, (ps[idx].0, p), Side::Ask);
    let next = ps.update(idx, (ps[idx].0, p));
    assert forall|a: int, b: int| 0 <= a < b < next.len() implies (#[trigger] next[a]).0@ != (
    #[trigger] next[b]).0@ by {
        assert(next[a].0 == ps[a].0);
        assert(next[b].0 == ps[b].0);
    }
    assert forall|a: int| 0 <= a < next.len() implies (#[trigger] next[a]).1.leverage > 0 by {
        assert(next[a].1.leverage == ps[a].1.leverage);
    }
    assert forall|a: int| 0 <= a < next.len() implies (#[trigger] next[a]).1.size == 0 ==> next[a].1.liquidation_price == 0 by {
        if a != idx {
            assert(next[a] == ps[a]);
        }
    }
}

/// Adds `amount` to the margin of `user`, opening a flat position where there is none. Where
/// the position is open and an oracle price was supplied, its liquidation price is recomputed
/// with the maintenance ratio of `risk`.
pub fn deposit_collateral(
    market: &mut Market,
    user: AccountKey,
    now: u64,
    amount: u64,
    oracle_price: Option<u64>,
    risk: Option<AssetRiskParams>,
) -> (r: Result<CollateralDeposited, ErrorCode>)
    requires
        old(market).wf(),
    ensures
        final(market).wf(),
        r is Err ==> *final(market) == *old(market),
        r is Ok ==> *final(market) == (Market { user_positions: final(market).user_positions, ..*old(market) }),
        !old(market).is_perpetual ==> r == Err::<CollateralDeposited, ErrorCode>(ErrorCode::NotPerpetualMarket),
        old(market).is_perpetual && amount == 0 ==> r == Err::<CollateralDeposited, ErrorCode>(
            ErrorCode::InvalidParameters,
        ),
        old(market).is_perpetual && amount > 0 ==> {
            let ps = old(market).user_positions@;
            if has_position(ps, user) {
                let idx = position_index(ps, user);
                let p = ps[idx].1;
                let recompute = p.size > 0 && oracle_price is Some;
                if p.margin + amount > u64::MAX {
                    r == Err::<CollateralDeposited, ErrorCode>(ErrorCode::MathOverflow)
                } else if recompute && risk is None {
                    r == Err::<CollateralDeposited, ErrorCode>(ErrorCode::AssetNotAvailable)
                } else {
                    &&& r == Ok::<CollateralDeposited, ErrorCode>(
                        CollateralDeposited {
                            user,
                            amount,
                            total_margin: (p.margin + amount) as u64,
                            timestamp: now,
                        },
                    )
                    &&& final(market).user_positions@ == ps.update(
                        idx,
                        (
                            ps[idx].0,
                            remargined(
                                p,
                                (p.margin + amount) as u64,
                                recompute,
                                if recompute {
                                    risk.unwrap().maintenance_margin_ratio
                                } else {
                                    0
                                },
                            ),
                        ),
                    )
                }
            } else {
                &&& r == Ok::<CollateralDeposited, ErrorCode>(
                    CollateralDeposited { user, amount, total_margin: amount, timestamp: now },
                )
                &&& final(market).user_positions@ == ps.push((user, Position::fresh(Side::Bid, amount, now)))
            }
        },
{
    if !market.is_perpetual {
        return Err(ErrorCode::NotPerpetualMarket);
    }
    if amount == 0 {
        return Err(ErrorCode::InvalidParameters);
    }
    let ghost old_ps = market.user_positions@;
    match find_position(&market.user_positions, user) {
        Some(idx) => {
            let (key, mut p) = market.user_positions[idx];
            if amount > u64::MAX - p.margin {
                return Err(ErrorCode::MathOverflow);
            }
            let recompute = p.size > 0 && oracle_price.is_some();
            let ratio: u16 = if recompute {
                match risk {
                    None => {
                        return Err(ErrorCode::AssetNotAvailable);
                    },
                    Some(a) => a.maintenance_margin_ratio,
                }
            } else {
                0
            };
            assert(p.leverage > 0);
            p.margin = p.margin + amount;
            if recompute {
                p.update_liquidation_price(ratio);
            }
            market.user_positions.set(idx, (key, p));
            proof {
                lemma_remargin_keeps_wf(old_ps, idx as int, p, market.open_interest_long, market.open_interest_short);
            }
            Ok(CollateralDeposited { user, amount, total_margin: p.margin, timestamp: now })
        },
        None => {
            let p = Position::new(Side::Bid, amount, now);
            market.user_positions.push((user, p));
            proof {
                crate::market::lemma_total_push(old_ps, (user, p), Side::Bid);
                crate::market::lemma_total_push(old_ps, (user, p), Side::Ask);
                let next = market.user_positions@;
                assert forall|a: int, b: int| 0 <= a < b < next.len() implies (#[trigger] next[a]).0@ != (
                #[trigger] next[b]).0@ by {
                    if b == old_ps.len() {
                        assert(old_ps[a].0@ != user@);
                    } else {
                        assert(next[a] == old_ps[a]);
                        assert(next[b] == old_ps[b]);
                    }
                }
                assert forall|a: int| 0 <= a < next.len() implies (#[trigger] next[a]).1.leverage > 0 by {
                    if a < old_ps.len() {
                        assert(next[a] == old_ps[a]);
                    }
                }
            }
            Ok(CollateralDeposited { user, amount, total_margin: amount, timestamp: now })
        },
    }
}

/// Takes `amount` off the margin of `user`. An open position must keep, at `oracle_price`, the
/// maintenance margin of `risk` after the withdrawal, and then has its liquidation price
/// recomputed; a position left with neither size nor margin is removed.
pub fn withdraw_collateral(
    market: &mut Market,
    user: AccountKey,
    now: u64,
    amount: u64,
    oracle_price: Option<u64>,
    risk: Option<AssetRiskParams>,
) -> (r: Result<CollateralWithdrawn, ErrorCode>)
    requires
        old(market).wf(),
    ensures
        final(market).wf(),
        r is Err ==> *final(market) == *old(market),
        r is Ok ==> *final(market) == (Market { user_positions: final(market).user_positions, ..*old(market) }),
        !old(market).is_perpetual ==> r == Err::<CollateralWithdrawn, ErrorCode>(ErrorCode::NotPerpetualMarket),
        old(market).is_perpetual ==> {
            let ps = old(market).user_positions@;
            let idx = position_index(ps, user);
            let p = ps[idx].1;
            if !has_position(ps, user) {
                r == Err::<CollateralWithdrawn, ErrorCode>(ErrorCode::PositionNotFound)
            } else if p.margin < amount {
                r == Err::<CollateralWithdrawn, ErrorCode>(ErrorCode::InsufficientMargin)
            } else if p.size > 0 && oracle_price is None {
                r == Err::<CollateralWithdrawn, ErrorCode>(ErrorCode::InvalidPriceFeed)
            } else if p.size > 0 && risk is None {
                r == Err::<CollateralWithdrawn, ErrorCode>(ErrorCode::AssetNotAvailable)
            } else if p.size > 0 && p.margin - amount < p.required_margin_spec(
                oracle_price.unwrap(),
                risk.unwrap().maintenance_margin_ratio,
            ) {
                r == Err::<CollateralWithdrawn, ErrorCode>(ErrorCode::WithdrawalWouldTriggerLiquidation)
            } else {
                let left = remargined(
                    p,
                    (p.margin - amount) as u64,
                    p.size > 0,
                    if p.size > 0 {
                        risk.unwrap().maintenance_margin_ratio
                    } else {
                        0
                    },
                );
                &&& r == Ok::<CollateralWithdrawn, ErrorCode>(
                    CollateralWithdrawn {
                        user,
                        amount,
                        remaining_margin: (p.margin - amount) as u64,
                        timestamp: now,
                    },
                )
                &&& final(market).user_positions@ == if left.size == 0 && left.margin == 0 {
                    ps.remove(idx)
                } else {
                    ps.update(idx, (ps[idx].0, left))
                }
            }
        },
{
    if !market.is_perpetual {
        return Err(ErrorCode::NotPerpetualMarket);
    }
    let ghost old_ps = market.user_positions@;
    let idx = match find_position(&market.user_positions, user) {
        None => {
            return Err(ErrorCode::PositionNotFound);
        },
        Some(i) => i,
    };
    let (key, mut p) = market.user_positions[idx];
    if p.margin < amount {
        return Err(ErrorCode::InsufficientMargin);
    }
    let mut ratio: u16 = 0;
    if p.size > 0 {
        let oracle = match oracle_price {
            None => {
                return Err(ErrorCode::InvalidPriceFeed);
            },
            Some(o) => o,
        };
        ratio = match risk {
            None => {
                return Err(ErrorCode::AssetNotAvailable);
            },
            Some(a) => a.maintenance_margin_ratio,
        };
        let required = p.required_margin_exact(oracle, ratio);
        if ((p.margin - amount) as u128) < required {
            return Err(ErrorCode::WithdrawalWouldTriggerLiquidation);
        }
    }
    assert(p.leverage > 0);
    p.margin = p.margin - amount;
    if p.size > 0 {
        p.update_liquidation_price(ratio);
    }
    if p.size == 0 && p.margin == 0 {
        market.user_positions.remove(idx);
        proof {
            lemma_total_remove(old_ps, idx as int, Side::Bid);
            lemma_total_remove(old_ps, idx as int, Side::Ask);
            let next = market.user_positions@;
            assert forall|a: int, b: int| 0 <= a < b < next.len() implies (#[trigger] next[a]).0@ != (
            #[trigger] next[b]).0@ by {
                if a >= idx {
                    assert(next[a] == old_ps[a + 1]);
                    assert(next[b] == old_ps[b + 1]);
                } else if b >= idx {
                    assert(next[a] == old_ps[a]);
                    assert(next[b] == old_ps[b + 1]);
                } else {
                    assert(next[a] == old_ps[a]);
                    assert(next[b] == old_ps[b]);
                }
            }
            assert forall|a: int| 0 <= a < next.len() implies (#[trigger] next[a]).1.leverage > 0 by {
                if a >= idx {
                    assert(next[a] == old_ps[a + 1]);
                } else {
                    assert(next[a] == old_ps[a]);
                }
            }
        }
    } else {
        market.user_positions.set(idx, (key, p));
        proof {
            lemma_remargin_keeps_wf(old_ps, idx as int, p, market.open_interest_long, market.open_interest_short);
        }
    }
    Ok(CollateralWithdrawn { user, amount, remaining_margin: p.margin, timestamp: now })
}

/// `n / d` rounded toward zero.
fn div_toward_zero(n: i128, d: u128) -> (r: i128)
    requires
        0 < d <= i128::MAX,
        n > i128::MIN,
    ensures
        r == trunc_div(n as int, d as int),
        n >= 0 ==> 0 <= r <= n,
        n < 0 ==> n <= r <= 0,
{
    if n >= 0 {
        let q = n as u128 / d;
        assert(q <= n as u128) by (nonlinear_arith)
            requires
                q == n as u128 / d,
                d > 0,
                n >= 0,
        ;
        q as i128
    } else {
        let m = (-n) as u128;
        let q = m / d;
        assert(q <= m) by (nonlinear_arith)
            requires
                q == m / d,
                d > 0,
        ;
        -(q as i128)
    }
}

/// The premium of the mark price over the oracle price, in basis points of the oracle price,
/// rounded toward zero and held to `i64`; zero without an oracle price.
pub open spec fn premium_index_spec(mark_price: u64, oracle_price: u64) -> int {
    if oracle_price > 0 {
        clamp_i64(trunc_div((mark_price - oracle_price) * 10_000, oracle_price as int))
    } else {
        0
    }
}

/// The hourly funding rate: a twenty-fourth of the premium index, rounded toward zero.
pub open spec fn funding_rate_spec(mark_price: u64, oracle_price: u64) -> int {
    trunc_div(premium_index_spec(mark_price, oracle_price), 24)
}

/// The price the book quotes: its mid price, or the oracle price for an empty book.
pub open spec fn mark_price_spec(book: Orderbook, oracle_price: u64) -> u64 {
    match book.mid_spec() {
        Some(p) => p,
        None => oracle_price,
    }
}

/// `p` after funding at `rate` with the oracle at `oracle_price`: an open long pays
/// `rate * value / 10000`, an open short receives it, into the realized profit, and the
/// position records `index`. None where the value or the profit leaves its integer type.
pub open spec fn funded(p: Position, rate: int, oracle_price: u64, index: i64) -> Option<Position> {
    if p.size == 0 {
        Some(p)
    } else {
        let value = p.size * oracle_price / PRICE_PRECISION as int;
        if value > u64::MAX {
            None
        } else {
            let payment = match p.side {
                Side::Bid => trunc_div(-rate * value, BPS_DENOMINATOR as int),
                Side::Ask => trunc_div(rate * value, BPS_DENOMINATOR as int),
            };
            let pnl = p.realized_pnl + payment;
            if pnl < i64::MIN || pnl > i64::MAX {
                None
            } else {
                Some(Position { realized_pnl: pnl as i64, last_funding_index: index, ..p })
            }
        }
    }
}

fn fund_position(p: Position, rate: i64, oracle_price: u64, index: i64) -> (r: Option<Position>)
    requires
        -0x0555_5555_5555_5556 <= rate <= 0x0555_5555_5555_5555,
    ensures
        r == funded(p, rate as int, oracle_price, index),
{
    if p.size == 0 {
        return Some(p);
    }
    let size = p.size;
    assert(size as int * oracle_price as int <= u64::MAX as int * u64::MAX as int) by (nonlinear_arith)
        requires
            size <= u64::MAX,
            oracle_price <= u64::MAX,
    ;
    let value = size as u128 * oracle_price as u128 / 1_000_000;
    if value > u64::MAX as u128 {
        return None;
    }
    let signed_rate: i128 = match p.side {
        Side::Bid => -(rate as i128),
        Side::Ask => rate as i128,
    };
    assert(-0x0555_5555_5555_5556 * 0x1_0000_0000_0000_0000 <= signed_rate * value
        <= 0x0555_5555_5555_5556 * 0x1_0000_0000_0000_0000) by (nonlinear_arith)
        requires
            -0x0555_5555_5555_5556 <= signed_rate <= 0x0555_5555_5555_5556,
            0 <= value <= u64::MAX,
    ;
    let payment = div_toward_zero(signed_rate * value as i128, 10_000);
    let pnl = p.realized_pnl as i128 + payment;
    if pnl < i64::MIN as i128 || pnl > i64::MAX as i128 {
        return None;
    }
    Some(Position { realized_pnl: pnl as i64, last_funding_index: index, ..p })
}

/// Recomputes the funding rate from the oracle price and the book's mark price, once at least
/// `funding_interval` has passed since the last time, and settles it on every open position.
pub fn update_funding_rate(market: &mut Market, orderbook: &Orderbook, now: u64, oracle_price: u64) -> (r: Result<
    FundingRateUpdated,
    ErrorCode,
>)
    requires
        old(market).wf(),
    ensures
        final(market).wf(),
        r is Err ==> *final(market) == *old(market),
        !old(market).is_perpetual ==> r == Err::<FundingRateUpdated, ErrorCode>(ErrorCode::NotPerpetualMarket),
        old(market).is_perpetual && now < old(market).last_funding_timestamp + old(market).funding_interval
            ==> r == Err::<FundingRateUpdated, ErrorCode>(ErrorCode::FundingRateTooSoon),
        old(market).is_perpetual && now >= old(market).last_funding_timestamp + old(market).funding_interval
            ==> {
            let m = *old(market);
            let ps = m.user_positions@;
            let mark = mark_price_spec(*orderbook, oracle_price);
            let rate = funding_rate_spec(mark, oracle_price);
            let index = m.cumulative_funding_long;
            if (exists|i: int| 0 <= i < ps.len() && (#[trigger] funded(ps[i].1, rate, oracle_price, index)) is None)
                || clamp_i64(m.cumulative_funding_long + rate) != m.cumulative_funding_long + rate
                || clamp_i64(m.cumulative_funding_short - rate) != m.cumulative_funding_short - rate {
                r == Err::<FundingRateUpdated, ErrorCode>(ErrorCode::MathOverflow)
            } else {
                &&& r == Ok::<FundingRateUpdated, ErrorCode>(
                    FundingRateUpdated {
                        oracle_price,
                        mark_price: mark,
                        premium_index: premium_index_spec(mark, oracle_price) as i64,
                        funding_rate: rate as i64,
                        timestamp: now,
                    },
                )
                &&& final(market).user_positions@.len() == ps.len()
                &&& forall|i: int|
                    0 <= i < ps.len() ==> Some(#[trigger] final(market).user_positions@[i]) == (match funded(
                        ps[i].1,
                        rate,
                        oracle_price,
                        index,
                    ) {
                        Some(q) => Some((ps[i].0, q)),
                        None => None,
                    })
                &&& *final(market) == (Market {
                    user_positions: final(market).user_positions,
                    last_oracle_price: oracle_price,
                    mark_price_twap: mark,
                    last_funding_timestamp: now,
                    cumulative_funding_long: (m.cumulative_funding_long + rate) as i64,
                    cumulative_funding_short: (m.cumulative_funding_short - rate) as i64,
                    ..m
                })
            }
        },
{
    if !market.is_perpetual {
        return Err(ErrorCode::NotPerpetualMarket);
    }
    if (now as u128) < market.last_funding_timestamp as u128 + market.funding_interval as u128 {
        return Err(ErrorCode::FundingRateTooSoon);
    }
    let mark_price = match orderbook.mid_price() {
        Some(p) => p,
        None => oracle_price,
    };
    let premium: i64 = if oracle_price > 0 {
        let diff = mark_price as i128 - oracle_price as i128;
        let p = div_toward_zero(diff * 10_000, oracle_price as u128);
        if p < i64::MIN as i128 {
            i64::MIN
        } else if p > i64::MAX as i128 {
            i64::MAX
        } else {
            p as i64
        }
    } else {
        0
    };
    let rate_wide = div_toward_zero(premium as i128, 24);
    assert(-0x0555_5555_5555_5556 <= rate_wide <= 0x0555_5555_5555_5555) by {
        if premium >= 0 {
            assert(rate_wide == premium as int / 24);
            assert(premium as int / 24 <= 0x7fff_ffff_ffff_ffffint / 24) by (nonlinear_arith)
                requires
                    0 <= premium <= 0x7fff_ffff_ffff_ffff,
            ;
        } else {
            assert(rate_wide == -((-premium) as int / 24));
            assert((-premium) as int / 24 <= 0x8000_0000_0000_0000int / 24) by (nonlinear_arith)
                requires
                    0 < -premium <= 0x8000_0000_0000_0000,
            ;
        }
    }
    let rate = rate_wide as i64;
    assert(mark_price == mark_price_spec(*orderbook, oracle_price));
    assert(premium == premium_index_spec(mark_price, oracle_price));
    assert(rate == funding_rate_spec(mark_price, oracle_price));
    let index = market.cumulative_funding_long;
    let ghost ps = market.user_positions@;
    let mut funded_ps: Vec<(AccountKey, Position)> = Vec::new();
    let mut i: usize = 0;
    while i < market.user_positions.len()
        invariant
            0 <= i <= ps.len(),
            ps == market.user_positions@,
            *market == *old(market),
            old(market).wf(),
            old(market).is_perpetual,
            now >= old(market).last_funding_timestamp + old(market).funding_interval,
            -0x0555_5555_5555_5556 <= rate <= 0x0555_5555_5555_5555,
            rate == funding_rate_spec(mark_price, oracle_price),
            mark_price == mark_price_spec(*orderbook, oracle_price),
            index == old(market).cumulative_funding_long,
            funded_ps@.len() == i,
            forall|k: int|
                0 <= k < i ==> Some(#[trigger] funded_ps@[k]) == (match funded(ps[k].1, rate as int, oracle_price, index) {
                    Some(q) => Some((ps[k].0, q)),
                    None => None,
                }),
        decreases ps.len() - i,
    {
        let (key, p) = market.user_positions[i];
        match fund_position(p, rate, oracle_price, index) {
            None => {
                assert(funded(ps[i as int].1, rate as int, oracle_price, index) is None);
                return Err(ErrorCode::MathOverflow);
            },
            Some(q) => {
                funded_ps.push((key, q));
            },
        }
        i = i + 1;
    }
    if rate > 0 && market.cumulative_funding_long > i64::MAX - rate {
        return Err(ErrorCode::MathOverflow);
    }
    if rate < 0 && market.cumulative_funding_long < i64::MIN - rate {
        return Err(ErrorCode::MathOverflow);
    }
    if rate > 0 && market.cumulative_funding_short < i64::MIN + rate {
        return Err(ErrorCode::MathOverflow);
    }
    if rate < 0 && market.cumulative_funding_short > i64::MAX + rate {
        return Err(ErrorCode::MathOverflow);
    }
    proof {
        assert forall|k: int| 0 <= k < ps.len() implies (#[trigger] ps[k]).1.side == funded_ps@[k].1.side
            && ps[k].1.size == funded_ps@[k].1.size && funded_ps@[k].0 == ps[k].0 && funded_ps@[k].1.leverage
            == ps[k].1.leverage by {
            assert(Some(funded_ps@[k]) == (match funded(ps[k].1, rate as int, oracle_price, index) {
                Some(q) => Some((ps[k].0, q)),
                None => None,
            }));
        }
        lemma_total_congruent(ps, funded_ps@, Side::Bid);
        lemma_total_congruent(ps, funded_ps@, Side::Ask);
    }
    market.user_positions = funded_ps;
    market.last_oracle_price = oracle_price;
    market.mark_price_twap = mark_price;
    market.last_funding_timestamp = now;
    market.cumulative_funding_long = market.cumulative_funding_long + rate;
    market.cumulative_funding_short = market.cumulative_funding_short - rate;
    Ok(
        FundingRateUpdated {
            oracle_price,
            mark_price,
            premium_index: premium,
            funding_rate: rate,
            timestamp: now,
        },
    )
}

/// The accounts a market is created with.
#[derive(Clone, Copy, Debug)]
pub struct MarketAccounts {
    pub market: AccountKey,
    pub authority: AccountKey,
    pub base_mint: AccountKey,
    pub quote_mint: AccountKey,
    pub base_vault: AccountKey,
    pub quote_vault: AccountKey,
}

/// Longest market name, symbol and asset id, in bytes.
pub const MAX_NAME_LEN: usize = 32;
pub const MAX_SYMBOL_LEN: usize = 16;
pub const MAX_ASSET_ID_LEN: usize = 16;

/// The parameters a market may be created with: fees and rebate within bounds, a positive
/// minimum size and tick, names within their lengths (in UTF-8 bytes), a leverage cap in
/// `1..=MAX_LEVERAGE_LIMIT`, and a feed id written as 64 hex digits.
pub open spec fn init_params_ok(
    market_name: Seq<char>,
    market_symbol: Seq<char>,
    asset_id: Seq<char>,
    min_base_order_size: u64,
    tick_size: u64,
    taker_fee_bps: u16,
    maker_rebate_bps: u16,
    max_leverage: u16,
    oracle_feed_id_hex: Seq<u8>,
) -> bool {
    &&& taker_fee_bps <= MAX_TAKER_FEE_BPS && maker_rebate_bps <= taker_fee_bps
    &&& min_base_order_size > 0 && tick_size > 0
    &&& encode_utf8(market_name).len() <= MAX_NAME_LEN
    &&& encode_utf8(market_symbol).len() <= MAX_SYMBOL_LEN
    &&& encode_utf8(asset_id).len() <= MAX_ASSET_ID_LEN
    &&& 0 < max_leverage <= MAX_LEVERAGE_LIMIT
    &&& is_feed_hex(oracle_feed_id_hex)
}

/// Creates a market, active, with its counters at 1, no positions, an empty book and its
/// funding clock started at `now`. Fails with `InvalidParameters` on parameters out of bounds.
pub fn initialize(
    accounts: MarketAccounts,
    market_name: String,
    market_symbol: String,
    asset_id: String,
    is_perpetual: bool,
    settle_with_usdc: bool,
    min_base_order_size: u64,
    tick_size: u64,
    taker_fee_bps: u16,
    maker_rebate_bps: u16,
    max_leverage: u16,
    funding_interval: u64,
    vault_signer_bump: u8,
    registry: AccountKey,
    oracle_feed_id_hex: &str,
    max_oracle_age: u64,
    now: u64,
) -> (r: Result<(Market, Orderbook, MarketCreated), ErrorCode>)
    ensures
        r is Ok <==> init_params_ok(
            market_name@,
            market_symbol@,
            asset_id@,
            min_base_order_size,
            tick_size,
            taker_fee_bps,
            maker_rebate_bps,
            max_leverage,
            oracle_feed_id_hex.spec_bytes(),
        ),
        r is Err ==> r == Err::<(Market, Orderbook, MarketCreated), ErrorCode>(ErrorCode::InvalidParameters),
        r matches Ok((m, book, created)) ==> {
            &&& m.wf()
            &&& book.wf() && book.uncrossed()
            &&& book.market == accounts.market && book.bids@.len() == 0 && book.asks@.len() == 0
            &&& m.user_positions@.len() == 0
            &&& m.authority == accounts.authority && m.base_mint == accounts.base_mint && m.quote_mint
                == accounts.quote_mint && m.base_vault == accounts.base_vault && m.quote_vault
                == accounts.quote_vault && m.registry == registry && m.vault_signer_bump == vault_signer_bump
            &&& m.min_base_order_size == min_base_order_size && m.tick_size == tick_size
            &&& m.taker_fee_bps == taker_fee_bps && m.maker_rebate_bps == maker_rebate_bps
            &&& m.max_leverage == max_leverage && m.funding_interval == funding_interval
            &&& m.next_order_id == 1 && m.next_client_id == 1 && m.status == MarketStatus::Active
            &&& m.market_name@ == market_name@ && m.market_symbol@ == market_symbol@ && m.asset_id@
                == asset_id@
            &&& m.is_perpetual == is_perpetual && m.settle_with_usdc == settle_with_usdc
            &&& m.last_funding_timestamp == now && m.last_oracle_price == 0 && m.oracle_price_offset == 0
                && m.mark_price_twap == 0
            &&& m.open_interest_long == 0 && m.open_interest_short == 0
            &&& m.cumulative_funding_long == 0 && m.cumulative_funding_short == 0
            &&& forall|i: int| 0 <= i < 32 ==> #[trigger] m.oracle_feed_id@[i] == feed_byte(
                oracle_feed_id_hex.spec_bytes(),
                i,
            )
            &&& m.max_oracle_age == max_oracle_age
            &&& created.market_name@ == market_name@ && created.market_symbol@ == market_symbol@
                && created.asset_id@ == asset_id@
            &&& created.base_mint == accounts.base_mint && created.quote_mint == accounts.quote_mint
            &&& created.is_perpetual == is_perpetual && created.min_base_order_size == min_base_order_size
            &&& created.tick_size == tick_size && created.taker_fee_bps == taker_fee_bps
            &&& created.maker_rebate_bps == maker_rebate_bps && created.max_leverage == max_leverage
        },
{
    if !(taker_fee_bps <= 500 && maker_rebate_bps <= taker_fee_bps) {
        return Err(ErrorCode::InvalidParameters);
    }
    if !(min_base_order_size > 0 && tick_size > 0) {
        return Err(ErrorCode::InvalidParameters);
    }
    let name = market_name.as_str();
    let symbol = market_symbol.as_str();
    let asset = asset_id.as_str();
    assert(name.spec_bytes() == encode_utf8(market_name@));
    assert(symbol.spec_bytes() == encode_utf8(market_symbol@));
    assert(asset.spec_bytes() == encode_utf8(asset_id@));
    if !(name.as_bytes().len() <= MAX_NAME_LEN && symbol.as_bytes().len() <= MAX_SYMBOL_LEN
        && asset.as_bytes().len() <= MAX_ASSET_ID_LEN) {
        return Err(ErrorCode::InvalidParameters);
    }
    if !(max_leverage > 0 && max_leverage <= 10_000) {
        return Err(ErrorCode::InvalidParameters);
    }
    let oracle_feed_id = match get_feed_id_from_hex(oracle_feed_id_hex) {
        Ok(id) => id,
        Err(e) => {
            return Err(e);
        },
    };
    let created = MarketCreated {
        base_mint: accounts.base_mint,
        quote_mint: accounts.quote_mint,
        market_name: market_name.clone(),
        market_symbol: market_symbol.clone(),
        asset_id: asset_id.clone(),
        is_perpetual,
        min_base_order_size,
        tick_size,
        taker_fee_bps,
        maker_rebate_bps,
        max_leverage,
    };
    let market = Market {
        authority: accounts.authority,
        base_mint: accounts.base_mint,
        quote_mint: accounts.quote_mint,
        base_vault: accounts.base_vault,
        quote_vault: accounts.quote_vault,
        vault_signer_bump,
        registry,
        min_base_order_size,
        tick_size,
        taker_fee_bps,
        maker_rebate_bps,
        next_order_id: 1,
        next_client_id: 1,
        status: MarketStatus::Active,
        market_name,
        market_symbol,
        asset_id,
        is_perpetual,
        settle_with_usdc,
        last_funding_timestamp: now,
        last_oracle_price: 0,
        oracle_price_offset: 0,
        mark_price_twap: 0,
        open_interest_long: 0,
        open_interest_short: 0,
        cumulative_funding_long: 0,
        cumulative_funding_short: 0,
        funding_interval,
        max_leverage,
        user_positions: Vec::new(),
        oracle_feed_id,
        max_oracle_age,
    };
    Ok((market, Orderbook::new(accounts.market), created))
}

/// Sets the market's status; only its authority may.
pub fn change_market_status(market: &mut Market, authority: AccountKey, new_status: MarketStatus, now: u64) -> (r:
    Result<MarketStatusChanged, ErrorCode>)
    requires
        old(market).wf(),
    ensures
        final(market).wf(),
        old(market).authority@ != authority@ ==> r == Err::<MarketStatusChanged, ErrorCode>(
            ErrorCode::InvalidAuthority,
        ) && *final(market) == *old(market),
        old(market).authority@ == authority@ ==> r == Ok::<MarketStatusChanged, ErrorCode>(
            MarketStatusChanged { status: new_status, timestamp: now },
        ) && *final(market) == (Market { status: new_status, ..*old(market) }),
{
    if market.authority != authority {
        return Err(ErrorCode::InvalidAuthority);
    }
    market.status = new_status;
    Ok(MarketStatusChanged { status: new_status, timestamp: now })
}

pub open spec fn owned_by(user: AccountKey) -> spec_fn(Order) -> bool {
    |o: Order| o.user@ == user@
}

pub open spec fn not_owned_by(user: AccountKey) -> spec_fn(Order) -> bool {
    |o: Order| o.user@ != user@
}

/// The record of the cancellation of `o` at `now`.
pub open spec fn cancelled_event(o: Order, now: u64) -> OrderCancelled {
    OrderCancelled {
        order_id: o.id,
        client_id: o.client_id,
        user: o.user,
        side: o.side,
        price: o.price,
        remaining_size: o.remaining_size,
        reduce_only: o.reduce_only,
        timestamp: now,
    }
}

pub open spec fn cancelled_events(orders: Seq<Order>, now: u64) -> Seq<OrderCancelled> {
    orders.map_values(|o: Order| cancelled_event(o, now))
}

proof fn lemma_flat_push(levels: Seq<PriceLevel>, l: PriceLevel)
    ensures
        flat(levels.push(l)) == flat(levels) + l.orders@,
    decreases levels.len(),
{
    if levels.len() == 0 {
        assert(levels.push(l).skip(1) =~= Seq::<PriceLevel>::empty());
        assert(flat(Seq::<PriceLevel>::empty()) == Seq::<Order>::empty());
        assert(flat(levels) == Seq::<Order>::empty());
        assert(flat(levels.push(l)) =~= l.orders@);
    } else {
        assert(levels.push(l).skip(1) =~= levels.skip(1).push(l));
        lemma_flat_push(levels.skip(1), l);
        assert(flat(levels.push(l)) =~= flat(levels) + l.orders@);
    }
}

proof fn lemma_filter_push(s: Seq<Order>, x: Order, pred: spec_fn(Order) -> bool)
    ensures
        s.push(x).filter(pred) == if pred(x) {
            s.filter(pred).push(x)
        } else {
            s.filter(pred)
        },
{
    reveal(Seq::filter);
    assert(s.push(x).drop_last() =~= s);
}

proof fn lemma_filter_empty(pred: spec_fn(Order) -> bool)
    ensures
        Seq::<Order>::empty().filter(pred) == Seq::<Order>::empty(),
{
    reveal(Seq::filter);
}

/// Splits the orders of one level: those of `user` become cancellations appended to
/// `events`, the others are handed back.
fn split_level(
    orders: &Vec<Order>,
    user: AccountKey,
    now: u64,
    events: &mut Vec<OrderCancelled>,
    Ghost(side): Ghost<Side>,
    Ghost(price): Ghost<u64>,
) -> (kept: Vec<Order>)
    requires
        forall|a: int| 0 <= a < orders@.len() ==> resting_ok(#[trigger] orders@[a], side, price),
    ensures
        kept@ == orders@.filter(not_owned_by(user)),
        forall|a: int| 0 <= a < kept@.len() ==> resting_ok(#[trigger] kept@[a], side, price),
        final(events)@ == old(events)@ + cancelled_events(orders@.filter(owned_by(user)), now),
{
    let ghost before = events@;
    let mut kept: Vec<Order> = Vec::new();
    let mut j: usize = 0;
    assert(orders@.take(0) =~= Seq::<Order>::empty());
    proof {
        lemma_filter_empty(owned_by(user));
        lemma_filter_empty(not_owned_by(user));
    }
    assert(events@ =~= before + cancelled_events(orders@.take(0).filter(owned_by(user)), now));
    while j < orders.len()
        invariant
            0 <= j <= orders@.len(),
            forall|a: int| 0 <= a < orders@.len() ==> resting_ok(#[trigger] orders@[a], side, price),
            kept@ == orders@.take(j as int).filter(not_owned_by(user)),
            forall|a: int| 0 <= a < kept@.len() ==> resting_ok(#[trigger] kept@[a], side, price),
            events@ == before + cancelled_events(orders@.take(j as int).filter(owned_by(user)), now),
            before == old(events)@,
        decreases orders@.len() - j,
    {
        let o = orders[j];
        assert(orders@.take(j + 1) =~= orders@.take(j as int).push(o));
        proof {
            lemma_filter_push(orders@.take(j as int), o, owned_by(user));
            lemma_filter_push(orders@.take(j as int), o, not_owned_by(user));
        }
        if o.user == user {
            events.push(
                OrderCancelled {
                    order_id: o.id,
                    client_id: o.client_id,
                    user: o.user,
                    side: o.side,
                    price: o.price,
                    remaining_size: o.remaining_size,
                    reduce_only: o.reduce_only,
                    timestamp: now,
                },
            );
            assert(cancelled_events(orders@.take(j + 1).filter(owned_by(user)), now) =~= cancelled_events(
                orders@.take(j as int).filter(owned_by(user)),
                now,
            ).push(cancelled_event(o, now)));
        } else {
            kept.push(o);
        }
        j = j + 1;
    }
    assert(orders@.take(j as int) =~= orders@);
    kept
}

/// Filtering and cancelling the first `i + 1` levels is doing it for the first `i`, then for
/// level `i`.
proof fn lemma_drop_step(levels: Seq<PriceLevel>, i: int, user: AccountKey, now: u64)
    requires
        0 <= i < levels.len(),
    ensures
        flat(levels.take(i + 1)).filter(not_owned_by(user)) == flat(levels.take(i)).filter(not_owned_by(user))
            + levels[i].orders@.filter(not_owned_by(user)),
        cancelled_events(flat(levels.take(i + 1)).filter(owned_by(user)), now) == cancelled_events(
            flat(levels.take(i)).filter(owned_by(user)),
            now,
        ) + cancelled_events(levels[i].orders@.filter(owned_by(user)), now),
{
    assert(levels.take(i + 1) =~= levels.take(i).push(levels[i]));
    lemma_flat_push(levels.take(i), levels[i]);
    Seq::filter_distributes_over_add(flat(levels.take(i)), levels[i].orders@, not_owned_by(user));
    Seq::filter_distributes_over_add(flat(levels.take(i)), levels[i].orders@, owned_by(user));
    assert(cancelled_events(flat(levels.take(i + 1)).filter(owned_by(user)), now) =~= cancelled_events(
        flat(levels.take(i)).filter(owned_by(user)),
        now,
    ) + cancelled_events(levels[i].orders@.filter(owned_by(user)), now));
}

/// Appending a level after the levels it is worse than keeps a side ordered.
proof fn lemma_push_level(r: Seq<PriceLevel>, l: PriceLevel, side: Side)
    requires
        side_wf(r, side),
        level_ok(l, side),
        forall|a: int| 0 <= a < r.len() ==> better(side, #[trigger] r[a].price, l.price),
    ensures
        side_wf(r.push(l), side),
        flat(r.push(l)) == flat(r) + l.orders@,
{
    lemma_flat_push(r, l);
    let n = r.push(l);
    assert forall|a: int| 0 <= a < n.len() implies level_ok(#[trigger] n[a], side) by {
        if a < r.len() {
            assert(n[a] == r[a]);
        }
    }
    assert forall|a: int, b: int| 0 <= a < b < n.len() implies better(side, #[trigger] n[a].price, #[trigger] n[b].price) by {
        assert(n[a] == r[a]);
        if b < r.len() {
            assert(n[b] == r[b]);
        }
    }
}

/// The side without the orders of `user`, levels left empty dropped; the cancellations are
/// appended to `events` in book order.
fn drop_orders_of(
    levels: &Vec<PriceLevel>,
    user: AccountKey,
    now: u64,
    events: &mut Vec<OrderCancelled>,
    Ghost(side): Ghost<Side>,
) -> (r: Vec<PriceLevel>)
    requires
        side_wf(levels@, side),
    ensures
        side_wf(r@, side),
        flat(r@) == flat(levels@).filter(not_owned_by(user)),
        final(events)@ == old(events)@ + cancelled_events(flat(levels@).filter(owned_by(user)), now),
        r@.len() > 0 ==> levels@.len() > 0 && (r@[0].price == levels@[0].price || better(
            side,
            levels@[0].price,
            r@[0].price,
        )),
{
    let mut r: Vec<PriceLevel> = Vec::new();
    let mut i: usize = 0;
    let ghost start = events@;
    assert(levels@.take(0) =~= Seq::<PriceLevel>::empty());
    assert(flat(Seq::<PriceLevel>::empty()) == Seq::<Order>::empty());
    proof {
        lemma_filter_empty(owned_by(user));
        lemma_filter_empty(not_owned_by(user));
    }
    assert(events@ =~= start + cancelled_events(Seq::<Order>::empty(), now));
    while i < levels.len()
        invariant
            0 <= i <= levels@.len(),
            side_wf(levels@, side),
            side_wf(r@, side),
            i < levels@.len() ==> forall|a: int| 0 <= a < r@.len() ==> better(side, #[trigger] r@[a].price, levels@[i as int].price),
            r@.len() > 0 ==> (r@[0].price == levels@[0].price || better(side, levels@[0].price, r@[0].price)),
            flat(r@) == flat(levels@.take(i as int)).filter(not_owned_by(user)),
            events@ == start + cancelled_events(flat(levels@.take(i as int)).filter(owned_by(user)), now),
            start == old(events)@,
        decreases levels@.len() - i,
    {
        assert(level_ok(levels@[i as int], side));
        let kept = split_level(&levels[i].orders, user, now, events, Ghost(side), Ghost(levels@[i as int].price));
        proof {
            lemma_drop_step(levels@, i as int, user, now);
        }
        let ghost old_r = r@;
        if kept.len() > 0 {
            let level = PriceLevel { price: levels[i].price, orders: kept };
            proof {
                lemma_push_level(old_r, level, side);
            }
            r.push(level);
            assert(r@ == old_r.push(level));
            proof {
                if old_r.len() > 0 {
                    assert(r@[0] == old_r[0]);
                } else if i > 0 {
                    assert(better(side, levels@[0].price, levels@[i as int].price));
                }
            }
        } else {
            assert(flat(r@) =~= flat(levels@.take(i + 1)).filter(not_owned_by(user)));
        }
        if i + 1 < levels.len() {
            assert forall|a: int| 0 <= a < r@.len() implies better(side, #[trigger] r@[a].price, levels@[i + 1].price) by {
                assert(better(side, levels@[i as int].price, levels@[i + 1].price));
                if a < old_r.len() {
                    assert(r@[a] == old_r[a]);
                }
            }
        }
        i = i + 1;
    }
    assert(levels@.take(i as int) =~= levels@);
    r
}

/// Cancels every resting order of `user`, bids first, each side in book order, and hands
/// back one cancellation record per order.
pub fn cancel_all_orders(orderbook: &mut Orderbook, user: AccountKey, now: u64) -> (r: Vec<OrderCancelled>)
    requires
        old(orderbook).wf(),
    ensures
        final(orderbook).wf(),
        final(orderbook).market == old(orderbook).market,
        old(orderbook).uncrossed() ==> final(orderbook).uncrossed(),
        flat(final(orderbook).bids@) == flat(old(orderbook).bids@).filter(not_owned_by(user)),
        flat(final(orderbook).asks@) == flat(old(orderbook).asks@).filter(not_owned_by(user)),
        r@ == cancelled_events(flat(old(orderbook).bids@).filter(owned_by(user)), now) + cancelled_events(
            flat(old(orderbook).asks@).filter(owned_by(user)),
            now,
        ),
{
    let mut events: Vec<OrderCancelled> = Vec::new();
    let bids = drop_orders_of(&orderbook.bids, user, now, &mut events, Ghost(Side::Bid));
    let asks = drop_orders_of(&orderbook.asks, user, now, &mut events, Ghost(Side::Ask));
    assert(events@ =~= cancelled_events(flat(orderbook.bids@).filter(owned_by(user)), now) + cancelled_events(
        flat(orderbook.asks@).filter(owned_by(user)),
        now,
    ));
    orderbook.bids = bids;
    orderbook.asks = asks;
    events
}

} // verus!
