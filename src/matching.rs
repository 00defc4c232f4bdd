use vstd::prelude::*;
use crate::events::OrderMatched;
use crate::order::Order;
use crate::orderbook::{flat, level_ok, resting_ok, side_wf, PriceLevel};
use crate::position::{BPS_DENOMINATOR, PRICE_PRECISION};
use crate::types::{AccountKey, ErrorCode, SelfTradeBehavior, Side};

verus! {

/// An incoming order as the matching sees it.
#[derive(Clone, Copy, Debug)]
pub struct Taker {
    pub order_id: u64,
    pub client_id: u64,
    pub user: AccountKey,
    pub side: Side,
    /// The worst price the order accepts; none for a market order.
    pub limit: Option<u64>,
    pub self_trade_behavior: SelfTradeBehavior,
    pub taker_fee_bps: u16,
    pub maker_rebate_bps: u16,
    pub timestamp: u64,
}

/// A resting order at `maker_price` is within reach of the taker.
pub open spec fn crosses(t: Taker, maker_price: u64) -> bool {
    match t.limit {
        None => true,
        Some(limit) => match t.side {
            Side::Bid => maker_price <= limit,
            Side::Ask => maker_price >= limit,
        },
    }
}

/// The quote value of `amount` at `price`.
pub open spec fn quote_of(amount: u64, price: u64) -> int {
    amount * price / PRICE_PRECISION as int
}

/// The record of a match of `amount` between the taker, with `remaining` still open, and `maker`.
pub open spec fn fill_of(t: Taker, maker: Order, amount: u64, remaining: u64) -> OrderMatched {
    let quote = quote_of(amount, maker.price);
    OrderMatched {
        order_id: t.order_id,
        maker_order_id: maker.id,
        client_id: t.client_id,
        maker_client_id: maker.client_id,
        user: t.user,
        maker: maker.user,
        side: t.side,
        price: maker.price,
        size: amount,
        quote_amount: quote as u64,
        taker_fee: (quote * t.taker_fee_bps / BPS_DENOMINATOR as int) as u64,
        maker_rebate: (quote * t.maker_rebate_bps / BPS_DENOMINATOR as int) as u64,
        remaining_size: (remaining - amount) as u64,
        maker_remaining_size: (maker.remaining_size - amount) as u64,
        timestamp: t.timestamp,
    }
}

pub enum WalkEnd {
    /// Matching stopped: `queue` is what rests on the opposite side, `remaining` what is left
    /// of the taker, `fills` the matches in order; `taker_cancelled` where a self-trade
    /// dropped the rest of the taker.
    Done { queue: Seq<Order>, remaining: u64, fills: Seq<OrderMatched>, taker_cancelled: bool },
    /// The operation is rejected.
    Failed { error: ErrorCode },
}

/// Price-time matching of the taker, with `remaining` open and `fills` made so far, against
/// `queue`, the opposite side's orders in priority order. At each resting order in reach: a
/// self-trade is settled by the taker's policy; otherwise the two are matched for the smaller
/// of their open sizes, and a filled maker leaves the queue.
pub open spec fn walk(t: Taker, queue: Seq<Order>, remaining: u64, fills: Seq<OrderMatched>) -> WalkEnd
    decreases queue.len(),
{
    if remaining == 0 || queue.len() == 0 || !crosses(t, queue[0].price) {
        WalkEnd::Done { queue, remaining, fills, taker_cancelled: false }
    } else {
        let maker = queue[0];
        if maker.user@ == t.user@ && t.self_trade_behavior != SelfTradeBehavior::DecrementTake {
            match t.self_trade_behavior {
                SelfTradeBehavior::CancelTaker => WalkEnd::Failed { error: ErrorCode::SelfTradePrevented },
                SelfTradeBehavior::CancelMaker => walk(t, queue.skip(1), remaining, fills),
                _ => WalkEnd::Done { queue: queue.skip(1), remaining, fills, taker_cancelled: true },
            }
        } else {
            let amount = if maker.remaining_size < remaining {
                maker.remaining_size
            } else {
                remaining
            };
            if quote_of(amount, maker.price) > u64::MAX {
                WalkEnd::Failed { error: ErrorCode::MathOverflow }
            } else {
                let fill = fill_of(t, maker, amount, remaining);
                if amount == maker.remaining_size {
                    walk(t, queue.skip(1), (remaining - amount) as u64, fills.push(fill))
                } else {
                    WalkEnd::Done {
                        queue: queue.update(0, maker.with_remaining((maker.remaining_size - amount) as u64)),
                        remaining: (remaining - amount) as u64,
                        fills: fills.push(fill),
                        taker_cancelled: false,
                    }
                }
            }
        }
    }
}

proof fn lemma_flat_front(levels: Seq<PriceLevel>, side: Side)
    requires
        side_wf(levels, side),
    ensures
        levels.len() == 0 <==> flat(levels).len() == 0,
        levels.len() > 0 ==> flat(levels)[0] == levels[0].orders@[0],
        levels.len() > 0 ==> flat(levels) == levels[0].orders@ + flat(levels.skip(1)),
{
    if levels.len() > 0 {
        assert(level_ok(levels[0], side));
    }
}

/// Takes the first order of the best level off a side.
fn pop_front(levels: &mut Vec<PriceLevel>, Ghost(side): Ghost<Side>)
    requires
        side_wf(old(levels)@, side),
        old(levels)@.len() > 0,
    ensures
        side_wf(final(levels)@, side),
        flat(final(levels)@) == flat(old(levels)@).skip(1),
{
    let ghost old_levels = levels@;
    proof {
        lemma_flat_front(old_levels, side);
        assert(level_ok(old_levels[0], side));
    }
    let mut level = levels.remove(0);
    assert(levels@ =~= old_levels.skip(1));
    level.orders.remove(0);
    if level.orders.len() > 0 {
        levels.insert(0, level);
        assert(levels@.skip(1) =~= old_levels.skip(1));
        assert(flat(levels@) == level.orders@ + flat(old_levels.skip(1)));
        assert(flat(levels@) =~= flat(old_levels).skip(1));
        assert(side_wf(levels@, side)) by {
            assert forall|a: int| 0 <= a < levels@.len() implies level_ok(#[trigger] levels@[a], side) by {
                if a == 0 {
                    assert forall|b: int| 0 <= b < levels@[a].orders@.len() implies resting_ok(
                        #[trigger] levels@[a].orders@[b],
                        side,
                        levels@[a].price,
                    ) by {
                        assert(levels@[a].orders@[b] == old_levels[0].orders@[b + 1]);
                    }
                } else {
                    assert(levels@[a] == old_levels[a]);
                }
            }
            assert forall|a: int, b: int| 0 <= a < b < levels@.len() implies crate::orderbook::better(
                side,
                #[trigger] levels@[a].price,
                #[trigger] levels@[b].price,
            ) by {
                assert(levels@[a].price == old_levels[a].price);
                assert(levels@[b].price == old_levels[b].price);
            }
        }
    } else {
        assert(flat(old_levels).skip(1) =~= flat(old_levels.skip(1)));
        assert(side_wf(levels@, side)) by {
            assert forall|a: int, b: int| 0 <= a < b < levels@.len() implies crate::orderbook::better(
                side,
                #[trigger] levels@[a].price,
                #[trigger] levels@[b].price,
            ) by {
                assert(levels@[a] == old_levels[a + 1]);
                assert(levels@[b] == old_levels[b + 1]);
            }
        }
    }
}

/// Sets what is left open of the first order of the best level.
fn set_front_remaining(levels: &mut Vec<PriceLevel>, remaining: u64, Ghost(side): Ghost<Side>)
    requires
        side_wf(old(levels)@, side),
        old(levels)@.len() > 0,
        0 < remaining <= old(levels)@[0].orders@[0].size,
    ensures
        side_wf(final(levels)@, side),
        flat(final(levels)@) == flat(old(levels)@).update(
            0,
            flat(old(levels)@)[0].with_remaining(remaining),
        ),
{
    let ghost old_levels = levels@;
    proof {
        lemma_flat_front(old_levels, side);
        assert(level_ok(old_levels[0], side));
    }
    let mut level = levels.remove(0);
    assert(levels@ =~= old_levels.skip(1));
    let mut front = level.orders[0];
    front.remaining_size = remaining;
    level.orders.set(0, front);
    levels.insert(0, level);
    assert(levels@.skip(1) =~= old_levels.skip(1));
    assert(flat(levels@) == level.orders@ + flat(old_levels.skip(1)));
    assert(flat(levels@) =~= flat(old_levels).update(0, flat(old_levels)[0].with_remaining(remaining)));
    assert(side_wf(levels@, side)) by {
        assert forall|a: int| 0 <= a < levels@.len() implies level_ok(#[trigger] levels@[a], side) by {
            if a == 0 {
                assert forall|b: int| 0 <= b < levels@[a].orders@.len() implies resting_ok(
                    #[trigger] levels@[a].orders@[b],
                    side,
                    levels@[a].price,
                ) by {
                    if b > 0 {
                        assert(levels@[a].orders@[b] == old_levels[0].orders@[b]);
                    }
                }
            } else {
                assert(levels@[a] == old_levels[a]);
            }
        }
        assert forall|a: int, b: int| 0 <= a < b < levels@.len() implies crate::orderbook::better(
            side,
            #[trigger] levels@[a].price,
            #[trigger] levels@[b].price,
        ) by {
            assert(levels@[a].price == old_levels[a].price);
            assert(levels@[b].price == old_levels[b].price);
        }
    }
}

/// Two sides with the same levels: same prices, same orders.
pub open spec fn same_levels(a: Seq<PriceLevel>, b: Seq<PriceLevel>) -> bool {
    &&& a.len() == b.len()
    &&& forall|i: int| 0 <= i < a.len() ==> #[trigger] a[i].price == b[i].price && a[i].orders@ == b[i].orders@
}

proof fn lemma_same_levels(a: Seq<PriceLevel>, b: Seq<PriceLevel>, side: Side)
    requires
        same_levels(a, b),
    ensures
        flat(a) == flat(b),
        side_wf(a, side) ==> side_wf(b, side),
    decreases a.len(),
{
    if a.len() > 0 {
        assert(same_levels(a.skip(1), b.skip(1))) by {
            assert forall|i: int| 0 <= i < a.skip(1).len() implies #[trigger] a.skip(1)[i].price == b.skip(
                1,
            )[i].price && a.skip(1)[i].orders@ == b.skip(1)[i].orders@ by {
                assert(a[i + 1].price == b[i + 1].price);
            }
        }
        lemma_same_levels(a.skip(1), b.skip(1), side);
        assert(a[0].price == b[0].price);
    }
    if side_wf(a, side) {
        assert forall|i: int| 0 <= i < b.len() implies level_ok(#[trigger] b[i], side) by {
            assert(a[i].price == b[i].price);
            assert(level_ok(a[i], side));
        }
        assert forall|i: int, j: int| 0 <= i < j < b.len() implies crate::orderbook::better(
            side,
            #[trigger] b[i].price,
            #[trigger] b[j].price,
        ) by {
            assert(a[i].price == b[i].price);
            assert(a[j].price == b[j].price);
        }
    }
}

proof fn lemma_fee_fits(quote: int, bps: int)
    requires
        0 <= quote,
        0 <= bps <= 10_000,
    ensures
        0 <= quote * bps / 10_000 <= quote,
{
    assert(quote * bps <= quote * 10_000) by (nonlinear_arith)
        requires
            0 <= quote,
            bps <= 10_000,
    ;
    assert(0 <= quote * bps) by (nonlinear_arith)
        requires
            0 <= quote,
            0 <= bps,
    ;
}

/// A copy of the levels of a side.
fn copy_levels(levels: &Vec<PriceLevel>) -> (r: Vec<PriceLevel>)
    ensures
        same_levels(levels@, r@),
{
    let mut r: Vec<PriceLevel> = Vec::new();
    let mut i: usize = 0;
    while i < levels.len()
        invariant
            0 <= i <= levels@.len(),
            r@.len() == i,
            forall|k: int| 0 <= k < i ==> #[trigger] levels@[k].price == r@[k].price && levels@[k].orders@ == r@[k].orders@,
        decreases levels@.len() - i,
    {
        let source = &levels[i].orders;
        let mut orders: Vec<Order> = Vec::new();
        let mut j: usize = 0;
        while j < source.len()
            invariant
                0 <= j <= source@.len(),
                orders@ == source@.take(j as int),
            decreases source@.len() - j,
        {
            orders.push(source[j]);
            j = j + 1;
            assert(orders@ =~= source@.take(j as int));
        }
        assert(orders@ =~= source@);
        let ghost copied = orders@;
        r.push(PriceLevel { price: levels[i].price, orders });
        assert(r@[i as int].orders@ == copied);
        assert(copied == levels@[i as int].orders@);
        i = i + 1;
    }
    r
}

/// What a walk that was not rejected hands back.
pub struct MatchOutcome {
    /// The opposite side as it stands after the walk.
    pub levels: Vec<PriceLevel>,
    pub remaining: u64,
    pub fills: Vec<OrderMatched>,
    pub taker_cancelled: bool,
}

/// Matches the taker, for `size`, against `levels`, the side opposite to it, in price-time
/// priority, and hands back what would rest there afterwards.
pub fn match_against(levels: &Vec<PriceLevel>, taker: Taker, size: u64) -> (r: Result<MatchOutcome, ErrorCode>)
    requires
        side_wf(levels@, taker.side.opposite()),
        taker.taker_fee_bps <= BPS_DENOMINATOR,
        taker.maker_rebate_bps <= BPS_DENOMINATOR,
    ensures
        match walk(taker, flat(levels@), size, Seq::empty()) {
            WalkEnd::Failed { error } => r == Err::<MatchOutcome, ErrorCode>(error),
            WalkEnd::Done { queue, remaining, fills, taker_cancelled } => r matches Ok(m) && m.remaining
                == remaining && m.fills@ == fills && m.taker_cancelled == taker_cancelled && flat(m.levels@)
                == queue && side_wf(m.levels@, taker.side.opposite()),
        },
{
    let ghost side = taker.side.opposite();
    let ghost start = flat(levels@);
    let mut work = copy_levels(levels);
    proof {
        lemma_same_levels(levels@, work@, side);
    }
    let mut remaining = size;
    let mut fills: Vec<OrderMatched> = Vec::new();
    let mut cancelled = false;
    let mut done = false;
    while !done
        invariant
            side_wf(work@, side),
            side_wf(levels@, side),
            start == flat(levels@),
            !done ==> !cancelled,
            side == taker.side.opposite(),
            taker.taker_fee_bps <= BPS_DENOMINATOR,
            taker.maker_rebate_bps <= BPS_DENOMINATOR,
            walk(taker, start, size, Seq::empty()) == if done {
                WalkEnd::Done { queue: flat(work@), remaining, fills: fills@, taker_cancelled: cancelled }
            } else {
                walk(taker, flat(work@), remaining, fills@)
            },
        decreases flat(work@).len() * 2 + if done { 0int } else { 1int },
    {
        let ghost queue = flat(work@);
        proof {
            lemma_flat_front(work@, side);
        }
        if remaining == 0 || work.len() == 0 {
            assert(walk(taker, queue, remaining, fills@) == WalkEnd::Done {
                queue,
                remaining,
                fills: fills@,
                taker_cancelled: false,
            });
            done = true;
        } else {
            let maker = work[0].orders[0];
            assert(level_ok(work@[0], side));
            let reachable = match taker.limit {
                None => true,
                Some(limit) => match taker.side {
                    Side::Bid => maker.price <= limit,
                    Side::Ask => maker.price >= limit,
                },
            };
            assert(maker == queue[0]);
            assert(reachable == crosses(taker, queue[0].price));
            if !reachable {
                assert(walk(taker, queue, remaining, fills@) == WalkEnd::Done {
                    queue,
                    remaining,
                    fills: fills@,
                    taker_cancelled: false,
                });
                done = true;
            } else if maker.user == taker.user && !matches!(taker.self_trade_behavior, SelfTradeBehavior::DecrementTake) {
                match taker.self_trade_behavior {
                    SelfTradeBehavior::CancelTaker => {
                        assert(walk(taker, queue, remaining, fills@) == WalkEnd::Failed {
                            error: ErrorCode::SelfTradePrevented,
                        });
                        return Err(ErrorCode::SelfTradePrevented);
                    },
                    SelfTradeBehavior::CancelMaker => {
                        pop_front(&mut work, Ghost(side));
                        assert(walk(taker, queue, remaining, fills@) == walk(taker, queue.skip(1), remaining, fills@));
                    },
                    _ => {
                        pop_front(&mut work, Ghost(side));
                        assert(walk(taker, queue, remaining, fills@) == WalkEnd::Done {
                            queue: queue.skip(1),
                            remaining,
                            fills: fills@,
                            taker_cancelled: true,
                        });
                        cancelled = true;
                        done = true;
                    },
                }
            } else {
                let amount = if maker.remaining_size < remaining {
                    maker.remaining_size
                } else {
                    remaining
                };
                assert(amount as int * maker.price as int <= u64::MAX as int * u64::MAX as int) by (nonlinear_arith)
                    requires
                        amount <= u64::MAX,
                        maker.price <= u64::MAX,
                ;
                let quote_wide: u128 = amount as u128 * maker.price as u128 / 1_000_000;
                if quote_wide > u64::MAX as u128 {
                    assert(walk(taker, queue, remaining, fills@) == WalkEnd::Failed {
                        error: ErrorCode::MathOverflow,
                    });
                    return Err(ErrorCode::MathOverflow);
                }
                let quote = quote_wide as u64;
                assert(quote as int * 0xffff <= u64::MAX as int * 0xffff) by (nonlinear_arith)
                    requires
                        quote <= u64::MAX,
                ;
                proof {
                    lemma_fee_fits(quote as int, taker.taker_fee_bps as int);
                    lemma_fee_fits(quote as int, taker.maker_rebate_bps as int);
                }
                let taker_fee = (quote as u128 * taker.taker_fee_bps as u128 / 10_000) as u64;
                let maker_rebate = (quote as u128 * taker.maker_rebate_bps as u128 / 10_000) as u64;
                let fill = OrderMatched {
                    order_id: taker.order_id,
                    maker_order_id: maker.id,
                    client_id: taker.client_id,
                    maker_client_id: maker.client_id,
                    user: taker.user,
                    maker: maker.user,
                    side: taker.side,
                    price: maker.price,
                    size: amount,
                    quote_amount: quote,
                    taker_fee,
                    maker_rebate,
                    remaining_size: remaining - amount,
                    maker_remaining_size: maker.remaining_size - amount,
                    timestamp: taker.timestamp,
                };
                assert(fill == fill_of(taker, maker, amount, remaining));
                let ghost before = fills@;
                fills.push(fill);
                if amount == maker.remaining_size {
                    pop_front(&mut work, Ghost(side));
                    assert(walk(taker, queue, remaining, before) == walk(
                        taker,
                        queue.skip(1),
                        (remaining - amount) as u64,
                        fills@,
                    ));
                    remaining = remaining - amount;
                } else {
                    set_front_remaining(&mut work, maker.remaining_size - amount, Ghost(side));
                    assert(walk(taker, queue, remaining, before) == WalkEnd::Done {
                        queue: queue.update(0, maker.with_remaining((maker.remaining_size - amount) as u64)),
                        remaining: (remaining - amount) as u64,
                        fills: fills@,
                        taker_cancelled: false,
                    });
                    remaining = remaining - amount;
                    done = true;
                }
            }
        }
    }
    Ok(MatchOutcome { levels: work, remaining, fills, taker_cancelled: cancelled })
}

/// What a walk leaves of the queue is the queue without its first `n` orders, prices kept;
/// the taker's open size only shrinks; and a taker left open and not cancelled stopped at
/// an empty queue or at a price out of its reach.
pub proof fn lemma_walk_tail(t: Taker, q: Seq<Order>, remaining: u64, fills: Seq<OrderMatched>) -> (n: int)
    ensures
        walk(t, q, remaining, fills) matches WalkEnd::Done { queue, remaining: left, taker_cancelled, .. } ==> {
            &&& 0 <= n <= q.len()
            &&& queue.len() == q.len() - n
            &&& forall|k: int| 0 <= k < queue.len() ==> #[trigger] queue[k].price == q[k + n].price
            &&& left <= remaining
            &&& (left > 0 && !taker_cancelled ==> queue.len() == 0 || !crosses(t, queue[0].price))
        },
    decreases q.len(),
{
    if remaining == 0 || q.len() == 0 || !crosses(t, q[0].price) {
        0
    } else {
        let maker = q[0];
        if maker.user@ == t.user@ && t.self_trade_behavior != SelfTradeBehavior::DecrementTake {
            if t.self_trade_behavior == SelfTradeBehavior::CancelMaker {
                let m = lemma_walk_tail(t, q.skip(1), remaining, fills);
                m + 1
            } else {
                1
            }
        } else {
            let amount = if maker.remaining_size < remaining {
                maker.remaining_size
            } else {
                remaining
            };
            if amount == maker.remaining_size && quote_of(amount, maker.price) <= u64::MAX {
                let m = lemma_walk_tail(
                    t,
                    q.skip(1),
                    (remaining - amount) as u64,
                    fills.push(fill_of(t, maker, amount, remaining)),
                );
                m + 1
            } else {
                0
            }
        }
    }
}

/// The open size of the taker before the fill at `k`.
pub open spec fn taker_open_before(fills: Seq<OrderMatched>, size: u64, k: int) -> int {
    if k == 0 {
        size as int
    } else {
        fills[k - 1].remaining_size as int
    }
}

/// A match of a taker with `taker_open` left against `maker` took the smaller of the two open
/// sizes off each of them.
pub open spec fn conserves(f: OrderMatched, taker_open: int, maker: Order) -> bool {
    &&& f.maker_order_id == maker.id
    &&& f.maker@ == maker.user@
    &&& f.size <= taker_open
    &&& f.size <= maker.remaining_size
    &&& (f.size == taker_open || f.size == maker.remaining_size)
    &&& f.remaining_size == taker_open - f.size
    &&& f.maker_remaining_size == maker.remaining_size - f.size
}

/// Every fill so far conserved size against some order of `pool`.
pub open spec fn all_conserve(fills: Seq<OrderMatched>, size: u64, pool: Seq<Order>) -> bool {
    forall|k: int|
        0 <= k < fills.len() ==> exists|i: int|
            0 <= i < pool.len() && conserves(#[trigger] fills[k], taker_open_before(fills, size, k), pool[i])
}

proof fn lemma_walk_conserves(
    t: Taker,
    pool: Seq<Order>,
    n: int,
    size: u64,
    remaining: u64,
    fills: Seq<OrderMatched>,
)
    requires
        0 <= n <= pool.len(),
        all_conserve(fills, size, pool),
        remaining == (if fills.len() == 0 { size as int } else { fills.last().remaining_size as int }),
    ensures
        walk(t, pool.skip(n), remaining, fills) matches WalkEnd::Done { fills: out, .. } ==> all_conserve(
            out,
            size,
            pool,
        ),
    decreases pool.len() - n,
{
    let q = pool.skip(n);
    if remaining == 0 || q.len() == 0 || !crosses(t, q[0].price) {
    } else {
        let maker = q[0];
        if maker.user@ == t.user@ && t.self_trade_behavior != SelfTradeBehavior::DecrementTake {
            if t.self_trade_behavior == SelfTradeBehavior::CancelMaker {
                assert(q.skip(1) =~= pool.skip(n + 1));
                lemma_walk_conserves(t, pool, n + 1, size, remaining, fills);
            }
        } else {
            let amount = if maker.remaining_size < remaining {
                maker.remaining_size
            } else {
                remaining
            };
            if quote_of(amount, maker.price) <= u64::MAX {
                let f = fill_of(t, maker, amount, remaining);
                let next = fills.push(f);
                assert(all_conserve(next, size, pool)) by {
                    assert forall|k: int| 0 <= k < next.len() implies exists|i: int|
                        0 <= i < pool.len() && conserves(
                            #[trigger] next[k],
                            taker_open_before(next, size, k),
                            pool[i],
                        ) by {
                        if k < fills.len() {
                            assert(next[k] == fills[k]);
                            assert(taker_open_before(next, size, k) == taker_open_before(fills, size, k));
                        } else {
                            assert(pool[n] == maker);
                            assert(conserves(next[k], taker_open_before(next, size, k), pool[n]));
                        }
                    }
                }
                if amount == maker.remaining_size {
                    assert(q.skip(1) =~= pool.skip(n + 1));
                    lemma_walk_conserves(t, pool, n + 1, size, (remaining - amount) as u64, next);
                }
            }
        }
    }
}

/// Fill conservation: in every walk that is not rejected, each match takes the same amount
/// off the taker and off its maker, an amount no larger than either had open before it (the
/// whole of the smaller), the taker's open size running down from `size` match by match.
pub proof fn lemma_fill_conservation(t: Taker, queue: Seq<Order>, size: u64)
    ensures
        walk(t, queue, size, Seq::empty()) matches WalkEnd::Done { fills, .. } ==> all_conserve(
            fills,
            size,
            queue,
        ),
{
    assert(queue.skip(0) =~= queue);
    lemma_walk_conserves(t, queue, 0, size, size, Seq::empty());
}

} // verus!
