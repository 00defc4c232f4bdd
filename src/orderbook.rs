use vstd::prelude::*;
use crate::order::Order;
use crate::types::{AccountKey, Side};

verus! {

/// The resting orders that share one price, in order of arrival.
#[derive(Debug)]
pub struct PriceLevel {
    pub price: u64,
    pub orders: Vec<Order>,
}

/// `a` comes before `b` on `side`: higher bids first, lower asks first.
pub open spec fn better(side: Side, a: u64, b: u64) -> bool {
    match side {
        Side::Bid => a > b,
        Side::Ask => a < b,
    }
}

/// An order may rest in a level of `side` at `price`: it belongs there and is partly open.
pub open spec fn resting_ok(o: Order, side: Side, price: u64) -> bool {
    &&& o.side == side
    &&& o.price == price
    &&& 0 < o.remaining_size <= o.size
}

pub open spec fn level_ok(l: PriceLevel, side: Side) -> bool {
    &&& l.orders@.len() > 0
    &&& forall|j: int| 0 <= j < l.orders@.len() ==> resting_ok(#[trigger] l.orders@[j], side, l.price)
}

/// The levels of one side: none empty, and strictly ordered from the best price down.
pub open spec fn side_wf(levels: Seq<PriceLevel>, side: Side) -> bool {
    &&& forall|i: int| 0 <= i < levels.len() ==> level_ok(#[trigger] levels[i], side)
    &&& forall|i: int, j: int|
        0 <= i < j < levels.len() ==> better(side, #[trigger] levels[i].price, #[trigger] levels[j].price)
}

/// The orders of one side in the order they are matched: level by level, each level first in,
/// first out.
pub open spec fn flat(levels: Seq<PriceLevel>) -> Seq<Order>
    decreases levels.len(),
{
    if levels.len() == 0 {
        Seq::empty()
    } else {
        levels[0].orders@ + flat(levels.skip(1))
    }
}

/// Every order of a side is at its best price or behind it.
pub proof fn lemma_flat_sorted(levels: Seq<PriceLevel>, side: Side)
    requires
        side_wf(levels, side),
    ensures
        forall|k: int|
            0 <= k < flat(levels).len() ==> #[trigger] flat(levels)[k].price == levels[0].price || better(
                side,
                levels[0].price,
                flat(levels)[k].price,
            ),
        levels.len() > 0 ==> flat(levels).len() > 0 && flat(levels)[0].price == levels[0].price,
    decreases levels.len(),
{
    if levels.len() > 0 {
        let rest = levels.skip(1);
        assert(side_wf(rest, side)) by {
            assert forall|i: int| 0 <= i < rest.len() implies level_ok(#[trigger] rest[i], side) by {
                assert(rest[i] == levels[i + 1]);
            }
            assert forall|i: int, j: int| 0 <= i < j < rest.len() implies better(
                side,
                #[trigger] rest[i].price,
                #[trigger] rest[j].price,
            ) by {
                assert(rest[i] == levels[i + 1]);
                assert(rest[j] == levels[j + 1]);
            }
        }
        lemma_flat_sorted(rest, side);
        assert(level_ok(levels[0], side));
        let f = flat(levels);
        let n = levels[0].orders@.len();
        assert(f == levels[0].orders@ + flat(rest));
        assert forall|k: int| 0 <= k < f.len() implies #[trigger] f[k].price == levels[0].price || better(
            side,
            levels[0].price,
            f[k].price,
        ) by {
            if k < n {
                assert(f[k] == levels[0].orders@[k]);
                assert(resting_ok(levels[0].orders@[k], side, levels[0].price));
            } else {
                assert(f[k] == flat(rest)[k - n]);
                assert(rest[0] == levels[1]);
                assert(better(side, levels[0].price, levels[1].price));
            }
        }
        assert(f[0] == levels[0].orders@[0]);
        assert(resting_ok(levels[0].orders@[0], side, levels[0].price));
    }
}

/// The best price of a side, if it has any level.
pub open spec fn best_of(levels: Seq<PriceLevel>) -> Option<u64> {
    if levels.len() > 0 {
        Some(levels[0].price)
    } else {
        None
    }
}

pub fn is_better(side: Side, a: u64, b: u64) -> (r: bool)
    ensures
        r == better(side, a, b),
{
    match side {
        Side::Bid => a > b,
        Side::Ask => a < b,
    }
}

pub open spec fn has_level(levels: Seq<PriceLevel>, price: u64) -> bool {
    exists|i: int| 0 <= i < levels.len() && #[trigger] levels[i].price == price
}

/// `new` is `old` with `order` appended to the level at `price`, or, where there was none,
/// with a new level at `price` holding only `order`, in the place that keeps the side ordered.
pub open spec fn inserted(old: Seq<PriceLevel>, new: Seq<PriceLevel>, price: u64, order: Order) -> bool {
    if has_level(old, price) {
        forall|i: int|
            0 <= i < old.len() && #[trigger] old[i].price == price ==> {
                &&& new.len() == old.len()
                &&& new[i].price == price
                &&& new[i].orders@ == old[i].orders@.push(order)
                &&& forall|k: int| 0 <= k < old.len() && k != i ==> new[k] == old[k]
            }
    } else {
        exists|idx: int|
            {
                &&& 0 <= idx <= old.len()
                &&& new.len() == old.len() + 1
                &&& #[trigger] new[idx].price == price
                &&& new[idx].orders@ == seq![order]
                &&& forall|k: int| 0 <= k < idx ==> new[k] == old[k]
                &&& forall|k: int| idx <= k < old.len() ==> new[k + 1] == old[k]
            }
    }
}

/// Appends `order` to the level of `side` at `price`, creating the level where it is missing.
fn insert_order(levels: &mut Vec<PriceLevel>, side: Side, price: u64, order: Order)
    requires
        side_wf(old(levels)@, side),
        resting_ok(order, side, price),
    ensures
        side_wf(final(levels)@, side),
        inserted(old(levels)@, final(levels)@, price, order),
        final(levels)@.len() > 0,
        final(levels)@[0].price == price || (old(levels)@.len() > 0 && final(levels)@[0].price == old(
            levels,
        )@[0].price),
{
    let mut i: usize = 0;
    while i < levels.len() && is_better(side, levels[i].price, price)
        invariant
            0 <= i <= levels@.len(),
            forall|k: int| 0 <= k < i ==> better(side, #[trigger] levels@[k].price, price),
        decreases levels@.len() - i,
    {
        i = i + 1;
    }
    let ghost old_levels = levels@;
    if i < levels.len() && levels[i].price == price {
        levels[i].orders.push(order);
        assert forall|k: int| 0 <= k < old_levels.len() && #[trigger] old_levels[k].price == price implies k == i by {
            if k < i {
                assert(better(side, old_levels[k].price, price));
            } else if k > i {
                assert(better(side, old_levels[i as int].price, old_levels[k].price));
            }
        }
        assert(level_ok(levels@[i as int], side)) by {
            assert forall|j: int| 0 <= j < levels@[i as int].orders@.len() implies resting_ok(
                #[trigger] levels@[i as int].orders@[j],
                side,
                levels@[i as int].price,
            ) by {
                if j < old_levels[i as int].orders@.len() {
                    assert(level_ok(old_levels[i as int], side));
                    assert(levels@[i as int].orders@[j] == old_levels[i as int].orders@[j]);
                }
            }
        }
        assert(side_wf(levels@, side)) by {
            assert forall|a: int| 0 <= a < levels@.len() implies level_ok(#[trigger] levels@[a], side) by {
                if a != i {
                    assert(levels@[a] == old_levels[a]);
                }
            }
        }
    } else {
        assert(!has_level(old_levels, price)) by {
            if has_level(old_levels, price) {
                let k = choose|k: int| 0 <= k < old_levels.len() && #[trigger] old_levels[k].price == price;
                if k < i {
                    assert(better(side, old_levels[k].price, price));
                } else {
                    assert(i < old_levels.len());
                    assert(!better(side, old_levels[i as int].price, price));
                    if k > i {
                        assert(better(side, old_levels[i as int].price, old_levels[k].price));
                    }
                }
            }
        }
        let mut orders: Vec<Order> = Vec::new();
        orders.push(order);
        levels.insert(i, PriceLevel { price, orders });
        assert(levels@[i as int].orders@ =~= seq![order]);
        assert(side_wf(levels@, side)) by {
            assert forall|a: int| 0 <= a < levels@.len() implies level_ok(#[trigger] levels@[a], side) by {
                if a < i {
                    assert(levels@[a] == old_levels[a]);
                } else if a > i {
                    assert(levels@[a] == old_levels[a - 1]);
                }
            }
            assert forall|a: int, b: int| 0 <= a < b < levels@.len() implies better(
                side,
                #[trigger] levels@[a].price,
                #[trigger] levels@[b].price,
            ) by {
                if b == i {
                    assert(levels@[a] == old_levels[a]);
                } else if a == i {
                    assert(levels@[b] == old_levels[b - 1]);
                    assert(!better(side, old_levels[i as int].price, price));
                    if b - 1 > i {
                        assert(better(side, old_levels[i as int].price, old_levels[b - 1].price));
                    }
                } else if b < i {
                    assert(levels@[a] == old_levels[a]);
                    assert(levels@[b] == old_levels[b]);
                } else if a < i {
                    assert(levels@[a] == old_levels[a]);
                    assert(levels@[b] == old_levels[b - 1]);
                } else {
                    assert(levels@[a] == old_levels[a - 1]);
                    assert(levels@[b] == old_levels[b - 1]);
                }
            }
        }
        assert(inserted(old_levels, levels@, price, order)) by {
            assert(levels@[i as int].price == price);
        }
    }
}

/// `o` is the order `order_id` of `user`.
pub open spec fn is_order_of(o: Order, order_id: u64, user: AccountKey) -> bool {
    o.id == order_id && o.user@ == user@
}

/// The level at `price` holds the order `order_id` of `user`.
pub open spec fn holds_order(levels: Seq<PriceLevel>, price: u64, order_id: u64, user: AccountKey) -> bool {
    exists|i: int, j: int|
        0 <= i < levels.len() && levels[i].price == price && 0 <= j < levels[i].orders@.len()
            && is_order_of(#[trigger] levels[i].orders@[j], order_id, user)
}

/// `new` is `old` without the order at position `j` of level `i`, and without that level if
/// it held nothing else.
pub open spec fn removed_at(old: Seq<PriceLevel>, new: Seq<PriceLevel>, i: int, j: int) -> bool {
    if old[i].orders@.len() == 1 {
        new == old.remove(i)
    } else {
        &&& new.len() == old.len()
        &&& new[i].price == old[i].price
        &&& new[i].orders@ == old[i].orders@.remove(j)
        &&& forall|k: int| 0 <= k < old.len() && k != i ==> new[k] == old[k]
    }
}

/// Takes the first order `order_id` of `user` out of the level of `side` at `price`.
fn remove_order(levels: &mut Vec<PriceLevel>, side: Side, price: u64, order_id: u64, user: AccountKey) -> (r:
    Option<Order>)
    requires
        side_wf(old(levels)@, side),
    ensures
        side_wf(final(levels)@, side),
        r is None <==> !holds_order(old(levels)@, price, order_id, user),
        r is None ==> final(levels)@ == old(levels)@,
        final(levels)@.len() > 0 ==> final(levels)@[0].price == old(levels)@[0].price || (old(
            levels,
        )@.len() > 1 && final(levels)@[0].price == old(levels)@[1].price),
        r is Some ==> exists|i: int, j: int|
            {
                &&& 0 <= i < old(levels)@.len()
                &&& old(levels)@[i].price == price
                &&& 0 <= j < old(levels)@[i].orders@.len()
                &&& r == Some(#[trigger] old(levels)@[i].orders@[j])
                &&& is_order_of(old(levels)@[i].orders@[j], order_id, user)
                &&& forall|k: int| 0 <= k < j ==> !is_order_of(old(levels)@[i].orders@[k], order_id, user)
                &&& removed_at(old(levels)@, final(levels)@, i, j)
            },
{
    let ghost old_levels = levels@;
    let mut i: usize = 0;
    while i < levels.len() && levels[i].price != price
        invariant
            0 <= i <= levels@.len(),
            forall|k: int| 0 <= k < i ==> #[trigger] levels@[k].price != price,
        decreases levels@.len() - i,
    {
        i = i + 1;
    }
    if i == levels.len() {
        assert(!holds_order(old_levels, price, order_id, user));
        return None;
    }
    assert forall|k: int| 0 <= k < old_levels.len() && #[trigger] old_levels[k].price == price implies k == i by {
        if k > i {
            assert(better(side, old_levels[i as int].price, old_levels[k].price));
        }
    }
    let mut j: usize = 0;
    let n = levels[i].orders.len();
    while j < n && !(levels[i].orders[j].id == order_id && levels[i].orders[j].user == user)
        invariant
            0 <= j <= n,
            n == levels@[i as int].orders@.len(),
            i < levels@.len(),
            levels@ == old_levels,
            forall|k: int| 0 <= k < j ==> !is_order_of(#[trigger] levels@[i as int].orders@[k], order_id, user),
        decreases n - j,
    {
        j = j + 1;
    }
    if j == n {
        assert(!holds_order(old_levels, price, order_id, user));
        return None;
    }
    let removed = levels[i].orders.remove(j);
    if levels[i].orders.len() == 0 {
        levels.remove(i);
        assert(levels@ =~= old_levels.remove(i as int));
    }
    assert(side_wf(levels@, side)) by {
        if old_levels[i as int].orders@.len() > 1 {
            assert forall|a: int| 0 <= a < levels@.len() implies level_ok(#[trigger] levels@[a], side) by {
                if a != i {
                    assert(levels@[a] == old_levels[a]);
                } else {
                    assert(level_ok(old_levels[a], side));
                    assert forall|b: int| 0 <= b < levels@[a].orders@.len() implies resting_ok(
                        #[trigger] levels@[a].orders@[b],
                        side,
                        levels@[a].price,
                    ) by {
                        if b < j {
                            assert(levels@[a].orders@[b] == old_levels[a].orders@[b]);
                        } else {
                            assert(levels@[a].orders@[b] == old_levels[a].orders@[b + 1]);
                        }
                    }
                }
            }
            assert forall|a: int, b: int| 0 <= a < b < levels@.len() implies better(
                side,
                #[trigger] levels@[a].price,
                #[trigger] levels@[b].price,
            ) by {
                assert(levels@[a].price == old_levels[a].price);
                assert(levels@[b].price == old_levels[b].price);
            }
        } else {
            assert forall|a: int, b: int| 0 <= a < b < levels@.len() implies better(
                side,
                #[trigger] levels@[a].price,
                #[trigger] levels@[b].price,
            ) by {
                if a >= i {
                    assert(levels@[a] == old_levels[a + 1]);
                    assert(levels@[b] == old_levels[b + 1]);
                } else if b >= i {
                    assert(levels@[a] == old_levels[a]);
                    assert(levels@[b] == old_levels[b + 1]);
                } else {
                    assert(levels@[a] == old_levels[a]);
                    assert(levels@[b] == old_levels[b]);
                }
            }
        }
    }
    assert(removed_at(old_levels, levels@, i as int, j as int));
    Some(removed)
}

/// `e` names an order of `user`: its side, its level's price, the level's place on the side
/// and the order's place in the level.
pub open spec fn names_order_of(levels: Seq<PriceLevel>, side: Side, user: AccountKey, e: (Side, u64, usize, usize)) -> bool {
    &&& e.0 == side
    &&& e.2 < levels.len()
    &&& e.1 == levels[e.2 as int].price
    &&& e.3 < levels[e.2 as int].orders@.len()
    &&& levels[e.2 as int].orders@[e.3 as int].user@ == user@
}

/// `a` names an earlier order of the side than `b`.
pub open spec fn named_before(a: (Side, u64, usize, usize), b: (Side, u64, usize, usize)) -> bool {
    a.2 < b.2 || (a.2 == b.2 && a.3 < b.3)
}

/// Appends to `out` an entry for every order of `user` on the side, in book order.
fn collect_orders_of(levels: &Vec<PriceLevel>, side: Side, user: AccountKey, out: &mut Vec<(Side, u64, usize, usize)>)
    ensures
        final(out)@.len() >= old(out)@.len(),
        final(out)@.take(old(out)@.len() as int) == old(out)@,
        forall|k: int|
            old(out)@.len() <= k < final(out)@.len() ==> names_order_of(levels@, side, user, #[trigger] final(out)@[k]),
        forall|i: int, j: int|
            0 <= i < levels@.len() && 0 <= j < levels@[i].orders@.len() && (#[trigger] levels@[i].orders@[j]).user@
                == user@ ==> final(out)@.contains((side, levels@[i].price, i as usize, j as usize)),
        forall|a: int, b: int|
            old(out)@.len() <= a < b < final(out)@.len() ==> named_before(#[trigger] final(out)@[a], #[trigger] final(out)@[b]),
{
    let ghost start = out@;
    let mut i: usize = 0;
    while i < levels.len()
        invariant
            0 <= i <= levels@.len(),
            out@.len() >= start.len(),
            out@.take(start.len() as int) == start,
            start == old(out)@,
            forall|k: int| start.len() <= k < out@.len() ==> names_order_of(levels@, side, user, #[trigger] out@[k]),
            forall|a: int, b: int|
                0 <= a < i && 0 <= b < levels@[a].orders@.len() && (#[trigger] levels@[a].orders@[b]).user@
                    == user@ ==> out@.contains((side, levels@[a].price, a as usize, b as usize)),
            forall|a: int, b: int| start.len() <= a < b < out@.len() ==> named_before(#[trigger] out@[a], #[trigger] out@[b]),
            forall|k: int| start.len() <= k < out@.len() ==> (#[trigger] out@[k]).2 < i,
        decreases levels@.len() - i,
    {
        let orders = &levels[i].orders;
        let price = levels[i].price;
        let mut j: usize = 0;
        while j < orders.len()
            invariant
                0 <= j <= orders@.len(),
                i < levels@.len(),
                orders@ == levels@[i as int].orders@,
                price == levels@[i as int].price,
                out@.len() >= start.len(),
                out@.take(start.len() as int) == start,
                forall|k: int| start.len() <= k < out@.len() ==> names_order_of(levels@, side, user, #[trigger] out@[k]),
                forall|a: int, b: int|
                    0 <= a < i && 0 <= b < levels@[a].orders@.len() && (#[trigger] levels@[a].orders@[b]).user@
                        == user@ ==> out@.contains((side, levels@[a].price, a as usize, b as usize)),
                forall|b: int|
                    0 <= b < j && (#[trigger] orders@[b]).user@ == user@ ==> out@.contains(
                        (side, price, i, b as usize),
                    ),
                forall|a: int, b: int| start.len() <= a < b < out@.len() ==> named_before(#[trigger] out@[a], #[trigger] out@[b]),
                forall|k: int| start.len() <= k < out@.len() ==> (#[trigger] out@[k]).2 < i || (out@[k].2 == i && out@[k].3 < j),
            decreases orders@.len() - j,
        {
            if orders[j].user == user {
                let ghost before = out@;
                out.push((side, price, i, j));
                assert(out@.take(start.len() as int) =~= before.take(start.len() as int));
                assert forall|x: (Side, u64, usize, usize)| before.contains(x) implies out@.contains(x) by {
                    let k = choose|k: int| 0 <= k < before.len() && before[k] == x;
                    assert(out@[k] == x);
                }
                assert(out@[before.len() as int] == (side, price, i, j));
                assert forall|a: int, b: int| start.len() <= a < b < out@.len() implies named_before(#[trigger] out@[a], #[trigger] out@[b]) by {
                    if b < before.len() {
                        assert(out@[a] == before[a]);
                        assert(out@[b] == before[b]);
                    } else {
                        assert(out@[a] == before[a]);
                    }
                }
                assert forall|k: int| start.len() <= k < out@.len() implies (#[trigger] out@[k]).2 < i || (out@[k].2 == i && out@[k].3 < j + 1) by {
                    if k < before.len() {
                        assert(out@[k] == before[k]);
                    }
                }
            }
            j = j + 1;
        }
        i = i + 1;
    }
}

/// Whether a side is well formed.
pub fn check_side(levels: &Vec<PriceLevel>, side: Side) -> (r: bool)
    ensures
        r == side_wf(levels@, side),
{
    let mut i: usize = 0;
    while i < levels.len()
        invariant
            0 <= i <= levels@.len(),
            forall|a: int| 0 <= a < i ==> level_ok(#[trigger] levels@[a], side),
            forall|a: int, b: int| 0 <= a < b < i ==> better(side, #[trigger] levels@[a].price, #[trigger] levels@[b].price),
        decreases levels@.len() - i,
    {
        let level = &levels[i];
        if level.orders.len() == 0 {
            assert(!level_ok(levels@[i as int], side));
            return false;
        }
        if i > 0 && !is_better(side, levels[i - 1].price, level.price) {
            assert(!better(side, levels@[i - 1].price, levels@[i as int].price));
            return false;
        }
        let mut j: usize = 0;
        while j < level.orders.len()
            invariant
                0 <= j <= level.orders@.len(),
                i < levels@.len(),
                *level == levels@[i as int],
                forall|b: int| 0 <= b < j ==> resting_ok(#[trigger] level.orders@[b], side, level.price),
            decreases level.orders@.len() - j,
        {
            let o = level.orders[j];
            if !(o.side == side && o.price == level.price && 0 < o.remaining_size && o.remaining_size <= o.size) {
                assert(!level_ok(levels@[i as int], side));
                return false;
            }
            j = j + 1;
        }
        proof {
            assert forall|a: int, b: int| 0 <= a < b < i + 1 implies better(side, #[trigger] levels@[a].price, #[trigger] levels@[b].price) by {
                if b == i && a < i - 1 {
                    assert(better(side, levels@[a].price, levels@[i - 1].price));
                }
            }
        }
        i = i + 1;
    }
    true
}

/// Price levels of both sides of one market.
#[derive(Debug)]
pub struct Orderbook {
    pub market: AccountKey,
    pub bids: Vec<PriceLevel>,
    pub asks: Vec<PriceLevel>,
}

impl Orderbook {
    /// Bids descend, asks ascend, no level is empty, and each order rests where it belongs.
    pub open spec fn wf(&self) -> bool {
        side_wf(self.bids@, Side::Bid) && side_wf(self.asks@, Side::Ask)
    }

    /// The best bid is below the best ask wherever both exist.
    pub open spec fn uncrossed(&self) -> bool {
        self.bids@.len() > 0 && self.asks@.len() > 0 ==> self.bids@[0].price < self.asks@[0].price
    }

    pub open spec fn levels(&self, side: Side) -> Seq<PriceLevel> {
        match side {
            Side::Bid => self.bids@,
            Side::Ask => self.asks@,
        }
    }

    /// An empty book for `market`.
    pub fn new(market: AccountKey) -> (r: Orderbook)
        ensures
            r.market == market,
            r.bids@.len() == 0,
            r.asks@.len() == 0,
            r.wf(),
            r.uncrossed(),
    {
        Orderbook { market, bids: Vec::new(), asks: Vec::new() }
    }

    /// Whether the book is well formed.
    pub fn check_wf(&self) -> (r: bool)
        ensures
            r == self.wf(),
    {
        check_side(&self.bids, Side::Bid) && check_side(&self.asks, Side::Ask)
    }

    pub fn best_bid_price(&self) -> (r: Option<u64>)
        ensures
            r == best_of(self.bids@),
    {
        if self.bids.len() > 0 {
            Some(self.bids[0].price)
        } else {
            None
        }
    }

    pub fn best_ask_price(&self) -> (r: Option<u64>)
        ensures
            r == best_of(self.asks@),
    {
        if self.asks.len() > 0 {
            Some(self.asks[0].price)
        } else {
            None
        }
    }

    /// The average of the best bid and the best ask, rounded down; the one that exists if only
    /// one does; none for an empty book.
    pub open spec fn mid_spec(&self) -> Option<u64> {
        match (best_of(self.bids@), best_of(self.asks@)) {
            (Some(bid), Some(ask)) => Some(((bid + ask) / 2) as u64),
            (Some(bid), None) => Some(bid),
            (None, Some(ask)) => Some(ask),
            (None, None) => None,
        }
    }

    pub fn mid_price(&self) -> (r: Option<u64>)
        ensures
            r == self.mid_spec(),
    {
        match (self.best_bid_price(), self.best_ask_price()) {
            (Some(bid), Some(ask)) => Some(((bid as u128 + ask as u128) / 2) as u64),
            (Some(bid), None) => Some(bid),
            (None, Some(ask)) => Some(ask),
            (None, None) => None,
        }
    }

    /// Rests `order` on the bid side at `price`.
    pub fn place_bid(&mut self, price: u64, order: Order)
        requires
            old(self).wf(),
            resting_ok(order, Side::Bid, price),
        ensures
            final(self).wf(),
            inserted(old(self).bids@, final(self).bids@, price, order),
            final(self).bids@.len() > 0,
            final(self).bids@[0].price == price || (old(self).bids@.len() > 0 && final(self).bids@[0].price
                == old(self).bids@[0].price),
            final(self).asks == old(self).asks,
            final(self).market == old(self).market,
    {
        insert_order(&mut self.bids, Side::Bid, price, order);
    }

    /// Rests `order` on the ask side at `price`.
    pub fn place_ask(&mut self, price: u64, order: Order)
        requires
            old(self).wf(),
            resting_ok(order, Side::Ask, price),
        ensures
            final(self).wf(),
            inserted(old(self).asks@, final(self).asks@, price, order),
            final(self).asks@.len() > 0,
            final(self).asks@[0].price == price || (old(self).asks@.len() > 0 && final(self).asks@[0].price
                == old(self).asks@[0].price),
            final(self).bids == old(self).bids,
            final(self).market == old(self).market,
    {
        insert_order(&mut self.asks, Side::Ask, price, order);
    }

    /// Takes the order `order_id` of `user` off the level of `side` at `price`, pruning the
    /// level if it empties.
    pub fn remove(&mut self, side: Side, order_id: u64, price: u64, user: AccountKey) -> (r: Option<Order>)
        requires
            old(self).wf(),
        ensures
            final(self).wf(),
            final(self).market == old(self).market,
            final(self).levels(side.opposite()) == old(self).levels(side.opposite()),
            r is None <==> !holds_order(old(self).levels(side), price, order_id, user),
            r is None ==> final(self).levels(side) == old(self).levels(side),
            r is Some ==> exists|i: int, j: int|
                {
                    &&& 0 <= i < old(self).levels(side).len()
                    &&& old(self).levels(side)[i].price == price
                    &&& 0 <= j < old(self).levels(side)[i].orders@.len()
                    &&& r == Some(#[trigger] old(self).levels(side)[i].orders@[j])
                    &&& is_order_of(old(self).levels(side)[i].orders@[j], order_id, user)
                    &&& removed_at(old(self).levels(side), final(self).levels(side), i, j)
                },
            old(self).uncrossed() ==> final(self).uncrossed(),
    {
        match side {
            Side::Bid => remove_order(&mut self.bids, side, price, order_id, user),
            Side::Ask => remove_order(&mut self.asks, side, price, order_id, user),
        }
    }

    /// Every resting order of `user`: its side, its price, the level's place and the order's
    /// place in the level; bids first, each side in book order.
    pub fn find_orders_for_user(&self, user: &AccountKey) -> (r: Vec<(Side, u64, usize, usize)>)
        ensures
            forall|k: int|
                0 <= k < r@.len() ==> names_order_of(self.bids@, Side::Bid, *user, #[trigger] r@[k])
                    || names_order_of(self.asks@, Side::Ask, *user, r@[k]),
            forall|i: int, j: int|
                0 <= i < self.bids@.len() && 0 <= j < self.bids@[i].orders@.len() && (
                #[trigger] self.bids@[i].orders@[j]).user@ == user@ ==> r@.contains(
                    (Side::Bid, self.bids@[i].price, i as usize, j as usize),
                ),
            forall|i: int, j: int|
                0 <= i < self.asks@.len() && 0 <= j < self.asks@[i].orders@.len() && (
                #[trigger] self.asks@[i].orders@[j]).user@ == user@ ==> r@.contains(
                    (Side::Ask, self.asks@[i].price, i as usize, j as usize),
                ),
            forall|a: int, b: int|
                0 <= a < b < r@.len() ==> ((#[trigger] r@[a]).0 == Side::Bid && (#[trigger] r@[b]).0 == Side::Ask)
                    || (r@[a].0 == r@[b].0 && named_before(r@[a], r@[b])),
    {
        let mut r: Vec<(Side, u64, usize, usize)> = Vec::new();
        collect_orders_of(&self.bids, Side::Bid, *user, &mut r);
        let ghost mid = r@;
        collect_orders_of(&self.asks, Side::Ask, *user, &mut r);
        assert forall|x: (Side, u64, usize, usize)| mid.contains(x) implies r@.contains(x) by {
            let k = choose|k: int| 0 <= k < mid.len() && mid[k] == x;
            assert(r@.take(mid.len() as int)[k] == x);
        }
        assert forall|k: int| 0 <= k < r@.len() implies names_order_of(self.bids@, Side::Bid, *user, #[trigger] r@[k])
            || names_order_of(self.asks@, Side::Ask, *user, r@[k]) by {
            if k < mid.len() {
                assert(r@.take(mid.len() as int)[k] == r@[k]);
            }
        }
        assert forall|a: int, b: int| 0 <= a < b < r@.len() implies ((#[trigger] r@[a]).0 == Side::Bid && (
        #[trigger] r@[b]).0 == Side::Ask) || (r@[a].0 == r@[b].0 && named_before(r@[a], r@[b])) by {
            if b < mid.len() {
                assert(r@.take(mid.len() as int)[a] == r@[a]);
                assert(r@.take(mid.len() as int)[b] == r@[b]);
                assert(names_order_of(self.bids@, Side::Bid, *user, mid[a]));
                assert(names_order_of(self.bids@, Side::Bid, *user, mid[b]));
            } else if a < mid.len() {
                assert(r@.take(mid.len() as int)[a] == r@[a]);
                assert(names_order_of(self.bids@, Side::Bid, *user, mid[a]));
                assert(names_order_of(self.asks@, Side::Ask, *user, r@[b]));
            } else {
                assert(names_order_of(self.asks@, Side::Ask, *user, r@[a]));
                assert(names_order_of(self.asks@, Side::Ask, *user, r@[b]));
            }
        }
        r
    }
}

} // verus!
