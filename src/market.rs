use vstd::prelude::*;
use crate::events::OrderMatched;
use crate::position::Position;
use crate::types::{AccountKey, ErrorCode, MarketStatus, Side};

verus! {

/// The highest taker fee a market may charge, in basis points.
pub const MAX_TAKER_FEE_BPS: u16 = 500;

/// The highest leverage a market may allow.
pub const MAX_LEVERAGE_LIMIT: u16 = 10_000;

/// One tradeable pair: its parameters, its counters, its perpetual state and its positions.
pub struct Market {
    pub authority: AccountKey,
    pub base_mint: AccountKey,
    pub quote_mint: AccountKey,
    pub base_vault: AccountKey,
    pub quote_vault: AccountKey,
    pub vault_signer_bump: u8,
    pub registry: AccountKey,
    pub min_base_order_size: u64,
    pub tick_size: u64,
    pub taker_fee_bps: u16,
    pub maker_rebate_bps: u16,
    pub next_order_id: u64,
    pub next_client_id: u64,
    pub status: MarketStatus,
    pub market_name: String,
    pub market_symbol: String,
    pub asset_id: String,
    pub is_perpetual: bool,
    pub settle_with_usdc: bool,
    pub last_funding_timestamp: u64,
    pub last_oracle_price: u64,
    pub oracle_price_offset: i64,
    pub mark_price_twap: u64,
    pub open_interest_long: u64,
    pub open_interest_short: u64,
    pub cumulative_funding_long: i64,
    pub cumulative_funding_short: i64,
    pub funding_interval: u64,
    pub max_leverage: u16,
    pub user_positions: Vec<(AccountKey, Position)>,
    pub oracle_feed_id: [u8; 32],
    pub max_oracle_age: u64,
}

impl Market {
    /// Parameters within their bounds: positive tick and minimum size, a rebate no larger than
    /// the fee, a fee of at most `MAX_TAKER_FEE_BPS`, a leverage cap in `1..=MAX_LEVERAGE_LIMIT`.
    pub open spec fn params_wf(&self) -> bool {
        &&& self.tick_size > 0
        &&& self.min_base_order_size > 0
        &&& self.taker_fee_bps <= MAX_TAKER_FEE_BPS
        &&& self.maker_rebate_bps <= self.taker_fee_bps
        &&& 0 < self.max_leverage <= MAX_LEVERAGE_LIMIT
    }

    pub open spec fn wf(&self) -> bool {
        &&& self.params_wf()
        &&& ledger_wf(self.user_positions@, self.open_interest_long, self.open_interest_short)
    }

    /// Whether the market is well formed.
    pub fn check_wf(&self) -> (r: bool)
        ensures
            r == self.wf(),
    {
        self.tick_size > 0 && self.min_base_order_size > 0 && self.taker_fee_bps <= MAX_TAKER_FEE_BPS
            && self.maker_rebate_bps <= self.taker_fee_bps && 0 < self.max_leverage
            && self.max_leverage <= MAX_LEVERAGE_LIMIT && check_ledger(
            &self.user_positions,
            self.open_interest_long,
            self.open_interest_short,
        )
    }

    /// The position of `user` and where it stands.
    pub fn get_position(&self, user: &AccountKey) -> (r: Option<(usize, &Position)>)
        ensures
            r is None <==> !has_position(self.user_positions@, *user),
            r matches Some((i, p)) ==> i < self.user_positions@.len() && self.user_positions@[i as int].0@
                == user@ && *p == self.user_positions@[i as int].1,
    {
        match find_position(&self.user_positions, *user) {
            Some(i) => Some((i, &self.user_positions[i].1)),
            None => None,
        }
    }
}

/// What a position adds to the open interest of `side`.
pub open spec fn share(p: Position, side: Side) -> int {
    if p.side == side {
        p.size as int
    } else {
        0
    }
}

/// The open interest of `side`: the summed size of the positions on that side.
pub open spec fn side_total(ps: Seq<(AccountKey, Position)>, side: Side) -> int
    decreases ps.len(),
{
    if ps.len() == 0 {
        0
    } else {
        side_total(ps.drop_last(), side) + share(ps.last().1, side)
    }
}

/// One position per user, each with a positive leverage and, where flat, no liquidation
/// price; and open interest that is the sum of the positions on each side.
pub open spec fn ledger_wf(ps: Seq<(AccountKey, Position)>, long: u64, short: u64) -> bool {
    &&& forall|i: int, j: int| 0 <= i < j < ps.len() ==> (#[trigger] ps[i]).0@ != (#[trigger] ps[j]).0@
    &&& forall|i: int| 0 <= i < ps.len() ==> (#[trigger] ps[i]).1.leverage > 0
    &&& forall|i: int| 0 <= i < ps.len() ==> (#[trigger] ps[i]).1.size == 0 ==> ps[i].1.liquidation_price == 0
    &&& long == side_total(ps, Side::Bid)
    &&& short == side_total(ps, Side::Ask)
}

pub open spec fn has_position(ps: Seq<(AccountKey, Position)>, user: AccountKey) -> bool {
    exists|i: int| 0 <= i < ps.len() && (#[trigger] ps[i]).0@ == user@
}

/// Where the position of `user` stands, if there is one.
pub open spec fn position_index(ps: Seq<(AccountKey, Position)>, user: AccountKey) -> int {
    if has_position(ps, user) {
        choose|i: int| 0 <= i < ps.len() && (#[trigger] ps[i]).0@ == user@
    } else {
        -1
    }
}

/// The ledger after a fill of `amount` at `price` on `side` for `user`, whose position is
/// created flat where it is missing; none where a size or an open interest would leave `u64`.
pub open spec fn settle_spec(
    ps: Seq<(AccountKey, Position)>,
    user: AccountKey,
    side: Side,
    amount: u64,
    price: u64,
    ratio: u16,
    now: u64,
) -> Option<Seq<(AccountKey, Position)>> {
    let idx = position_index(ps, user);
    let base = if idx >= 0 {
        ps[idx].1
    } else {
        Position::fresh(side, 0, now)
    };
    if !base.fill_fits(side, amount) {
        None
    } else {
        let moved = base.after_fill(side, amount, price).refreshed(ratio, now);
        let next = if idx >= 0 {
            ps.update(idx, (ps[idx].0, moved))
        } else {
            ps.push((user, moved))
        };
        if side_total(next, Side::Bid) > u64::MAX || side_total(next, Side::Ask) > u64::MAX {
            None
        } else {
            Some(next)
        }
    }
}

/// The ledger after every fill in turn, the taker's position first, then the maker's.
pub open spec fn settle_fills_spec(
    ps: Seq<(AccountKey, Position)>,
    fills: Seq<OrderMatched>,
    ratio: u16,
    now: u64,
) -> Option<Seq<(AccountKey, Position)>>
    decreases fills.len(),
{
    if fills.len() == 0 {
        Some(ps)
    } else {
        match settle_fills_spec(ps, fills.drop_last(), ratio, now) {
            None => None,
            Some(before) => {
                let f = fills.last();
                match settle_spec(before, f.user, f.side, f.size, f.price, ratio, now) {
                    None => None,
                    Some(mid) => settle_spec(mid, f.maker, f.side.opposite(), f.size, f.price, ratio, now),
                }
            },
        }
    }
}

pub proof fn lemma_total_push(ps: Seq<(AccountKey, Position)>, x: (AccountKey, Position), side: Side)
    ensures
        side_total(ps.push(x), side) == side_total(ps, side) + share(x.1, side),
{
    assert(ps.push(x).drop_last() =~= ps);
}

pub proof fn lemma_total_update(ps: Seq<(AccountKey, Position)>, i: int, x: (AccountKey, Position), side: Side)
    requires
        0 <= i < ps.len(),
    ensures
        side_total(ps.update(i, x), side) == side_total(ps, side) - share(ps[i].1, side) + share(x.1, side),
    decreases ps.len(),
{
    if i == ps.len() - 1 {
        assert(ps.update(i, x).drop_last() =~= ps.drop_last());
    } else {
        lemma_total_update(ps.drop_last(), i, x, side);
        assert(ps.update(i, x).drop_last() =~= ps.drop_last().update(i, x));
    }
}

pub proof fn lemma_total_remove(ps: Seq<(AccountKey, Position)>, i: int, side: Side)
    requires
        0 <= i < ps.len(),
    ensures
        side_total(ps.remove(i), side) == side_total(ps, side) - share(ps[i].1, side),
    decreases ps.len(),
{
    if i == ps.len() - 1 {
        assert(ps.remove(i) =~= ps.drop_last());
    } else {
        lemma_total_remove(ps.drop_last(), i, side);
        assert(ps.remove(i).drop_last() =~= ps.drop_last().remove(i));
    }
}

pub proof fn lemma_share_within_total(ps: Seq<(AccountKey, Position)>, i: int, side: Side)
    requires
        0 <= i < ps.len(),
    ensures
        0 <= share(ps[i].1, side) <= side_total(ps, side),
    decreases ps.len(),
{
    lemma_total_nonneg(ps.drop_last(), side);
    if i < ps.len() - 1 {
        lemma_share_within_total(ps.drop_last(), i, side);
    }
}

pub proof fn lemma_total_nonneg(ps: Seq<(AccountKey, Position)>, side: Side)
    ensures
        0 <= side_total(ps, side),
    decreases ps.len(),
{
    if ps.len() > 0 {
        lemma_total_nonneg(ps.drop_last(), side);
    }
}

/// Finds the position of `user`.
pub fn find_position(ps: &Vec<(AccountKey, Position)>, user: AccountKey) -> (r: Option<usize>)
    ensures
        r is None <==> !has_position(ps@, user),
        r matches Some(i) ==> i < ps@.len() && ps@[i as int].0@ == user@,
        (forall|i: int, j: int| 0 <= i < j < ps@.len() ==> (#[trigger] ps@[i]).0@ != (#[trigger] ps@[j]).0@)
            ==> r == (if has_position(ps@, user) { Some(position_index(ps@, user) as usize) } else { None }),
{
    let mut i: usize = 0;
    while i < ps.len()
        invariant
            0 <= i <= ps@.len(),
            forall|k: int| 0 <= k < i ==> (#[trigger] ps@[k]).0@ != user@,
        decreases ps@.len() - i,
    {
        if ps[i].0 == user {
            proof {
                assert(has_position(ps@, user));
                let c = position_index(ps@, user);
                if c != i {
                    if c < i {
                        assert(ps@[c].0@ != user@);
                    }
                }
            }
            return Some(i);
        }
        i = i + 1;
    }
    None
}

fn share_of(p: &Position, side: Side) -> (r: u64)
    ensures
        r == share(*p, side),
{
    if p.side == side {
        p.size
    } else {
        0
    }
}

/// Applies a fill of `amount` at `price` on `side` to the position of `user`, creating it
/// where it is missing, and keeps the open interest in step. Fails with `MathOverflow`,
/// changing nothing, where a size or an open interest would leave `u64`.
pub fn settle(
    ps: &mut Vec<(AccountKey, Position)>,
    long: &mut u64,
    short: &mut u64,
    user: AccountKey,
    side: Side,
    amount: u64,
    price: u64,
    ratio: u16,
    now: u64,
) -> (r: Result<(), ErrorCode>)
    requires
        ledger_wf(old(ps)@, *old(long), *old(short)),
    ensures
        match settle_spec(old(ps)@, user, side, amount, price, ratio, now) {
            None => r == Err::<(), ErrorCode>(ErrorCode::MathOverflow) && final(ps)@ == old(ps)@
                && *final(long) == *old(long) && *final(short) == *old(short),
            Some(next) => r is Ok && final(ps)@ == next && ledger_wf(final(ps)@, *final(long), *final(short)),
        },
{
    let ghost old_ps = ps@;
    let idx = find_position(ps, user);
    let mut pos = match idx {
        Some(i) => ps[i].1,
        None => Position::new(side, 0, now),
    };
    let old_pos = pos;
    proof {
        if idx.is_some() {
            assert(ps@[idx.unwrap() as int].1.leverage > 0);
        }
    }
    match pos.apply_fill(side, amount, price, ratio, now) {
        Err(e) => {
            return Err(e);
        },
        Ok(()) => {},
    }
    let (old_long, old_short): (u64, u64) = match idx {
        Some(i) => {
            proof {
                lemma_share_within_total(old_ps, i as int, Side::Bid);
                lemma_share_within_total(old_ps, i as int, Side::Ask);
            }
            (share_of(&old_pos, Side::Bid), share_of(&old_pos, Side::Ask))
        },
        None => (0, 0),
    };
    let new_long_share = share_of(&pos, Side::Bid);
    let new_short_share = share_of(&pos, Side::Ask);
    let base_long = *long - old_long;
    let base_short = *short - old_short;
    let ghost next = match idx {
        Some(i) => old_ps.update(i as int, (old_ps[i as int].0, pos)),
        None => old_ps.push((user, pos)),
    };
    proof {
        match idx {
            Some(i) => {
                lemma_total_update(old_ps, i as int, (old_ps[i as int].0, pos), Side::Bid);
                lemma_total_update(old_ps, i as int, (old_ps[i as int].0, pos), Side::Ask);
            },
            None => {
                lemma_total_push(old_ps, (user, pos), Side::Bid);
                lemma_total_push(old_ps, (user, pos), Side::Ask);
            },
        }
    }
    if new_long_share > u64::MAX - base_long || new_short_share > u64::MAX - base_short {
        return Err(ErrorCode::MathOverflow);
    }
    match idx {
        Some(i) => {
            let key = ps[i].0;
            ps.set(i, (key, pos));
        },
        None => {
            ps.push((user, pos));
        },
    }
    *long = base_long + new_long_share;
    *short = base_short + new_short_share;
    assert(ps@ == next);
    assert(ledger_wf(ps@, *long, *short)) by {
        assert forall|a: int, b: int| 0 <= a < b < ps@.len() implies (#[trigger] ps@[a]).0@ != (
        #[trigger] ps@[b]).0@ by {
            if idx.is_none() && b == old_ps.len() {
                assert(old_ps[a].0@ != user@);
            } else {
                assert(ps@[a].0@ == old_ps[a].0@);
                assert(ps@[b].0@ == old_ps[b].0@);
            }
        }
        assert forall|a: int| 0 <= a < ps@.len() implies (#[trigger] ps@[a]).1.leverage > 0 by {
            if ps@[a] != old_ps[a] {
            }
        }
    }
    Ok(())
}

proof fn lemma_failure_persists(
    ps: Seq<(AccountKey, Position)>,
    fills: Seq<OrderMatched>,
    k: int,
    ratio: u16,
    now: u64,
)
    requires
        0 <= k <= fills.len(),
        settle_fills_spec(ps, fills.take(k), ratio, now) is None,
    ensures
        settle_fills_spec(ps, fills, ratio, now) is None,
    decreases fills.len(),
{
    if k == fills.len() {
        assert(fills.take(k) =~= fills);
    } else {
        assert(fills.drop_last().take(k) =~= fills.take(k));
        lemma_failure_persists(ps, fills.drop_last(), k, ratio, now);
    }
}

/// Applies every fill to the ledger: the taker's position on the fill's side, then the
/// maker's on the other. Fails with `MathOverflow`, changing nothing, where any step would.
pub fn settle_fills(
    ps: &mut Vec<(AccountKey, Position)>,
    long: &mut u64,
    short: &mut u64,
    fills: &Vec<OrderMatched>,
    ratio: u16,
    now: u64,
) -> (r: Result<(), ErrorCode>)
    requires
        ledger_wf(old(ps)@, *old(long), *old(short)),
    ensures
        match settle_fills_spec(old(ps)@, fills@, ratio, now) {
            None => r == Err::<(), ErrorCode>(ErrorCode::MathOverflow) && final(ps)@ == old(ps)@
                && *final(long) == *old(long) && *final(short) == *old(short),
            Some(next) => r is Ok && final(ps)@ == next && ledger_wf(final(ps)@, *final(long), *final(short)),
        },
{
    let mut work: Vec<(AccountKey, Position)> = Vec::new();
    let mut i: usize = 0;
    while i < ps.len()
        invariant
            0 <= i <= ps@.len(),
            work@ == ps@.take(i as int),
        decreases ps@.len() - i,
    {
        work.push(ps[i]);
        i = i + 1;
        assert(work@ =~= ps@.take(i as int));
    }
    assert(work@ =~= ps@);
    let mut work_long = *long;
    let mut work_short = *short;
    let mut k: usize = 0;
    assert(fills@.take(0) =~= Seq::<OrderMatched>::empty());
    while k < fills.len()
        invariant
            0 <= k <= fills@.len(),
            settle_fills_spec(ps@, fills@.take(k as int), ratio, now) == Some(work@),
            ledger_wf(work@, work_long, work_short),
            ps@ == old(ps)@,
            *long == *old(long),
            *short == *old(short),
        decreases fills@.len() - k,
    {
        let f = fills[k];
        assert(fills@.take(k + 1).drop_last() =~= fills@.take(k as int));
        let ghost before = work@;
        match settle(&mut work, &mut work_long, &mut work_short, f.user, f.side, f.size, f.price, ratio, now) {
            Err(e) => {
                proof {
                    lemma_failure_persists(ps@, fills@, k + 1, ratio, now);
                }
                return Err(e);
            },
            Ok(()) => {},
        }
        let ghost mid = work@;
        match settle(
            &mut work,
            &mut work_long,
            &mut work_short,
            f.maker,
            f.side.flip(),
            f.size,
            f.price,
            ratio,
            now,
        ) {
            Err(e) => {
                proof {
                    lemma_failure_persists(ps@, fills@, k + 1, ratio, now);
                }
                return Err(e);
            },
            Ok(()) => {},
        }
        k = k + 1;
    }
    assert(fills@.take(k as int) =~= fills@);
    *ps = work;
    *long = work_long;
    *short = work_short;
    Ok(())
}

/// A copy of a ledger.
pub fn copy_positions(ps: &Vec<(AccountKey, Position)>) -> (r: Vec<(AccountKey, Position)>)
    ensures
        r@ == ps@,
{
    let mut r: Vec<(AccountKey, Position)> = Vec::new();
    let mut i: usize = 0;
    while i < ps.len()
        invariant
            0 <= i <= ps@.len(),
            r@ == ps@.take(i as int),
        decreases ps@.len() - i,
    {
        r.push(ps[i]);
        i = i + 1;
        assert(r@ =~= ps@.take(i as int));
    }
    assert(r@ =~= ps@);
    r
}

/// The ledger with the leverage of `user` set to `leverage`; a flat position on `side` is
/// opened for it where there is none.
pub open spec fn with_leverage_spec(
    ps: Seq<(AccountKey, Position)>,
    user: AccountKey,
    side: Side,
    leverage: u16,
    now: u64,
) -> Seq<(AccountKey, Position)> {
    let idx = position_index(ps, user);
    if idx >= 0 {
        ps.update(idx, (ps[idx].0, Position { leverage, ..ps[idx].1 }))
    } else {
        ps.push((user, Position { leverage, ..Position::fresh(side, 0, now) }))
    }
}

/// Sets the leverage of `user`, opening a flat position where there is none.
pub(crate) fn set_leverage(
    ps: &mut Vec<(AccountKey, Position)>,
    user: AccountKey,
    side: Side,
    leverage: u16,
    now: u64,
    Ghost(long): Ghost<u64>,
    Ghost(short): Ghost<u64>,
)
    requires
        ledger_wf(old(ps)@, long, short),
        leverage > 0,
    ensures
        final(ps)@ == with_leverage_spec(old(ps)@, user, side, leverage, now),
        ledger_wf(final(ps)@, long, short),
{
    let ghost old_ps = ps@;
    match find_position(ps, user) {
        Some(i) => {
            let (key, mut pos) = ps[i];
            pos.leverage = leverage;
            ps.set(i, (key, pos));
            proof {
                lemma_total_update(old_ps, i as int, (key, pos), Side::Bid);
                lemma_total_update(old_ps, i as int, (key, pos), Side::Ask);
            }
        },
        None => {
            let mut pos = Position::new(side, 0, now);
            pos.leverage = leverage;
            ps.push((user, pos));
            proof {
                lemma_total_push(old_ps, (user, pos), Side::Bid);
                lemma_total_push(old_ps, (user, pos), Side::Ask);
            }
        },
    }
    assert(ledger_wf(ps@, long, short)) by {
        assert forall|a: int, b: int| 0 <= a < b < ps@.len() implies (#[trigger] ps@[a]).0@ != (
        #[trigger] ps@[b]).0@ by {
            if b == old_ps.len() {
                assert(old_ps[a].0@ != user@);
            } else {
                assert(ps@[a].0@ == old_ps[a].0@);
                assert(ps@[b].0@ == old_ps[b].0@);
            }
        }
        assert forall|a: int| 0 <= a < ps@.len() implies (#[trigger] ps@[a]).1.leverage > 0 by {
            if a < old_ps.len() && ps@[a] != old_ps[a] {
            }
        }
    }
}

/// Open interest depends on the sides and sizes of the positions alone.
pub proof fn lemma_total_congruent(a: Seq<(AccountKey, Position)>, b: Seq<(AccountKey, Position)>, side: Side)
    requires
        a.len() == b.len(),
        forall|i: int| 0 <= i < a.len() ==> (#[trigger] a[i]).1.side == b[i].1.side && a[i].1.size == b[i].1.size,
    ensures
        side_total(a, side) == side_total(b, side),
    decreases a.len(),
{
    if a.len() > 0 {
        let (x, y) = (a.drop_last(), b.drop_last());
        assert forall|i: int| 0 <= i < x.len() implies (#[trigger] x[i]).1.side == y[i].1.side && x[i].1.size
            == y[i].1.size by {
            assert(x[i] == a[i]);
            assert(y[i] == b[i]);
        }
        lemma_total_congruent(x, y, side);
        assert(a.last() == a[a.len() - 1]);
    }
}

fn total_of(ps: &Vec<(AccountKey, Position)>, side: Side) -> (r: u128)
    ensures
        r == side_total(ps@, side),
{
    let mut acc: u128 = 0;
    let mut i: usize = 0;
    assert(ps@.take(0) =~= Seq::<(AccountKey, Position)>::empty());
    while i < ps.len()
        invariant
            0 <= i <= ps@.len(),
            acc == side_total(ps@.take(i as int), side),
            acc <= i * 0xffff_ffff_ffff_ffff,
        decreases ps@.len() - i,
    {
        assert(ps@.take(i + 1).drop_last() =~= ps@.take(i as int));
        assert(ps@.take(i + 1).last() == ps@[i as int]);
        acc = acc + share_of(&ps[i].1, side) as u128;
        i = i + 1;
    }
    assert(ps@.take(i as int) =~= ps@);
    acc
}

/// Whether a ledger is well formed.
pub fn check_ledger(ps: &Vec<(AccountKey, Position)>, long: u64, short: u64) -> (r: bool)
    ensures
        r == ledger_wf(ps@, long, short),
{
    let mut i: usize = 0;
    while i < ps.len()
        invariant
            0 <= i <= ps@.len(),
            forall|a: int, b: int| 0 <= a < b < ps@.len() && a < i ==> (#[trigger] ps@[a]).0@ != (#[trigger] ps@[b]).0@,
            forall|a: int| 0 <= a < i ==> (#[trigger] ps@[a]).1.leverage > 0,
            forall|a: int| 0 <= a < i ==> (#[trigger] ps@[a]).1.size == 0 ==> ps@[a].1.liquidation_price == 0,
        decreases ps@.len() - i,
    {
        if ps[i].1.leverage == 0 || (ps[i].1.size == 0 && ps[i].1.liquidation_price != 0) {
            return false;
        }
        let mut j: usize = i + 1;
        while j < ps.len()
            invariant
                i < j <= ps@.len(),
                forall|b: int| i < b < j ==> ps@[i as int].0@ != (#[trigger] ps@[b]).0@,
            decreases ps@.len() - j,
        {
            if ps[i].0 == ps[j].0 {
                return false;
            }
            j = j + 1;
        }
        i = i + 1;
    }
    total_of(ps, Side::Bid) == long as u128 && total_of(ps, Side::Ask) == short as u128
}

} // verus!
