use vstd::prelude::*;
use crate::types::{ErrorCode, Side};

verus! {

/// Prices and sizes are fixed-point numbers with this many units per whole.
pub const PRICE_PRECISION: u64 = 1_000_000;

/// Ratios and fees are given in basis points: parts of this denominator.
pub const BPS_DENOMINATOR: u64 = 10_000;

/// Division that rounds toward zero, as integer division does on signed machine integers.
pub open spec fn trunc_div(a: int, b: int) -> int {
    if a >= 0 {
        a / b
    } else {
        -((-a) / b)
    }
}

/// `x` brought into the range of `i64`.
pub open spec fn clamp_i64(x: int) -> int {
    if x < i64::MIN {
        i64::MIN as int
    } else if x > i64::MAX {
        i64::MAX as int
    } else {
        x
    }
}

/// `x` brought into the range of `u64`.
pub open spec fn clamp_u64(x: int) -> int {
    if x < 0 {
        0
    } else if x > u64::MAX {
        u64::MAX as int
    } else {
        x
    }
}

proof fn lemma_mul_negate(a: int, b: int)
    ensures
        (-a) * b == -(a * b),
{
    assert((-a) * b == -(a * b)) by (nonlinear_arith);
}

/// A size-weighted average of two prices stays within `u64`, and so do its two products.
proof fn lemma_average_fits(p1: int, s1: int, p2: int, s2: int)
    requires
        0 <= p1 <= u64::MAX,
        0 <= p2 <= u64::MAX,
        0 <= s1,
        0 <= s2,
        0 < s1 + s2 <= u64::MAX,
    ensures
        p1 * s1 + p2 * s2 <= u64::MAX * u64::MAX,
        0 <= (p1 * s1 + p2 * s2) / (s1 + s2) <= u64::MAX,
{
    let m = u64::MAX as int;
    assert(p1 * s1 <= m * s1) by (nonlinear_arith)
        requires
            p1 <= m,
            0 <= s1,
    ;
    assert(p2 * s2 <= m * s2) by (nonlinear_arith)
        requires
            p2 <= m,
            0 <= s2,
    ;
    assert(m * s1 + m * s2 == m * (s1 + s2)) by (nonlinear_arith);
    assert(m * (s1 + s2) <= m * m) by (nonlinear_arith)
        requires
            s1 + s2 <= m,
            0 <= m,
    ;
    assert(p1 * s1 >= 0 && p2 * s2 >= 0) by (nonlinear_arith)
        requires
            0 <= p1,
            0 <= p2,
            0 <= s1,
            0 <= s2,
    ;
    assert((p1 * s1 + p2 * s2) / (s1 + s2) <= m) by (nonlinear_arith)
        requires
            p1 * s1 + p2 * s2 <= m * (s1 + s2),
            0 < s1 + s2,
    ;
    assert((p1 * s1 + p2 * s2) / (s1 + s2) >= 0) by (nonlinear_arith)
        requires
            p1 * s1 + p2 * s2 >= 0,
            0 < s1 + s2,
    ;
}

/// A user's perpetual position in one market.
#[derive(Clone, Copy, Debug)]
pub struct Position {
    pub side: Side,
    pub size: u64,
    pub margin: u64,
    pub entry_price: u64,
    pub leverage: u16,
    pub last_funding_index: i64,
    pub realized_pnl: i64,
    pub liquidation_price: u64,
    pub last_updated_timestamp: u64,
}

impl Position {
    /// Profit (positive) or loss (negative) of the open size if it were closed at `price`.
    pub open spec fn pnl_spec(self, price: u64) -> int {
        if self.size == 0 {
            0
        } else {
            match self.side {
                Side::Bid => trunc_div((price - self.entry_price) * self.size, PRICE_PRECISION as int),
                Side::Ask => trunc_div((self.entry_price - price) * self.size, PRICE_PRECISION as int),
            }
        }
    }

    /// Margin plus unrealized profit, never below zero.
    pub open spec fn equity_spec(self, price: u64) -> int {
        let e = self.margin + self.pnl_spec(price);
        if e < 0 {
            0
        } else {
            e
        }
    }

    /// The open size valued at `price`.
    pub open spec fn notional_spec(self, price: u64) -> int {
        self.size * price / PRICE_PRECISION as int
    }

    /// The equity that the position must keep at `price` under a maintenance ratio in basis points.
    pub open spec fn required_margin_spec(self, price: u64, ratio: u16) -> int {
        self.notional_spec(price) * ratio / BPS_DENOMINATOR as int
    }

    pub open spec fn liquidatable_spec(self, price: u64, ratio: u16) -> bool {
        self.equity_spec(price) < self.required_margin_spec(price, ratio)
    }

    /// The price at which the position reaches its maintenance margin:
    /// `entry * (1 - 1/leverage + ratio)` for a long, `entry * (1 + 1/leverage - ratio)`
    /// for a short, rounded down, and zero for a flat position.
    pub open spec fn liquidation_price_spec(self, ratio: u16) -> int {
        let scale = self.leverage * BPS_DENOMINATOR;
        if self.size == 0 {
            0
        } else {
            match self.side {
                Side::Bid => self.entry_price * (scale - BPS_DENOMINATOR + ratio * self.leverage)
                    / scale,
                Side::Ask => {
                    let factor = scale + BPS_DENOMINATOR - ratio * self.leverage;
                    if factor <= 0 {
                        0
                    } else {
                        self.entry_price * factor / scale
                    }
                },
            }
        }
    }

    /// Whether a fill of `amount` on `fill_side` keeps the size within `u64`.
    pub open spec fn fill_fits(self, fill_side: Side, amount: u64) -> bool {
        self.size == 0 || self.side != fill_side || self.size + amount <= u64::MAX
    }

    /// Side, size and entry price after a fill of `amount` at `price` on `fill_side`:
    /// a flat position takes the fill as it is; a fill on the same side averages the entry
    /// price by size; a fill on the other side reduces the size, and past zero flips the
    /// position, the excess entering at `price`.
    pub open spec fn after_fill(self, fill_side: Side, amount: u64, price: u64) -> Position {
        if self.size == 0 {
            Position { side: fill_side, size: amount, entry_price: price, ..self }
        } else if self.side == fill_side {
            let new_size = self.size + amount;
            Position {
                size: new_size as u64,
                entry_price: ((self.entry_price * self.size + price * amount) / new_size) as u64,
                ..self
            }
        } else if amount < self.size {
            Position { size: (self.size - amount) as u64, ..self }
        } else {
            Position { side: fill_side, size: (amount - self.size) as u64, entry_price: price, ..self }
        }
    }

    /// The position with its liquidation price recomputed and its update time set to `now`.
    pub open spec fn refreshed(self, ratio: u16, now: u64) -> Position {
        Position {
            liquidation_price: clamp_u64(self.liquidation_price_spec(ratio)) as u64,
            last_updated_timestamp: now,
            ..self
        }
    }

    /// A flat position holding `margin`, at leverage 1.
    pub open spec fn fresh(side: Side, margin: u64, timestamp: u64) -> Position {
        Position {
            side,
            size: 0,
            margin,
            entry_price: 0,
            leverage: 1,
            last_funding_index: 0,
            realized_pnl: 0,
            liquidation_price: 0,
            last_updated_timestamp: timestamp,
        }
    }

    pub fn new(side: Side, margin: u64, timestamp: u64) -> (r: Position)
        ensures
            r == Position::fresh(side, margin, timestamp),
    {
        Position {
            side,
            size: 0,
            margin,
            entry_price: 0,
            leverage: 1,
            last_funding_index: 0,
            realized_pnl: 0,
            liquidation_price: 0,
            last_updated_timestamp: timestamp,
        }
    }

    pub fn is_empty(&self) -> (r: bool)
        ensures
            r == (self.size == 0),
    {
        self.size == 0
    }

    /// The unrealized profit at `price`, exactly.
    fn pnl_exact(&self, price: u64) -> (r: i128)
        ensures
            r == self.pnl_spec(price),
            -0x2000_0000_0000_0000_0000_0000_0000 < r < 0x2000_0000_0000_0000_0000_0000_0000,
    {
        if self.size == 0 {
            return 0;
        }
        let gain: bool = match self.side {
            Side::Bid => price >= self.entry_price,
            Side::Ask => self.entry_price >= price,
        };
        let diff: u64 = if price >= self.entry_price {
            price - self.entry_price
        } else {
            self.entry_price - price
        };
        let size = self.size;
        assert(diff as int * size as int <= u64::MAX as int * u64::MAX as int) by (nonlinear_arith)
            requires
                diff <= u64::MAX,
                size <= u64::MAX,
        ;
        let mag: u128 = diff as u128 * size as u128;
        let q: u128 = mag / 1_000_000;
        assert(q < 0x2000_0000_0000_0000_0000_0000_0000);
        let ghost signed: int = match self.side {
            Side::Bid => (price - self.entry_price) as int * size,
            Side::Ask => (self.entry_price - price) as int * size,
        };
        proof {
            if price >= self.entry_price {
                assert(diff == price - self.entry_price);
                lemma_mul_negate((price - self.entry_price) as int, size as int);
            } else {
                assert(diff == self.entry_price - price);
                lemma_mul_negate((self.entry_price - price) as int, size as int);
            }
            assert(diff as int * size as int == mag);
        }
        if gain {
            q as i128
        } else {
            -(q as i128)
        }
    }

    /// Unrealized profit or loss at `current_price`, held to the range of `i64`.
    pub fn calculate_unrealized_pnl(&self, current_price: u64) -> (r: i64)
        ensures
            r == clamp_i64(self.pnl_spec(current_price)),
    {
        let p = self.pnl_exact(current_price);
        if p < i64::MIN as i128 {
            i64::MIN
        } else if p > i64::MAX as i128 {
            i64::MAX
        } else {
            p as i64
        }
    }

    fn equity_exact(&self, price: u64) -> (r: i128)
        ensures
            r == self.equity_spec(price),
            0 <= r < 0x4000_0000_0000_0000_0000_0000_0000,
    {
        let e = self.margin as i128 + self.pnl_exact(price);
        if e < 0 {
            0
        } else {
            e
        }
    }

    /// Margin plus unrealized profit at `current_price`; never negative, and held to `u64`.
    pub fn equity(&self, current_price: u64) -> (r: u64)
        ensures
            r == clamp_u64(self.equity_spec(current_price)),
    {
        let e = self.equity_exact(current_price);
        if e > u64::MAX as i128 {
            u64::MAX
        } else {
            e as u64
        }
    }

    fn notional_exact(&self, price: u64) -> (r: u128)
        ensures
            r == self.notional_spec(price),
            r < 0x2000_0000_0000_0000_0000_0000_0000,
    {
        let size = self.size;
        assert(size as int * price as int <= u64::MAX as int * u64::MAX as int) by (nonlinear_arith)
            requires
                price <= u64::MAX,
                size <= u64::MAX,
        ;
        let r = size as u128 * price as u128 / 1_000_000;
        r
    }

    /// The open size valued at `current_price`, held to `u64`.
    pub fn notional_value(&self, current_price: u64) -> (r: u64)
        ensures
            r == clamp_u64(self.notional_spec(current_price)),
    {
        let n = self.notional_exact(current_price);
        if n > u64::MAX as u128 {
            u64::MAX
        } else {
            n as u64
        }
    }

    pub(crate) fn required_margin_exact(&self, price: u64, ratio: u16) -> (r: u128)
        ensures
            r == self.required_margin_spec(price, ratio),
            r < 0x2000_0000_0000_0000_0000_0000_0000_0000,
    {
        let n = self.notional_exact(price);
        assert(n as int * ratio as int <= 0x2000_0000_0000_0000_0000_0000_0000 * 0x10000)
            by (nonlinear_arith)
            requires
                n < 0x2000_0000_0000_0000_0000_0000_0000,
                ratio <= 0xffff,
        ;
        n * ratio as u128 / 10_000
    }

    /// The maintenance margin at `current_price` under `ratio` basis points, held to `u64`.
    pub fn maintenance_margin(&self, current_price: u64, ratio: u16) -> (r: u64)
        ensures
            r == clamp_u64(self.required_margin_spec(current_price, ratio)),
    {
        let m = self.required_margin_exact(current_price, ratio);
        if m > u64::MAX as u128 {
            u64::MAX
        } else {
            m as u64
        }
    }

    /// Whether the equity at `current_price` has fallen below the maintenance margin.
    pub fn is_liquidatable(&self, current_price: u64, maintenance_margin_ratio: u16) -> (r: bool)
        ensures
            r == self.liquidatable_spec(current_price, maintenance_margin_ratio),
            self.size == 0 ==> !r,
    {
        let equity = self.equity_exact(current_price);
        let required = self.required_margin_exact(current_price, maintenance_margin_ratio);
        if self.size == 0 {
            assert(self.notional_spec(current_price) == 0);
        }
        equity < required as i128
    }

    fn liquidation_price_exact(&self, ratio: u16) -> (r: u64)
        requires
            self.leverage > 0,
        ensures
            r == clamp_u64(self.liquidation_price_spec(ratio)),
    {
        if self.size == 0 {
            return 0;
        }
        let lev = self.leverage as u128;
        let scale: u128 = lev * 10_000;
        let entry = self.entry_price as u128;
        let ghost ratio_lev: int = ratio as int * lev as int;
        assert(ratio as int * lev as int <= 0xffff * 0xffff) by (nonlinear_arith)
            requires
                ratio <= 0xffff,
                lev <= 0xffff,
        ;
        let ratio_lev_exec: u128 = ratio as u128 * lev;
        let factor: u128 = match self.side {
            Side::Bid => scale - 10_000 + ratio_lev_exec,
            Side::Ask => {
                if scale + 10_000 <= ratio_lev_exec {
                    return 0;
                }
                scale + 10_000 - ratio_lev_exec
            },
        };
        assert(entry as int * factor as int <= 0xffff_ffff_ffff_ffff * 0x1_0000_0000_0000)
            by (nonlinear_arith)
            requires
                entry <= 0xffff_ffff_ffff_ffff,
                factor <= 0x1_0000_0000_0000,
        ;
        let price = entry * factor / scale;
        if price > u64::MAX as u128 {
            u64::MAX
        } else {
            price as u64
        }
    }

    /// Recomputes the liquidation price from the entry price, the leverage and the
    /// maintenance ratio (basis points); zero for a flat position.
    pub fn update_liquidation_price(&mut self, maintenance_margin_ratio: u16)
        requires
            old(self).leverage > 0,
        ensures
            *final(self) == (Position {
                liquidation_price: clamp_u64(
                    old(self).liquidation_price_spec(maintenance_margin_ratio),
                ) as u64,
                ..*old(self)
            }),
    {
        self.liquidation_price = self.liquidation_price_exact(maintenance_margin_ratio);
    }

    /// Applies a fill of `amount` at `price` on `fill_side` to the position, then recomputes
    /// its liquidation price and stamps it with `now`. Fails, changing nothing, where the
    /// size would leave `u64`.
    pub fn apply_fill(
        &mut self,
        fill_side: Side,
        amount: u64,
        price: u64,
        maintenance_margin_ratio: u16,
        now: u64,
    ) -> (r: Result<(), ErrorCode>)
        requires
            old(self).leverage > 0,
        ensures
            r is Ok <==> old(self).fill_fits(fill_side, amount),
            r is Ok ==> *final(self) == old(self).after_fill(fill_side, amount, price).refreshed(
                maintenance_margin_ratio,
                now,
            ),
            r is Err ==> r == Err::<(), ErrorCode>(ErrorCode::MathOverflow) && *final(self)
                == *old(self),
    {
        if self.size == 0 {
            self.side = fill_side;
            self.size = amount;
            self.entry_price = price;
        } else if self.side == fill_side {
            if amount > u64::MAX - self.size {
                return Err(ErrorCode::MathOverflow);
            }
            let new_size = self.size + amount;
            proof {
                lemma_average_fits(self.entry_price as int, self.size as int, price as int, amount as int);
            }
            let total: u128 = self.entry_price as u128 * self.size as u128 + price as u128
                * amount as u128;
            self.entry_price = (total / new_size as u128) as u64;
            self.size = new_size;
        } else if amount < self.size {
            self.size = self.size - amount;
        } else {
            self.side = fill_side;
            self.size = amount - self.size;
            self.entry_price = price;
        }
        self.last_updated_timestamp = now;
        self.update_liquidation_price(maintenance_margin_ratio);
        Ok(())
    }
}

/// Adding `size2` at `price2` to an open position of `size1` at `price1` on the same side
/// leaves a position of `size1 + size2` whose entry price is the size-weighted average
/// `(price1 * size1 + price2 * size2) / (size1 + size2)`.
pub proof fn lemma_same_side_entry_price(pos: Position, size2: u64, price2: u64)
    requires
        pos.size > 0,
        pos.size + size2 <= u64::MAX,
    ensures
        pos.after_fill(pos.side, size2, price2).side == pos.side,
        pos.after_fill(pos.side, size2, price2).size == pos.size + size2,
        pos.after_fill(pos.side, size2, price2).entry_price == (pos.entry_price * pos.size + price2
            * size2) / (pos.size + size2),
{
    lemma_average_fits(pos.entry_price as int, pos.size as int, price2 as int, size2 as int);
}

} // verus!
