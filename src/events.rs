use vstd::prelude::*;
use crate::types::{AccountKey, MarketStatus, Side};

verus! {

// Records of what each operation did, for an observer to rebuild the book and the positions.
// The market they belong to is known to whoever runs the operation and is not repeated here.

#[derive(Debug)]
pub struct MarketCreated {
    pub base_mint: AccountKey,
    pub quote_mint: AccountKey,
    pub market_name: String,
    pub market_symbol: String,
    pub asset_id: String,
    pub is_perpetual: bool,
    pub min_base_order_size: u64,
    pub tick_size: u64,
    pub taker_fee_bps: u16,
    pub maker_rebate_bps: u16,
    pub max_leverage: u16,
}

#[derive(Clone, Copy, Debug)]
pub struct MarketStatusChanged {
    pub status: MarketStatus,
    pub timestamp: u64,
}

/// One match between an incoming (taker) order and a resting (maker) order.
#[derive(Clone, Copy, Debug)]
pub struct OrderMatched {
    pub order_id: u64,
    pub maker_order_id: u64,
    pub client_id: u64,
    pub maker_client_id: u64,
    pub user: AccountKey,
    pub maker: AccountKey,
    pub side: Side,
    pub price: u64,
    pub size: u64,
    pub quote_amount: u64,
    pub taker_fee: u64,
    pub maker_rebate: u64,
    /// What is left of the taker order after this match.
    pub remaining_size: u64,
    /// What is left of the maker order after this match.
    pub maker_remaining_size: u64,
    pub timestamp: u64,
}

#[derive(Clone, Copy, Debug)]
pub struct OrderCancelled {
    pub order_id: u64,
    pub client_id: u64,
    pub user: AccountKey,
    pub side: Side,
    pub price: u64,
    pub remaining_size: u64,
    pub reduce_only: bool,
    pub timestamp: u64,
}

#[derive(Clone, Copy, Debug)]
pub struct FundingRateUpdated {
    pub oracle_price: u64,
    pub mark_price: u64,
    pub premium_index: i64,
    pub funding_rate: i64,
    pub timestamp: u64,
}

#[derive(Clone, Copy, Debug)]
pub struct PositionLiquidated {
    pub user: AccountKey,
    pub liquidator: AccountKey,
    pub side: Side,
    pub size: u64,
    pub position_value: u64,
    pub maintenance_margin: u64,
    pub liquidation_fee: u64,
    pub remaining: u64,
    pub oracle_price: u64,
    pub timestamp: u64,
}

#[derive(Clone, Copy, Debug)]
pub struct CollateralDeposited {
    pub user: AccountKey,
    pub amount: u64,
    pub total_margin: u64,
    pub timestamp: u64,
}

#[derive(Clone, Copy, Debug)]
pub struct CollateralWithdrawn {
    pub user: AccountKey,
    pub amount: u64,
    pub remaining_margin: u64,
    pub timestamp: u64,
}

#[derive(Clone, Copy, Debug)]
pub struct PositionUpdated {
    pub user: AccountKey,
    pub side: Side,
    pub size: u64,
    pub margin: u64,
    pub entry_price: u64,
    pub leverage: u16,
    pub realized_pnl: i64,
    pub liquidation_price: u64,
    pub timestamp: u64,
}

} // verus!
