use vstd::prelude::*;

verus! {

/// Identity of an account (a user, a market, a liquidator): its 32-byte public key.
#[derive(Clone, Copy, Debug, Eq)]
pub struct AccountKey {
    pub bytes: [u8; 32],
}

impl PartialEq for AccountKey {
    fn eq(&self, o: &AccountKey) -> (r: bool) {
        let mut i: usize = 0;
        while i < 32
            invariant
                0 <= i <= 32,
                forall|j: int| 0 <= j < i ==> self.bytes@[j] == o.bytes@[j],
            decreases 32 - i,
        {
            if self.bytes[i] != o.bytes[i] {
                return false;
            }
            i = i + 1;
        }
        assert(self.bytes@ =~= o.bytes@);
        true
    }
}

impl View for AccountKey {
    type V = Seq<u8>;

    open spec fn view(&self) -> Seq<u8> {
        self.bytes@
    }
}

impl AccountKey {
    pub fn new(bytes: [u8; 32]) -> (r: AccountKey)
        ensures
            r.bytes == bytes,
    {
        AccountKey { bytes }
    }
}

impl vstd::std_specs::cmp::PartialEqSpecImpl for AccountKey {
    open spec fn obeys_eq_spec() -> bool {
        true
    }

    open spec fn eq_spec(&self, o: &AccountKey) -> bool {
        self.bytes@ == o.bytes@
    }
}

/// Which side of the book an order or a position is on: a bid buys (long), an ask sells (short).
#[derive(Clone, Copy, Debug, PartialEq, Eq, Structural)]
pub enum Side {
    Bid,
    Ask,
}

impl Side {
    pub open spec fn opposite(self) -> Side {
        match self {
            Side::Bid => Side::Ask,
            Side::Ask => Side::Bid,
        }
    }

    pub fn flip(self) -> (r: Side)
        ensures
            r == self.opposite(),
    {
        match self {
            Side::Bid => Side::Ask,
            Side::Ask => Side::Bid,
        }
    }
}

#[derive(Clone, Copy, Debug, PartialEq, Eq, Structural)]
pub enum OrderType {
    Limit,
    ImmediateOrCancel,
    PostOnly,
    Market,
}

/// What happens when an incoming order meets a resting order of the same user.
#[derive(Clone, Copy, Debug, PartialEq, Eq, Structural)]
pub enum SelfTradeBehavior {
    /// Match the two orders as if they belonged to different users.
    DecrementTake,
    /// Remove the resting order and go on matching.
    CancelMaker,
    /// Reject the whole operation.
    CancelTaker,
    /// Remove the resting order and drop what is left of the incoming one.
    CancelBoth,
}

#[derive(Clone, Copy, Debug, PartialEq, Eq, Structural)]
pub enum MarketStatus {
    Active,
    Paused,
    Closed,
}

#[derive(Clone, Copy, Debug, PartialEq, Eq, Structural)]
pub enum ErrorCode {
    InvalidParameters,
    OrderSizeTooSmall,
    InvalidTickSize,
    MarketInactive,
    OrderNotFound,
    InvalidOrderbook,
    InvalidVault,
    InvalidAuthority,
    PostOnlyWouldMatch,
    InvalidReduceOnlyOrder,
    InvalidReduceOnlySize,
    NoPositionToReduce,
    NotPerpetualMarket,
    FundingRateTooSoon,
    PositionNotFound,
    PositionNotLiquidatable,
    InsufficientMargin,
    WithdrawalWouldTriggerLiquidation,
    ExceedsMaxLeverage,
    AssetNotAvailable,
    InvalidRegistry,
    InvalidPriceFeed,
    InvalidOrderType,
    SelfTradePrevented,
    PriceOutOfRange,
    MarketFull,
    /// A quantity left the range of its integer type.
    MathOverflow,
}

impl ErrorCode {
    /// The message shown for the error.
    pub fn message(&self) -> (r: &'static str) {
        match self {
            ErrorCode::InvalidParameters => "Invalid parameters",
            ErrorCode::OrderSizeTooSmall => "Order size too small",
            ErrorCode::InvalidTickSize => "Invalid tick size",
            ErrorCode::MarketInactive => "Market inactive",
            ErrorCode::OrderNotFound => "Order not found",
            ErrorCode::InvalidOrderbook => "Invalid orderbook",
            ErrorCode::InvalidVault => "Invalid vault",
            ErrorCode::InvalidAuthority => "Invalid authority",
            ErrorCode::PostOnlyWouldMatch => "Post-only order would match",
            ErrorCode::InvalidReduceOnlyOrder => "Invalid reduce-only order - would increase position",
            ErrorCode::InvalidReduceOnlySize => "Invalid reduce-only size - exceeds position size",
            ErrorCode::NoPositionToReduce => "No position to reduce",
            ErrorCode::NotPerpetualMarket => "Not a perpetual market",
            ErrorCode::FundingRateTooSoon => "Funding rate update too soon",
            ErrorCode::PositionNotFound => "Position not found",
            ErrorCode::PositionNotLiquidatable => "Position not liquidatable",
            ErrorCode::InsufficientMargin => "Insufficient margin",
            ErrorCode::WithdrawalWouldTriggerLiquidation => "Withdrawal would trigger liquidation",
            ErrorCode::ExceedsMaxLeverage => "Exceeds maximum leverage",
            ErrorCode::AssetNotAvailable => "Asset not available or inactive",
            ErrorCode::InvalidRegistry => "Invalid registry",
            ErrorCode::InvalidPriceFeed => "Invalid price feed",
            ErrorCode::InvalidOrderType => "Invalid order type",
            ErrorCode::SelfTradePrevented => "Self-trade prevented",
            ErrorCode::PriceOutOfRange => "Price outside allowed range",
            ErrorCode::MarketFull => "Market full - too many orders or positions",
            ErrorCode::MathOverflow => "Arithmetic overflow",
        }
    }
}

/// Risk parameters of an asset, as the registry gives them (ratio and fee in basis points).
#[derive(Clone, Copy, Debug, PartialEq, Eq, Structural)]
pub struct AssetRiskParams {
    pub max_leverage: u16,
    pub maintenance_margin_ratio: u16,
    pub liquidation_fee: u16,
}

} // verus!
