// Exchange core for one market: a price-level order book with price-time matching, and a
// ledger of perpetual positions with margin, funding and liquidation.
//
// types: keys, sides, order kinds, statuses, errors, risk parameters
// order, position: the two value types and their arithmetic
// orderbook: price levels, their ordering invariant, insertion and removal
// matching: the walk of an incoming order across the opposite side
// market: the market's parameters and its position ledger
// exchange: the operations, each all-or-nothing
// oracle: feed ids and oracle price scaling
// events: what each operation reports

use vstd::prelude::*;

pub mod types;
pub mod order;
pub mod position;
pub mod orderbook;
pub mod events;
pub mod matching;
pub mod market;
pub mod exchange;
pub mod oracle;

verus! {

} // verus!
