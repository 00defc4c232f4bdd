use vstd::prelude::*;
use crate::types::{AccountKey, Side};

verus! {

/// An order: the request as it came in, and how much of it is still open.
#[derive(Clone, Copy, Debug)]
pub struct Order {
    pub id: u64,
    pub client_id: u64,
    pub user: AccountKey,
    pub side: Side,
    pub price: u64,
    pub size: u64,
    pub remaining_size: u64,
    pub time_in_force: u8,
    pub timestamp: u64,
    pub reduce_only: bool,
    pub post_only: bool,
}

impl Order {
    /// The fill state is sane: what is open never exceeds what was asked.
    pub open spec fn wf(&self) -> bool {
        self.remaining_size <= self.size
    }

    /// A fresh order with nothing filled yet.
    pub fn new(
        id: u64,
        client_id: u64,
        user: AccountKey,
        side: Side,
        price: u64,
        size: u64,
        time_in_force: u8,
        reduce_only: bool,
        post_only: bool,
        timestamp: u64,
    ) -> (r: Order)
        ensures
            r.wf(),
            r == (Order {
                id,
                client_id,
                user,
                side,
                price,
                size,
                remaining_size: size,
                time_in_force,
                timestamp,
                reduce_only,
                post_only,
            }),
    {
        Order {
            id,
            client_id,
            user,
            side,
            price,
            size,
            remaining_size: size,
            time_in_force,
            timestamp,
            reduce_only,
            post_only,
        }
    }

    pub fn is_filled(&self) -> (r: bool)
        ensures
            r == (self.remaining_size == 0),
    {
        self.remaining_size == 0
    }

    /// The same order with `remaining` left open.
    pub open spec fn with_remaining(self, remaining: u64) -> Order {
        Order { remaining_size: remaining, ..self }
    }
}

} // verus!
