//! The order model: an order, its side and lifecycle status, a resting book
//! entry, and the record of a successful match.
//!
//! Each executable type has a ghost view (`OrderV`, `EntryV`, `MatchV`) over
//! plain mathematical values; contracts speak of the views.

use vstd::prelude::*;

use crate::num::U256;

verus! {

/// The side of an order.
#[derive(Clone, Copy, Debug, PartialEq, Eq, Structural)]
pub enum OrderType {
    Buy,
    Sell,
}

/// The lifecycle status of an order.  It is carried through the book and the
/// snapshot but never transitioned by the matching pass.
#[derive(Clone, Copy, Debug, PartialEq, Eq, Structural)]
pub enum OrderStatus {
    Open,
    PartiallyFilled,
    Filled,
    Cancelled,
}

/// A single intent to trade, as decoded from an order-placement event.
#[derive(Clone, Debug)]
pub struct Order {
    pub id: u64,
    pub trader: Vec<u8>,
    pub order_type: OrderType,
    pub base_token: Vec<u8>,
    pub quote_token: Vec<u8>,
    pub price: U256,
    pub amount: U256,
    pub filled_amount: U256,
    pub status: OrderStatus,
    pub timestamp: u64,
}

/// The mathematical view of an `Order`.
#[verifier::ext_equal]
pub ghost struct OrderV {
    pub id: u64,
    pub trader: Seq<u8>,
    pub order_type: OrderType,
    pub base_token: Seq<u8>,
    pub quote_token: Seq<u8>,
    pub price: int,
    pub amount: int,
    pub filled_amount: int,
    pub status: OrderStatus,
    pub timestamp: u64,
}

impl View for Order {
    type V = OrderV;

    open spec fn view(&self) -> OrderV {
        OrderV {
            id: self.id,
            trader: self.trader@,
            order_type: self.order_type,
            base_token: self.base_token@,
            quote_token: self.quote_token@,
            price: self.price.val(),
            amount: self.amount.val(),
            filled_amount: self.filled_amount.val(),
            status: self.status,
            timestamp: self.timestamp,
        }
    }
}

/// A resting order together with its live remaining size.
#[derive(Clone, Debug)]
pub struct OrderBookEntry {
    pub order: Order,
    pub remaining_amount: U256,
}

/// The mathematical view of an `OrderBookEntry`.
#[verifier::ext_equal]
pub ghost struct EntryV {
    pub order: OrderV,
    pub remaining: int,
}

impl View for OrderBookEntry {
    type V = EntryV;

    open spec fn view(&self) -> EntryV {
        EntryV { order: self.order@, remaining: self.remaining_amount.val() }
    }
}

/// The outcome of one successful matching pass.
#[derive(Clone, Copy, Debug, PartialEq, Eq, Structural)]
pub struct MatchResult {
    pub buy_order_id: U256,
    pub sell_order_id: U256,
    pub match_amount: U256,
    pub match_price: U256,
}

/// The mathematical view of a `MatchResult`.
#[verifier::ext_equal]
pub ghost struct MatchV {
    pub buy_order_id: int,
    pub sell_order_id: int,
    pub match_amount: int,
    pub match_price: int,
}

impl View for MatchResult {
    type V = MatchV;

    open spec fn view(&self) -> MatchV {
        MatchV {
            buy_order_id: self.buy_order_id.val(),
            sell_order_id: self.sell_order_id.val(),
            match_amount: self.match_amount.val(),
            match_price: self.match_price.val(),
        }
    }
}

} // verus!
