//! Value types: orders, trades, sides and order kinds.

use vstd::prelude::*;
use vstd::string::*;
use crate::text::{decimal, push_decimal, push_side, side_text};

verus! {

/// Unique identifier of an order, assigned by the engine.
pub type OrderId = u64;

/// Instrument identifier, such as `"AAPL"`.
pub type Symbol = String;

/// Price in the smallest currency unit.
pub type Price = u64;

/// Quantity of the instrument.
pub type Quantity = u64;

/// The side of the market an order is on.
#[derive(Debug, Clone, Copy, PartialEq, Eq, Structural)]
pub enum Side {
    Buy,
    Sell,
}

impl Side {
    /// The side an order of this side trades against.
    pub open spec fn opposite(self) -> Side {
        match self {
            Side::Buy => Side::Sell,
            Side::Sell => Side::Buy,
        }
    }
}

/// How an order is priced.
#[derive(Debug, Clone, Copy, PartialEq, Eq, Structural)]
pub enum OrderType {
    /// Executes at once against the best available prices and never rests.
    Market,
    /// Executes only at its price or better; the remainder rests in the book.
    Limit,
}

/// A single order.
#[derive(Debug, Clone, PartialEq, Eq)]
pub struct Order {
    pub id: OrderId,
    pub symbol: Symbol,
    pub side: Side,
    pub order_type: OrderType,
    /// Present on limit orders; a market order carries no price.
    pub price: Option<Price>,
    pub quantity: Quantity,
    pub timestamp: u64,
}

impl Order {
    /// A limit order whose id and timestamp are still to be assigned by the
    /// engine.
    pub fn limit(symbol: Symbol, side: Side, price: Price, quantity: Quantity) -> (o: Order)
        ensures
            o == (Order {
                id: 0,
                symbol,
                side,
                order_type: OrderType::Limit,
                price: Some(price),
                quantity,
                timestamp: 0,
            }),
    {
        Order {
            id: 0,
            symbol,
            side,
            order_type: OrderType::Limit,
            price: Some(price),
            quantity,
            timestamp: 0,
        }
    }

    /// A market order whose id and timestamp are still to be assigned by the
    /// engine.
    pub fn market(symbol: Symbol, side: Side, quantity: Quantity) -> (o: Order)
        ensures
            o == (Order {
                id: 0,
                symbol,
                side,
                order_type: OrderType::Market,
                price: None,
                quantity,
                timestamp: 0,
            }),
    {
        Order {
            id: 0,
            symbol,
            side,
            order_type: OrderType::Market,
            price: None,
            quantity,
            timestamp: 0,
        }
    }

    /// Whether this is a buy order.
    pub fn is_buy(&self) -> (b: bool)
        ensures
            b == (self.side == Side::Buy),
    {
        self.side == Side::Buy
    }

    /// Whether this is a sell order.
    pub fn is_sell(&self) -> (b: bool)
        ensures
            b == (self.side == Side::Sell),
    {
        self.side == Side::Sell
    }

    /// The price bound that matching honours: the price of a limit order,
    /// and none for a market order, whatever its price field holds.
    pub open spec fn limit_price(self) -> Option<Price> {
        match self.order_type {
            OrderType::Limit => self.price,
            OrderType::Market => None,
        }
    }

    /// This order with its quantity replaced.
    pub open spec fn with_quantity(self, quantity: Quantity) -> Order {
        Order { quantity, ..self }
    }

    /// The text that describes this order: its id, its side, `MARKET` or
    /// `LIMIT` and the price, and its quantity.
    pub open spec fn text(self) -> Seq<char> {
        let head = "Order #"@ + decimal(self.id as nat) + ": "@ + side_text(self.side);
        let tail = decimal(self.quantity as nat) + " qty"@;
        match self.order_type {
            OrderType::Market => head + " MARKET "@ + tail,
            OrderType::Limit => head + " LIMIT "@ + decimal(self.price->0 as nat) + " "@ + tail,
        }
    }

    /// Describes this order for diagnostics.
    pub fn to_string(&self) -> (s: String)
        requires
            self.order_type == OrderType::Limit ==> self.price is Some,
        ensures
            s@ == self.text(),
    {
        let mut s = String::from_str("Order #");
        push_decimal(&mut s, self.id);
        s.append(": ");
        push_side(&mut s, self.side);
        match self.order_type {
            OrderType::Market => {
                s.append(" MARKET ");
            },
            OrderType::Limit => {
                s.append(" LIMIT ");
                match self.price {
                    Some(price) => push_decimal(&mut s, price),
                    None => {},
                }
                s.append(" ");
            },
        }
        push_decimal(&mut s, self.quantity);
        s.append(" qty");
        assert(s@ =~= self.text());
        s
    }
}

/// The execution of a quantity at a price between a buy and a sell order.
#[derive(Debug, Clone, PartialEq, Eq)]
pub struct Trade {
    pub buyer_order_id: OrderId,
    pub seller_order_id: OrderId,
    pub price: Price,
    pub quantity: Quantity,
    pub timestamp: u64,
}

impl Trade {
    pub fn new(
        buyer_order_id: OrderId,
        seller_order_id: OrderId,
        price: Price,
        quantity: Quantity,
        timestamp: u64,
    ) -> (t: Trade)
        ensures
            t == (Trade { buyer_order_id, seller_order_id, price, quantity, timestamp }),
    {
        Trade { buyer_order_id, seller_order_id, price, quantity, timestamp }
    }

    /// The text that describes this trade: its quantity, its price, and the
    /// ids of the buy and the sell order.
    pub open spec fn text(self) -> Seq<char> {
        "Trade: "@ + decimal(self.quantity as nat) + " shares @ "@ + decimal(self.price as nat)
            + " (Buy #"@ + decimal(self.buyer_order_id as nat) + ", Sell #"@ + decimal(
            self.seller_order_id as nat,
        ) + ")"@
    }

    /// Describes this trade for diagnostics.
    pub fn to_string(&self) -> (s: String)
        ensures
            s@ == self.text(),
    {
        let mut s = String::from_str("Trade: ");
        push_decimal(&mut s, self.quantity);
        s.append(" shares @ ");
        push_decimal(&mut s, self.price);
        s.append(" (Buy #");
        push_decimal(&mut s, self.buyer_order_id);
        s.append(", Sell #");
        push_decimal(&mut s, self.seller_order_id);
        s.append(")");
        assert(s@ =~= self.text());
        s
    }
}

} // verus!
