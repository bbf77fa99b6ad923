//! The mathematical model of an order book and of matching.
//!
//! A book is a pair of price ladders, each a map from a price to the queue
//! of orders resting at it, together with the index that locates every
//! resting order by its id. Matching is defined one fill at a time: the
//! incoming order trades with the head of the best opposite level for as
//! long as that level's price is acceptable to it.

use vstd::prelude::*;
use crate::text::{decimal, price_text, side_text};
use crate::types::{Order, OrderType, Side, Trade};

verus! {

/// What a trade states apart from the moment it was executed at.
pub struct Fill {
    /// The id of the buy order.
    pub buyer_order_id: u64,
    /// The id of the sell order.
    pub seller_order_id: u64,
    /// The price of the execution.
    pub price: u64,
    /// The quantity executed.
    pub quantity: u64,
}

impl Fill {
    /// The id of the resting order of this fill, made by an incoming order
    /// on `taker_side`.
    pub open spec fn resting_order_id(self, taker_side: Side) -> u64 {
        match taker_side {
            Side::Buy => self.seller_order_id,
            Side::Sell => self.buyer_order_id,
        }
    }

    /// The id of the incoming order of this fill, which was on `taker_side`.
    pub open spec fn incoming_order_id(self, taker_side: Side) -> u64 {
        match taker_side {
            Side::Buy => self.buyer_order_id,
            Side::Sell => self.seller_order_id,
        }
    }
}

/// The quantity that `fills` trade in all.
pub open spec fn filled(fills: Seq<Fill>) -> nat
    decreases fills.len(),
{
    if fills.len() == 0 {
        0
    } else {
        fills[0].quantity as nat + filled(fills.drop_first())
    }
}

/// The quantity that `fills`, made by an incoming order on `taker_side`,
/// take from the resting order `id`.
pub open spec fn filled_from(fills: Seq<Fill>, taker_side: Side, id: u64) -> nat
    decreases fills.len(),
{
    if fills.len() == 0 {
        0
    } else {
        (if fills[0].resting_order_id(taker_side) == id {
            fills[0].quantity as nat
        } else {
            0
        }) + filled_from(fills.drop_first(), taker_side, id)
    }
}

impl Trade {
    /// The fill that this trade records.
    pub open spec fn fill(self) -> Fill {
        Fill {
            buyer_order_id: self.buyer_order_id,
            seller_order_id: self.seller_order_id,
            price: self.price,
            quantity: self.quantity,
        }
    }
}

/// The fills that a sequence of trades records, in order.
pub open spec fn fills_of(trades: Seq<Trade>) -> Seq<Fill> {
    trades.map_values(|t: Trade| t.fill())
}

/// One side of a book: the queue of resting orders at each price that has
/// any, the earliest arrival first.
pub type Levels = Map<u64, Seq<Order>>;

/// Where each resting order is: its side and its price, by order id.
pub type Locations = Map<u64, (Side, u64)>;

/// Whether, for orders resting on `side`, price `p` is at least as good as
/// price `q`: higher for bids, lower for asks.
pub open spec fn at_least_as_good(side: Side, p: u64, q: u64) -> bool {
    match side {
        Side::Buy => p >= q,
        Side::Sell => p <= q,
    }
}

/// Whether `p` is the best price among the levels of `side`.
pub open spec fn is_best(levels: Levels, side: Side, p: u64) -> bool {
    &&& levels.contains_key(p)
    &&& forall|q: u64| levels.contains_key(q) ==> at_least_as_good(side, p, q)
}

/// The best price among the levels of `side`: the highest bid or the lowest
/// ask, if there is any level at all.
pub open spec fn best(levels: Levels, side: Side) -> Option<u64> {
    if exists|p: u64| is_best(levels, side, p) {
        Some(choose|p: u64| is_best(levels, side, p))
    } else {
        None
    }
}

/// Whether `levels` has no level at all.
pub open spec fn no_level(levels: Levels) -> bool {
    forall|p: u64| !levels.contains_key(p)
}

/// Whether `prices` lists, from the best on and each once, the prices of
/// the levels of `side` that are at least as good as `bound`.
pub open spec fn is_price_range(prices: Seq<u64>, levels: Levels, side: Side, bound: u64) -> bool {
    &&& forall|i: int, j: int|
        0 <= i < j < prices.len() ==> prices[i] != prices[j] && at_least_as_good(
            side,
            prices[i],
            prices[j],
        )
    &&& forall|i: int|
        0 <= i < prices.len() ==> levels.contains_key(#[trigger] prices[i]) && at_least_as_good(
            side,
            prices[i],
            bound,
        )
    &&& forall|p: u64|
        levels.contains_key(p) && at_least_as_good(side, p, bound) ==> prices.contains(p)
}

/// Whether the incoming order `taker` may trade at the resting price `p`.
/// A market order trades at any price, a limit buy at its price or lower,
/// a limit sell at its price or higher.
pub open spec fn accepts(taker: Order, p: u64) -> bool {
    match taker.limit_price() {
        None => true,
        Some(limit) => match taker.side {
            Side::Buy => p <= limit,
            Side::Sell => p >= limit,
        },
    }
}

/// Whether `o` is an order that may rest on `side` at `price`: a limit order
/// of that side and price with quantity left.
pub open spec fn rests_at(o: Order, side: Side, price: u64) -> bool {
    &&& o.side == side
    &&& o.price == Some(price)
    &&& o.order_type == OrderType::Limit
    &&& o.quantity > 0
}

/// Whether `level` is a valid queue for `side` at `price`: it is not empty,
/// holds only orders that rest there, each found there by the index, and no
/// id twice.
pub open spec fn level_wf(level: Seq<Order>, side: Side, price: u64, locations: Locations) -> bool {
    &&& level.len() > 0
    &&& forall|i: int|
        0 <= i < level.len() ==> {
            &&& rests_at(#[trigger] level[i], side, price)
            &&& locations.contains_key(level[i].id)
            &&& locations[level[i].id] == (side, price)
        }
    &&& forall|i: int, j: int| 0 <= i < j < level.len() ==> level[i].id != level[j].id
}

/// Whether every level of `levels` is a valid queue for `side`.
pub open spec fn levels_wf(levels: Levels, side: Side, locations: Locations) -> bool {
    forall|p: u64| #[trigger] levels.contains_key(p) ==> level_wf(levels[p], side, p, locations)
}

/// Whether ids increase along every queue of `levels`, so that the order
/// with the smaller id is the one that arrived first.
pub open spec fn levels_time_ordered(levels: Levels) -> bool {
    forall|p: u64, i: int, j: int|
        levels.contains_key(p) && 0 <= i < j < levels[p].len() ==> (#[trigger] levels[p][i]).id < (
        #[trigger] levels[p][j]).id
}

/// The quantity that rests in `level` in all.
pub open spec fn level_quantity(level: Seq<Order>) -> nat
    decreases level.len(),
{
    if level.len() == 0 {
        0
    } else {
        level_quantity(level.drop_last()) + level.last().quantity as nat
    }
}

/// The worst price there is for an order resting on `side`: every price is
/// at least as good.
pub open spec fn worst_price(side: Side) -> u64 {
    match side {
        Side::Buy => 0,
        Side::Sell => u64::MAX,
    }
}

/// The position in `level` of the order with the given id.
pub open spec fn position_of(level: Seq<Order>, id: u64) -> int {
    choose|i: int| 0 <= i < level.len() && level[i].id == id
}

/// The fill in which `taker` trades quantity `t` with the resting order
/// `resting`, at the resting price `p`.
pub open spec fn fill_between(taker: Order, resting: Order, p: u64, t: u64) -> Fill {
    match taker.side {
        Side::Buy => Fill {
            buyer_order_id: taker.id,
            seller_order_id: resting.id,
            price: p,
            quantity: t,
        },
        Side::Sell => Fill {
            buyer_order_id: resting.id,
            seller_order_id: taker.id,
            price: p,
            quantity: t,
        },
    }
}

/// The smaller of two quantities.
pub open spec fn min_quantity(a: u64, b: u64) -> u64 {
    if a <= b {
        a
    } else {
        b
    }
}

/// The state of one order book.
pub struct BookView {
    /// Resting buy orders by price.
    pub bids: Levels,
    /// Resting sell orders by price.
    pub asks: Levels,
    /// The side and price of every resting order, by id.
    pub locations: Locations,
}

/// The outcome of matching an incoming order against a book.
pub struct Matched {
    /// The book after the fills.
    pub book: BookView,
    /// The fills, in the order in which they occurred.
    pub fills: Seq<Fill>,
    /// The quantity of the incoming order that found no counterparty.
    pub remaining: u64,
}

impl Matched {
    /// This outcome with `fills` having occurred before its own.
    pub open spec fn preceded_by(self, fills: Seq<Fill>) -> Matched {
        Matched { book: self.book, fills: fills + self.fills, remaining: self.remaining }
    }
}

/// The worst price that the incoming order `taker` accepts: its limit, or
/// for a market order the worst price there is.
pub open spec fn worst_accepted(taker: Order) -> u64 {
    match taker.limit_price() {
        Some(limit) => limit,
        None => match taker.side {
            Side::Buy => u64::MAX,
            Side::Sell => 0,
        },
    }
}

impl BookView {
    /// The book with no resting order.
    pub open spec fn empty() -> BookView {
        BookView { bids: Map::empty(), asks: Map::empty(), locations: Map::empty() }
    }

    /// The levels of one side.
    pub open spec fn side(self, side: Side) -> Levels {
        match side {
            Side::Buy => self.bids,
            Side::Sell => self.asks,
        }
    }

    /// This book with the levels of one side replaced.
    pub open spec fn with_side(self, side: Side, levels: Levels) -> BookView {
        match side {
            Side::Buy => BookView { bids: levels, asks: self.asks, locations: self.locations },
            Side::Sell => BookView { bids: self.bids, asks: levels, locations: self.locations },
        }
    }

    /// This book with the location index replaced.
    pub open spec fn with_locations(self, locations: Locations) -> BookView {
        BookView { bids: self.bids, asks: self.asks, locations }
    }

    /// Whether an order rests at position `i` of the queue at `price` on
    /// `side`.
    pub open spec fn has_order_at(self, side: Side, price: u64, i: int) -> bool {
        self.side(side).contains_key(price) && 0 <= i < self.side(side)[price].len()
    }

    /// The order at position `i` of the queue at `price` on `side`.
    pub open spec fn order_at(self, side: Side, price: u64, i: int) -> Order {
        self.side(side)[price][i]
    }

    /// The quantity that the order `id` has resting in the book; zero if it
    /// does not rest there.
    pub open spec fn resting_quantity(self, id: u64) -> nat {
        if self.locations.contains_key(id) {
            let (side, price) = self.locations[id];
            let level = self.side(side)[price];
            level[position_of(level, id)].quantity as nat
        } else {
            0
        }
    }

    /// Whether the index entry of `id` leads to a resting order with that id.
    pub open spec fn holds(self, id: u64) -> bool {
        let (side, price) = self.locations[id];
        &&& self.side(side).contains_key(price)
        &&& exists|i: int|
            0 <= i < self.side(side)[price].len() && (#[trigger] self.side(side)[price][i]).id == id
    }

    /// The invariant of a book. No level is empty; every resting order is a
    /// limit order with quantity left that lies on its own side at its own
    /// price; no id rests twice; and the index holds exactly the resting
    /// ids, each with the side and price at which the order lies.
    pub open spec fn wf(self) -> bool {
        &&& levels_wf(self.bids, Side::Buy, self.locations)
        &&& levels_wf(self.asks, Side::Sell, self.locations)
        &&& forall|id: u64| #[trigger] self.locations.contains_key(id) ==> self.holds(id)
    }

    /// Whether, at every price, orders queue in the order of their ids.
    pub open spec fn time_ordered(self) -> bool {
        &&& levels_time_ordered(self.bids)
        &&& levels_time_ordered(self.asks)
    }

    /// Whether every resting order has an id below `bound`.
    pub open spec fn ids_below(self, bound: u64) -> bool {
        forall|id: u64| #[trigger] self.locations.contains_key(id) ==> id < bound
    }

    /// Whether no bid is priced at or above any ask.
    pub open spec fn uncrossed(self) -> bool {
        forall|b: u64, a: u64|
            #[trigger] self.bids.contains_key(b) && #[trigger] self.asks.contains_key(a) ==> b < a
    }

    /// The highest price with a resting buy order.
    pub open spec fn best_bid(self) -> Option<u64> {
        best(self.bids, Side::Buy)
    }

    /// The lowest price with a resting sell order.
    pub open spec fn best_ask(self) -> Option<u64> {
        best(self.asks, Side::Sell)
    }

    /// The book after `order` has been placed at the back of the queue of
    /// its side and price. An order without a price leaves the book as it
    /// is.
    pub open spec fn add(self, order: Order) -> BookView {
        match order.price {
            Some(p) => {
                let levels = self.side(order.side);
                let level = if levels.contains_key(p) {
                    levels[p]
                } else {
                    Seq::empty()
                };
                self.with_side(order.side, levels.insert(p, level.push(order))).with_locations(
                    self.locations.insert(order.id, (order.side, p)),
                )
            },
            None => self,
        }
    }

    /// The book after the order at position `i` of the queue at `price` on
    /// `side` has left it. A queue that becomes empty takes its level with
    /// it, and the order's id leaves the index.
    pub open spec fn remove_at(self, side: Side, price: u64, i: int) -> BookView {
        let levels = self.side(side);
        let level = levels[price];
        let rest = level.remove(i);
        self.with_side(
            side,
            if rest.len() == 0 {
                levels.remove(price)
            } else {
                levels.insert(price, rest)
            },
        ).with_locations(self.locations.remove(level[i].id))
    }

    /// The book after the order with the given id has been cancelled. An id
    /// that does not rest in the book leaves it as it is.
    pub open spec fn cancel(self, id: u64) -> BookView {
        if self.locations.contains_key(id) {
            let (side, price) = self.locations[id];
            self.remove_at(side, price, position_of(self.side(side)[price], id))
        } else {
            self
        }
    }

    /// The book after quantity `t` has been taken from the head of the queue
    /// at `price` on `side`. A head with quantity left stays at the front;
    /// an exhausted head leaves the book.
    pub open spec fn fill_head(self, side: Side, price: u64, t: u64) -> BookView {
        let levels = self.side(side);
        let head = levels[price][0];
        if t < head.quantity {
            self.with_side(
                side,
                levels.insert(
                    price,
                    levels[price].update(0, head.with_quantity((head.quantity - t) as u64)),
                ),
            )
        } else {
            self.remove_at(side, price, 0)
        }
    }

    /// The price at which `taker` trades next: the best price of the
    /// opposite side, if `taker` accepts it.
    pub open spec fn crossing(self, taker: Order) -> Option<u64> {
        let resting = taker.side.opposite();
        match best(self.side(resting), resting) {
            Some(p) => if accepts(taker, p) {
                Some(p)
            } else {
                None
            },
            None => None,
        }
    }

    /// Matching of the incoming order `taker` against this book. While
    /// `taker` has quantity left and accepts the best opposite price, it
    /// trades with the head of that level the smaller of the two
    /// quantities, at the level's price.
    pub open spec fn sweep(self, taker: Order) -> Matched
        decreases taker.quantity,
    {
        let resting = taker.side.opposite();
        match self.crossing(taker) {
            Some(p) => {
                let head = self.side(resting)[p][0];
                let t = min_quantity(taker.quantity, head.quantity);
                if t > 0 {
                    let rest = self.fill_head(resting, p, t).sweep(
                        taker.with_quantity((taker.quantity - t) as u64),
                    );
                    Matched {
                        book: rest.book,
                        fills: seq![fill_between(taker, head, p, t)] + rest.fills,
                        remaining: rest.remaining,
                    }
                } else {
                    Matched { book: self, fills: Seq::empty(), remaining: taker.quantity }
                }
            },
            None => Matched { book: self, fills: Seq::empty(), remaining: taker.quantity },
        }
    }

    /// Whether what is left of `order` after matching is to rest in the
    /// book: only a priced limit order with quantity left does.
    pub open spec fn remainder_rests(order: Order, remaining: u64) -> bool {
        remaining > 0 && order.limit_price() is Some
    }

    /// The processing of an admitted order: it is matched, and what is left
    /// of a limit order then rests at its price. What is left of a market
    /// order is dropped.
    pub open spec fn process(self, order: Order) -> Matched {
        let m = self.sweep(order);
        if Self::remainder_rests(order, m.remaining) {
            Matched {
                book: m.book.add(order.with_quantity(m.remaining)),
                fills: m.fills,
                remaining: m.remaining,
            }
        } else {
            m
        }
    }
}

/// Why an order is refused admission.
pub enum Rejection {
    /// The quantity is zero.
    ZeroQuantity,
    /// The symbol is empty.
    EmptySymbol,
    /// A limit order carries no price.
    MissingPrice,
    /// A limit order carries the price zero.
    ZeroPrice,
}

/// The reason for which `order` is refused, if it is. The quantity is
/// looked at first, then the symbol, then the price of a limit order.
pub open spec fn rejection(order: Order) -> Option<Rejection> {
    if order.quantity == 0 {
        Some(Rejection::ZeroQuantity)
    } else if order.symbol@.len() == 0 {
        Some(Rejection::EmptySymbol)
    } else if order.order_type == OrderType::Limit {
        match order.price {
            None => Some(Rejection::MissingPrice),
            Some(p) => if p == 0 {
                Some(Rejection::ZeroPrice)
            } else {
                None
            },
        }
    } else {
        None
    }
}

/// The words that name a reason.
pub open spec fn reason_text(reason: Rejection) -> Seq<char> {
    match reason {
        Rejection::ZeroQuantity => "Quantity must be greater than 0"@,
        Rejection::EmptySymbol => "Symbol cannot be empty"@,
        Rejection::MissingPrice => "Limit order requires price"@,
        Rejection::ZeroPrice => "Price must be greater than 0"@,
    }
}

/// The part of a rejection that says what was wrong.
pub open spec fn rejection_prefix(reason: Rejection) -> Seq<char> {
    "Invalid order: "@ + reason_text(reason)
}

/// The part of a rejection that shows the refused order.
pub open spec fn rejection_context(order: Order) -> Seq<char> {
    "; (symbol="@ + order.symbol@ + ", side="@ + side_text(order.side) + ", price="@ + price_text(
        order.price,
    ) + ", qty="@ + decimal(order.quantity as nat) + ")"@
}

/// The message with which `order` is refused for `reason`.
pub open spec fn rejection_text(reason: Rejection, order: Order) -> Seq<char> {
    rejection_prefix(reason) + rejection_context(order)
}

/// The state of a matching engine.
pub struct EngineView {
    /// The book of every symbol that has one.
    pub books: Map<Seq<char>, BookView>,
    /// The id that the next admitted order gets.
    pub next_order_id: u64,
}

impl EngineView {
    /// The engine with no book, whose first order gets the id 1.
    pub open spec fn empty() -> EngineView {
        EngineView { books: Map::empty(), next_order_id: 1 }
    }

    /// The book of `symbol`; the empty book if there is none yet.
    pub open spec fn book(self, symbol: Seq<char>) -> BookView {
        if self.books.contains_key(symbol) {
            self.books[symbol]
        } else {
            BookView::empty()
        }
    }

    /// This engine with `book` as the book of `symbol`.
    pub open spec fn with_book(self, symbol: Seq<char>, book: BookView) -> EngineView {
        EngineView { books: self.books.insert(symbol, book), next_order_id: self.next_order_id }
    }

    /// What the engine keeps true of each of its books: the invariant of a
    /// book; orders queue by id; bids are priced below asks; and every
    /// resting id was issued before `next_order_id`.
    pub open spec fn book_wf(book: BookView, next_order_id: u64) -> bool {
        &&& book.wf()
        &&& book.time_ordered()
        &&& book.uncrossed()
        &&& book.ids_below(next_order_id)
    }

    /// The invariant of an engine.
    pub open spec fn wf(self) -> bool {
        &&& self.next_order_id >= 1
        &&& forall|symbol: Seq<char>| #[trigger]
            self.books.contains_key(symbol) ==> Self::book_wf(
                self.books[symbol],
                self.next_order_id,
            )
    }

    /// Whether `order` carries an id that this engine has issued and that
    /// is later than every id that rests in the book of its symbol.
    pub open spec fn admits(self, order: Order) -> bool {
        &&& order.id < self.next_order_id
        &&& self.book(order.symbol@).ids_below(order.id)
    }

    /// The order as it is admitted: under the next id, with the time of its
    /// admission.
    pub open spec fn admitted(self, order: Order, timestamp: u64) -> Order {
        Order {
            id: self.next_order_id,
            symbol: order.symbol,
            side: order.side,
            order_type: order.order_type,
            price: order.price,
            quantity: order.quantity,
            timestamp,
        }
    }

    /// The outcome of processing `order` in the book of its symbol.
    pub open spec fn outcome(self, order: Order) -> Matched {
        self.book(order.symbol@).process(order)
    }

    /// The engine after `order` has been processed.
    pub open spec fn process(self, order: Order) -> EngineView {
        self.with_book(order.symbol@, self.outcome(order).book)
    }

    /// The engine after `order` has been admitted at `timestamp` and
    /// processed.
    pub open spec fn submit(self, order: Order, timestamp: u64) -> EngineView {
        EngineView {
            books: self.process(self.admitted(order, timestamp)).books,
            next_order_id: (self.next_order_id + 1) as u64,
        }
    }

    /// The engine after the order `id` of `symbol` has been cancelled.
    pub open spec fn cancel(self, symbol: Seq<char>, id: u64) -> EngineView {
        if self.books.contains_key(symbol) {
            self.with_book(symbol, self.books[symbol].cancel(id))
        } else {
            self
        }
    }

    /// Whether the order `id` rests in the book of `symbol`.
    pub open spec fn rests(self, symbol: Seq<char>, id: u64) -> bool {
        self.books.contains_key(symbol) && self.books[symbol].locations.contains_key(id)
    }
}

} // verus!
