//! The matching engine: admission of orders, one book per symbol, matching
//! and cancellation.

use vstd::prelude::*;
use vstd::string::*;
use crate::clock::get_timestamp;
use crate::model::{fills_of, rejection, rejection_context, rejection_text, BookView, EngineView};
use crate::orderbook::OrderBook;
use crate::proofs::{lemma_cancel_keeps, lemma_process_keeps, lemma_sweep_keeps};
use crate::text::{push_decimal, push_price, push_side};
use crate::types::{Order, OrderId, OrderType, Side, Symbol, Trade};

verus! {

/// The place of `symbol` among `symbols`.
spec fn slot(symbols: Seq<String>, symbol: Seq<char>) -> int {
    choose|i: int| 0 <= i < symbols.len() && symbols[i]@ == symbol
}

/// Matches incoming orders against the books of their symbols.
pub struct MatchingEngine {
    /// The symbols that have a book, each once, in the order in which their
    /// books were made.
    symbols: Vec<Symbol>,
    /// The book of each symbol, at the symbol's place.
    books: Vec<OrderBook>,
    /// The id that the next admitted order gets.
    next_order_id: OrderId,
}

impl View for MatchingEngine {
    type V = EngineView;

    closed spec fn view(&self) -> EngineView {
        EngineView {
            books: Map::new(
                |symbol: Seq<char>|
                    exists|i: int| 0 <= i < self.symbols@.len() && self.symbols@[i]@ == symbol,
                |symbol: Seq<char>| self.books@[slot(self.symbols@, symbol)]@,
            ),
            next_order_id: self.next_order_id,
        }
    }
}

/// The message that refuses `order` for the reason that `reason` words.
fn rejection_message(reason: &str, order: &Order) -> (message: String)
    ensures
        message@ == "Invalid order: "@ + reason@ + rejection_context(*order),
{
    let mut message = String::from_str("Invalid order: ");
    message.append(reason);
    message.append("; (symbol=");
    message.append(order.symbol.as_str());
    message.append(", side=");
    push_side(&mut message, order.side);
    message.append(", price=");
    push_price(&mut message, order.price);
    message.append(", qty=");
    push_decimal(&mut message, order.quantity);
    message.append(")");
    assert(message@ =~= "Invalid order: "@ + reason@ + rejection_context(*order));
    message
}

impl MatchingEngine {
    /// Whether every symbol has its book and none occurs twice.
    pub closed spec fn inv(&self) -> bool {
        &&& self.symbols@.len() == self.books@.len()
        &&& forall|i: int, j: int|
            0 <= i < j < self.symbols@.len() ==> self.symbols@[i]@ != self.symbols@[j]@
    }

    /// Whether the engine satisfies its invariant.
    pub open spec fn wf(&self) -> bool {
        self.inv() && self@.wf()
    }

    /// The book at a symbol's place is the book of that symbol.
    proof fn lemma_book_at(&self, i: int)
        requires
            self.inv(),
            0 <= i < self.symbols@.len(),
        ensures
            self@.books.contains_key(self.symbols@[i]@),
            self@.books[self.symbols@[i]@] == self.books@[i]@,
    {
        let j = slot(self.symbols@, self.symbols@[i]@);
        assert(0 <= j < self.symbols@.len() && self.symbols@[j]@ == self.symbols@[i]@);
    }

    /// An engine that differs from `self` in the book at place `i` only has
    /// the books of `self` but for that of the symbol at `i`.
    proof fn lemma_book_replaced(&self, after: &MatchingEngine, i: int)
        requires
            self.inv(),
            0 <= i < self.symbols@.len(),
            after.symbols@ == self.symbols@,
            after.books@.len() == self.books@.len(),
            forall|j: int|
                0 <= j < self.books@.len() && j != i ==> after.books@[j] == self.books@[j],
            after.next_order_id == self.next_order_id,
        ensures
            after.inv(),
            after@ == self@.with_book(self.symbols@[i]@, after.books@[i]@),
    {
        let symbol = self.symbols@[i]@;
        let expected = self@.with_book(symbol, after.books@[i]@);
        assert forall|s: Seq<char>| #[trigger]
            expected.books.contains_key(s) implies after@.books[s] == expected.books[s] by {
            let j = slot(self.symbols@, s);
            if s == symbol {
                assert(self.symbols@[i]@ == s);
                assert(j == i);
            } else {
                assert(j != i);
            }
        }
        assert(after@.books =~= expected.books);
    }

    /// An engine with no book, whose first order gets the id 1.
    pub fn new() -> (engine: MatchingEngine)
        ensures
            engine@ == EngineView::empty(),
            engine.wf(),
    {
        let engine = MatchingEngine { symbols: Vec::new(), books: Vec::new(), next_order_id: 1 };
        assert(engine@.books =~= Map::empty());
        engine
    }

    /// The id that the next admitted order gets.
    pub fn next_order_id(&self) -> (id: OrderId)
        ensures
            id == self@.next_order_id,
    {
        self.next_order_id
    }

    /// Admits `order` or refuses it. An admitted order gets the next id and
    /// the time by the clock, and is matched against the book of its
    /// symbol; its trades are returned in the order in which they
    /// occurred. A refused order changes nothing and uses up no id.
    pub fn submit_order(&mut self, order: Order) -> (result: Result<Vec<Trade>, String>)
        requires
            old(self).wf(),
            old(self)@.next_order_id < u64::MAX,
        ensures
            final(self).wf(),
            match result {
                Ok(trades) => rejection(order) is None && exists|timestamp: u64|
                    {
                        &&& final(self)@ == #[trigger] old(self)@.submit(order, timestamp)
                        &&& fills_of(trades@) == old(self)@.outcome(
                            old(self)@.admitted(order, timestamp),
                        ).fills
                    },
                Err(message) => {
                    &&& rejection(order) matches Some(reason)
                    &&& message@ == rejection_text(reason, order)
                    &&& final(self)@ == old(self)@
                },
            },
    {
        match Self::validate_order(&order) {
            Ok(_) => {},
            Err(message) => {
                return Err(message);
            },
        }
        let mut order = order;
        let ghost submitted = order;
        order.id = self.next_order_id;
        self.next_order_id = self.next_order_id + 1;
        order.timestamp = get_timestamp();
        let ghost admitted = old(self)@.admitted(submitted, order.timestamp);
        proof {
            assert(order == admitted);
            assert(self@.books == old(self)@.books);
            assert forall|symbol: Seq<char>| #[trigger]
                self@.books.contains_key(symbol) implies EngineView::book_wf(
                self@.books[symbol],
                self@.next_order_id,
            ) by {
                assert(EngineView::book_wf(old(self)@.books[symbol], old(self)@.next_order_id));
            }
            assert(self@.outcome(order) == old(self)@.outcome(admitted));
        }
        let trades = self.process_order(order);
        proof {
            assert(self@ == old(self)@.submit(submitted, admitted.timestamp));
        }
        Ok(trades)
    }

    /// Says whether `order` may be admitted, and if not, why. The quantity
    /// must not be zero, the symbol must not be empty, and a limit order
    /// must carry a price that is not zero; the first of these that fails
    /// gives the reason.
    pub fn validate_order(order: &Order) -> (result: Result<(), String>)
        ensures
            match result {
                Ok(_) => rejection(*order) is None,
                Err(message) => rejection(*order) matches Some(reason) && message@
                    == rejection_text(reason, *order),
            },
    {
        if order.quantity == 0 {
            return Err(rejection_message("Quantity must be greater than 0", order));
        }
        if order.symbol.as_str().is_empty() {
            return Err(rejection_message("Symbol cannot be empty", order));
        }
        if order.order_type == OrderType::Limit {
            match order.price {
                None => {
                    return Err(rejection_message("Limit order requires price", order));
                },
                Some(price) => {
                    if price == 0 {
                        return Err(rejection_message("Price must be greater than 0", order));
                    }
                },
            }
        }
        Ok(())
    }

    /// The place of the book of `symbol`, if there is one.
    fn find_book(&self, symbol: &str) -> (place: Option<usize>)
        requires
            self.inv(),
        ensures
            match place {
                Some(i) => i < self.books@.len() && self.symbols@[i as int]@ == symbol@
                    && self@.books.contains_key(symbol@) && self@.books[symbol@]
                    == self.books@[i as int]@,
                None => !self@.books.contains_key(symbol@),
            },
    {
        let wanted = symbol.to_owned();
        let mut i: usize = 0;
        while i < self.symbols.len()
            invariant
                self.inv(),
                i <= self.symbols@.len(),
                wanted@ == symbol@,
                forall|j: int| 0 <= j < i ==> self.symbols@[j]@ != symbol@,
            decreases self.symbols.len() - i,
        {
            if self.symbols[i] == wanted {
                proof {
                    self.lemma_book_at(i as int);
                }
                return Some(i);
            }
            i += 1;
        }
        None
    }

    /// The place of the book of `symbol`, which is made if there is none.
    fn get_or_create_book(&mut self, symbol: &str) -> (place: usize)
        requires
            old(self).wf(),
        ensures
            final(self).wf(),
            final(self)@ == old(self)@.with_book(symbol@, old(self)@.book(symbol@)),
            place < final(self).books@.len(),
            final(self).symbols@[place as int]@ == symbol@,
            final(self).books@[place as int]@ == old(self)@.book(symbol@),
    {
        match self.find_book(symbol) {
            Some(place) => {
                assert(self@.books =~= old(self)@.with_book(
                    symbol@,
                    old(self)@.book(symbol@),
                ).books);
                place
            },
            None => {
                let place = self.symbols.len();
                self.symbols.push(symbol.to_owned());
                self.books.push(OrderBook::new());
                proof {
                    let expected = old(self)@.with_book(symbol@, BookView::empty());
                    assert forall|i: int, j: int|
                        0 <= i < j < self.symbols@.len() implies self.symbols@[i]@
                        != self.symbols@[j]@ by {
                        if j < place {
                            assert(self.symbols@[i] == old(self).symbols@[i]);
                            assert(self.symbols@[j] == old(self).symbols@[j]);
                        } else {
                            assert(self.symbols@[i] == old(self).symbols@[i]);
                            assert(old(self)@.books.contains_key(old(self).symbols@[i]@));
                        }
                    }
                    assert(self.inv());
                    self.lemma_book_at(place as int);
                    assert forall|s: Seq<char>| #[trigger]
                        expected.books.contains_key(s) implies self@.books.contains_key(s)
                        && self@.books[s] == expected.books[s] by {
                        if s != symbol@ {
                            let j = slot(old(self).symbols@, s);
                            assert(self.symbols@[j] == old(self).symbols@[j]);
                            assert(slot(self.symbols@, s) == j);
                            assert(self.books@[j] == old(self).books@[j]);
                        }
                    }
                    assert forall|s: Seq<char>| #[trigger]
                        self@.books.contains_key(s) implies expected.books.contains_key(s) by {
                        let j = slot(self.symbols@, s);
                        if j < place {
                            assert(self.symbols@[j] == old(self).symbols@[j]);
                        }
                    }
                    assert(self@.books =~= expected.books);
                }
                place
            },
        }
    }

    /// The book of `symbol`, if there is one.
    pub fn get_order_book(&self, symbol: &str) -> (book: Option<&OrderBook>)
        requires
            self.wf(),
        ensures
            match book {
                Some(book) => self@.books.contains_key(symbol@) && book@ == self@.books[symbol@]
                    && book.wf(),
                None => !self@.books.contains_key(symbol@),
            },
    {
        match self.find_book(symbol) {
            Some(place) => Some(&self.books[place]),
            None => None,
        }
    }

    /// Processes an order that has been admitted: it is matched against the
    /// book of its symbol, which is made if there is none, and what is left
    /// of a limit order then rests in that book. The trades are returned in
    /// the order in which they occurred.
    pub fn process_order(&mut self, order: Order) -> (trades: Vec<Trade>)
        requires
            old(self).wf(),
            old(self)@.admits(order),
        ensures
            final(self).wf(),
            final(self)@ == old(self)@.process(order),
            fills_of(trades@) == old(self)@.outcome(order).fills,
    {
        let ghost order0 = order;
        let ghost book0 = self@.book(order.symbol@);
        let ghost swept = book0.sweep(order);
        proof {
            if self@.books.contains_key(order.symbol@) {
                assert(EngineView::book_wf(book0, self@.next_order_id));
            }
            lemma_sweep_keeps(book0, order);
            lemma_process_keeps(book0, order, self@.next_order_id);
        }
        let mut order = order;
        let mut trades: Vec<Trade> = Vec::new();
        match order.side {
            Side::Buy => self.match_buy_order(&mut order, &mut trades),
            Side::Sell => self.match_sell_order(&mut order, &mut trades),
        }
        assert(trades@.skip(0) =~= trades@);
        let rests = order.quantity > 0 && order.order_type == OrderType::Limit
            && order.price.is_some();
        if rests {
            let ghost engine1 = *self;
            let place = self.get_or_create_book(order.symbol.as_str());
            let ghost engine2 = *self;
            assert(self.books@[place as int]@ == swept.book);
            self.books[place].add_order(order);
            proof {
                engine2.lemma_book_at(place as int);
                engine2.lemma_book_replaced(self, place as int);
                assert(self.books@[place as int]@ == swept.book.add(order0.with_quantity(
                    swept.remaining,
                )));
                assert(self@.books =~= old(self)@.process(order0).books);
            }
        }
        proof {
            let symbol = order0.symbol@;
            let after = old(self)@.process(order0);
            assert(self@.books =~= after.books);
            assert(self@ == after);
            assert forall|s: Seq<char>| #[trigger]
                after.books.contains_key(s) implies EngineView::book_wf(
                after.books[s],
                after.next_order_id,
            ) by {
                if s != symbol {
                    assert(old(self)@.books.contains_key(s));
                }
            }
        }
        trades
    }

    /// Matches an incoming buy order against the asks of its symbol, from
    /// the lowest price up to the order's limit. Each fill is appended to
    /// `trades` and taken from `order`.
    fn match_buy_order(&mut self, order: &mut Order, trades: &mut Vec<Trade>)
        requires
            old(self).wf(),
            old(order).side == Side::Buy,
        ensures
            final(self).wf(),
            final(self)@ == old(self)@.with_book(
                old(order).symbol@,
                old(self)@.book(old(order).symbol@).sweep(*old(order)).book,
            ),
            *final(order) == old(order).with_quantity(
                old(self)@.book(old(order).symbol@).sweep(*old(order)).remaining,
            ),
            old(trades)@.is_prefix_of(final(trades)@),
            fills_of(final(trades)@.skip(old(trades)@.len() as int)) == old(self)@.book(
                old(order).symbol@,
            ).sweep(*old(order)).fills,
    {
        let place = self.get_or_create_book(order.symbol.as_str());
        let limit = match order.order_type {
            OrderType::Limit => match order.price {
                Some(price) => price,
                None => u64::MAX,
            },
            OrderType::Market => u64::MAX,
        };
        let prices = self.books[place].asks_range_at_or_below(limit);
        let ghost engine1 = *self;
        proof {
            engine1.lemma_book_at(place as int);
        }
        self.books[place].match_levels(Side::Sell, &prices, order, trades);
        proof {
            engine1.lemma_book_replaced(self, place as int);
            assert(self@.books =~= old(self)@.with_book(
                old(order).symbol@,
                old(self)@.book(old(order).symbol@).sweep(*old(order)).book,
            ).books);
            self.lemma_swept(old(self), *old(order));
        }
    }

    /// Matches an incoming sell order against the bids of its symbol, from
    /// the highest price down to the order's limit. Each fill is appended
    /// to `trades` and taken from `order`.
    fn match_sell_order(&mut self, order: &mut Order, trades: &mut Vec<Trade>)
        requires
            old(self).wf(),
            old(order).side == Side::Sell,
        ensures
            final(self).wf(),
            final(self)@ == old(self)@.with_book(
                old(order).symbol@,
                old(self)@.book(old(order).symbol@).sweep(*old(order)).book,
            ),
            *final(order) == old(order).with_quantity(
                old(self)@.book(old(order).symbol@).sweep(*old(order)).remaining,
            ),
            old(trades)@.is_prefix_of(final(trades)@),
            fills_of(final(trades)@.skip(old(trades)@.len() as int)) == old(self)@.book(
                old(order).symbol@,
            ).sweep(*old(order)).fills,
    {
        let place = self.get_or_create_book(order.symbol.as_str());
        let limit = match order.order_type {
            OrderType::Limit => match order.price {
                Some(price) => price,
                None => 0,
            },
            OrderType::Market => 0,
        };
        let prices = self.books[place].bids_range_at_or_above(limit);
        let ghost engine1 = *self;
        proof {
            engine1.lemma_book_at(place as int);
        }
        self.books[place].match_levels(Side::Buy, &prices, order, trades);
        proof {
            engine1.lemma_book_replaced(self, place as int);
            assert(self@.books =~= old(self)@.with_book(
                old(order).symbol@,
                old(self)@.book(old(order).symbol@).sweep(*old(order)).book,
            ).books);
            self.lemma_swept(old(self), *old(order));
        }
    }

    /// An engine that is `before` with the book of the symbol of `taker`
    /// matched against `taker` satisfies the invariant if `before` does.
    proof fn lemma_swept(&self, before: &MatchingEngine, taker: Order)
        requires
            before.wf(),
            self.inv(),
            self@ == before@.with_book(
                taker.symbol@,
                before@.book(taker.symbol@).sweep(taker).book,
            ),
        ensures
            self.wf(),
    {
        let book0 = before@.book(taker.symbol@);
        if before@.books.contains_key(taker.symbol@) {
            assert(EngineView::book_wf(book0, before@.next_order_id));
        }
        lemma_sweep_keeps(book0, taker);
        let swept = book0.sweep(taker).book;
        assert(swept.uncrossed()) by {
            assert forall|b: u64, a: u64|
                #[trigger] swept.bids.contains_key(b) && #[trigger] swept.asks.contains_key(
                    a,
                ) implies b < a by {
                assert(swept.side(Side::Buy).contains_key(b));
                assert(swept.side(Side::Sell).contains_key(a));
                assert(book0.side(Side::Buy).contains_key(b));
                assert(book0.side(Side::Sell).contains_key(a));
                assert(book0.bids.contains_key(b) && book0.asks.contains_key(a));
            }
        }
        assert(swept.ids_below(before@.next_order_id)) by {
            assert(book0.ids_below(before@.next_order_id));
            assert forall|id: u64| #[trigger] swept.locations.contains_key(id) implies id
                < before@.next_order_id by {
                assert(book0.locations.contains_key(id));
            }
        }
        assert(EngineView::book_wf(swept, before@.next_order_id));
        assert forall|s: Seq<char>| #[trigger]
            self@.books.contains_key(s) implies EngineView::book_wf(
            self@.books[s],
            self@.next_order_id,
        ) by {
            if s != taker.symbol@ {
                assert(before@.books.contains_key(s));
                assert(EngineView::book_wf(before@.books[s], before@.next_order_id));
            }
        }
    }

    /// Cancels the order `order_id` in the book of `symbol`. Returns whether
    /// the order rested there; if not, nothing changes.
    pub fn cancel_order(&mut self, symbol: &str, order_id: OrderId) -> (cancelled: bool)
        requires
            old(self).wf(),
        ensures
            final(self).wf(),
            cancelled == old(self)@.rests(symbol@, order_id),
            final(self)@ == old(self)@.cancel(symbol@, order_id),
            !cancelled ==> final(self)@ == old(self)@,
    {
        match self.find_book(symbol) {
            Some(place) => {
                let ghost engine1 = *self;
                proof {
                    assert(EngineView::book_wf(self@.books[symbol@], self@.next_order_id));
                    lemma_cancel_keeps(self@.books[symbol@], order_id, self@.next_order_id);
                }
                let cancelled = self.books[place].cancel_order(order_id);
                proof {
                    engine1.lemma_book_replaced(self, place as int);
                    if !cancelled {
                        assert(self@.books =~= old(self)@.books);
                    }
                    let after = old(self)@.cancel(symbol@, order_id);
                    assert forall|s: Seq<char>| #[trigger]
                        after.books.contains_key(s) implies EngineView::book_wf(
                        after.books[s],
                        after.next_order_id,
                    ) by {
                        if s != symbol@ {
                            assert(old(self)@.books.contains_key(s));
                        }
                    }
                }
                cancelled
            },
            None => false,
        }
    }
}

} // verus!
