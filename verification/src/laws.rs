//! What holds of every book and every engine, whatever orders arrive.
//!
//! The executable functions state what they do over the model; the laws
//! here are proved of the model itself.

use vstd::prelude::*;
use crate::model::{
    accepts, at_least_as_good, best, fill_between, filled, filled_from, is_best, level_wf,
    levels_time_ordered, min_quantity, no_level, rests_at, BookView, EngineView, Levels,
    Matched,
};
use crate::proofs::{
    lemma_add_wf, lemma_best_exists, lemma_cancel_keeps, lemma_fill_head_quantity,
    lemma_fill_head_wf, lemma_position_unique, lemma_process_keeps, lemma_sweep_keeps,
    lemma_sweep_nothing, lemma_sweep_without_fills,
};
use crate::types::{Order, OrderType, Side};

verus! {

/// Submitting an order keeps the engine's invariant, whether the order
/// trades, rests, or does both.
pub proof fn law_submit_keeps_invariant(engine: EngineView, order: Order, timestamp: u64)
    requires
        engine.wf(),
        engine.next_order_id < u64::MAX,
    ensures
        engine.submit(order, timestamp).wf(),
{
    let admitted = engine.admitted(order, timestamp);
    let after = engine.submit(order, timestamp);
    let symbol = admitted.symbol@;
    let book = engine.book(symbol);
    if engine.books.contains_key(symbol) {
        assert(EngineView::book_wf(book, engine.next_order_id));
    }
    lemma_process_keeps(book, admitted, after.next_order_id);
    assert forall|s: Seq<char>| #[trigger] after.books.contains_key(s) implies EngineView::book_wf(
        after.books[s],
        after.next_order_id,
    ) by {
        if s != symbol {
            assert(engine.books.contains_key(s));
            assert(EngineView::book_wf(engine.books[s], engine.next_order_id));
        }
    }
}

/// Processing an admitted order keeps the engine's invariant.
pub proof fn law_process_keeps_invariant(engine: EngineView, order: Order)
    requires
        engine.wf(),
        engine.admits(order),
    ensures
        engine.process(order).wf(),
{
    let after = engine.process(order);
    let symbol = order.symbol@;
    let book = engine.book(symbol);
    if engine.books.contains_key(symbol) {
        assert(EngineView::book_wf(book, engine.next_order_id));
    }
    lemma_process_keeps(book, order, engine.next_order_id);
    assert forall|s: Seq<char>| #[trigger] after.books.contains_key(s) implies EngineView::book_wf(
        after.books[s],
        after.next_order_id,
    ) by {
        if s != symbol {
            assert(engine.books.contains_key(s));
        }
    }
}

/// Cancelling keeps the engine's invariant, whether or not the id rests.
pub proof fn law_cancel_keeps_invariant(engine: EngineView, symbol: Seq<char>, id: u64)
    requires
        engine.wf(),
    ensures
        engine.cancel(symbol, id).wf(),
{
    let after = engine.cancel(symbol, id);
    if engine.books.contains_key(symbol) {
        assert(EngineView::book_wf(engine.books[symbol], engine.next_order_id));
        lemma_cancel_keeps(engine.books[symbol], id, engine.next_order_id);
        assert forall|s: Seq<char>| #[trigger]
            after.books.contains_key(s) implies EngineView::book_wf(
            after.books[s],
            after.next_order_id,
        ) by {
            if s != symbol {
                assert(engine.books.contains_key(s));
            }
        }
    }
}

/// No level is empty: a price that is in a book has an order resting at it.
pub proof fn law_no_empty_level(book: BookView, side: Side, price: u64)
    requires
        book.wf(),
        book.side(side).contains_key(price),
    ensures
        book.side(side)[price].len() > 0,
{
    assert(level_wf(book.side(side)[price], side, price, book.locations));
}

/// Every resting order is a limit order of the side it rests on, priced at
/// the level it rests at, with quantity left. No market order rests.
pub proof fn law_resting_orders_are_limit_orders(book: BookView, side: Side, price: u64, i: int)
    requires
        book.wf(),
        book.has_order_at(side, price, i),
    ensures
        book.order_at(side, price, i).order_type == OrderType::Limit,
        book.order_at(side, price, i).price == Some(price),
        book.order_at(side, price, i).side == side,
        book.order_at(side, price, i).quantity > 0,
{
    let level = book.side(side)[price];
    assert(level_wf(level, side, price, book.locations));
    assert(rests_at(level[i], side, price));
}

/// A market order does not rest: what is left of it after matching is
/// dropped, and its own side of the book stays as it was.
pub proof fn law_market_order_does_not_rest(book: BookView, order: Order)
    requires
        book.wf(),
        order.order_type == OrderType::Market,
    ensures
        book.process(order) == book.sweep(order),
        book.process(order).book.side(order.side) == book.side(order.side),
{
    lemma_sweep_keeps(book, order);
}

/// The index knows every resting order, by its id, with the side and the
/// price at which it rests.
pub proof fn law_resting_order_is_indexed(book: BookView, side: Side, price: u64, i: int)
    requires
        book.wf(),
        book.has_order_at(side, price, i),
    ensures
        book.locations.contains_key(book.order_at(side, price, i).id),
        book.locations[book.order_at(side, price, i).id] == (side, price),
{
    let level = book.side(side)[price];
    assert(level_wf(level, side, price, book.locations));
    assert(rests_at(level[i], side, price));
}

/// The index knows resting orders only: an id in it belongs to an order
/// that rests on the side and at the price that the index gives.
pub proof fn law_indexed_order_rests(book: BookView, id: u64)
    requires
        book.wf(),
        book.locations.contains_key(id),
    ensures
        exists|i: int|
            book.has_order_at(book.locations[id].0, book.locations[id].1, i) && (
            #[trigger] book.order_at(book.locations[id].0, book.locations[id].1, i)).id == id,
{
    assert(book.holds(id));
    let (side, price) = book.locations[id];
    let i = choose|i: int|
        0 <= i < book.side(side)[price].len() && (#[trigger] book.side(side)[price][i]).id == id;
    assert(book.has_order_at(side, price, i) && book.order_at(side, price, i).id == id);
}

/// No id rests twice: two resting orders with one id are one order.
pub proof fn law_resting_ids_are_distinct(
    book: BookView,
    side: Side,
    price: u64,
    i: int,
    other_side: Side,
    other_price: u64,
    j: int,
)
    requires
        book.wf(),
        book.has_order_at(side, price, i),
        book.has_order_at(other_side, other_price, j),
        book.order_at(side, price, i).id == book.order_at(other_side, other_price, j).id,
    ensures
        side == other_side,
        price == other_price,
        i == j,
{
    law_resting_order_is_indexed(book, side, price, i);
    law_resting_order_is_indexed(book, other_side, other_price, j);
    let level = book.side(side)[price];
    assert(level_wf(level, side, price, book.locations));
    if i < j {
        assert(level[i].id != level[j].id);
    } else if j < i {
        assert(level[j].id != level[i].id);
    }
}

/// Ids are issued in increasing order: an admitted order gets the engine's
/// next id, and the order admitted after it gets the id after that.
pub proof fn law_ids_increase(
    engine: EngineView,
    first: Order,
    first_time: u64,
    second: Order,
    second_time: u64,
)
    requires
        engine.next_order_id < u64::MAX,
    ensures
        engine.admitted(first, first_time).id == engine.next_order_id,
        engine.submit(first, first_time).admitted(second, second_time).id == engine.next_order_id
            + 1,
{
}

/// An id is issued once: the id that the next order gets rests in no book,
/// nor does any later id.
pub proof fn law_next_id_is_unused(engine: EngineView, symbol: Seq<char>, id: u64)
    requires
        engine.wf(),
        id >= engine.next_order_id,
    ensures
        !engine.rests(symbol, id),
{
    if engine.books.contains_key(symbol) {
        assert(EngineView::book_wf(engine.books[symbol], engine.next_order_id));
    }
}

/// The best price of a side is one of its prices and at least as good as
/// every other; a side has none only if it has no level.
pub proof fn law_best_price(levels: Levels, side: Side)
    ensures
        match best(levels, side) {
            Some(p) => is_best(levels, side, p),
            None => no_level(levels),
        },
{
    if !no_level(levels) {
        let p = choose|p: u64| levels.contains_key(p);
        lemma_best_exists(levels, side, p);
    }
}

/// In a book of the engine, the bids are empty, or the asks are empty, or
/// the best bid is below the best ask.
pub proof fn law_best_bid_below_best_ask(engine: EngineView, symbol: Seq<char>)
    requires
        engine.wf(),
        engine.books.contains_key(symbol),
    ensures
        ({
            let book = engine.books[symbol];
            ||| no_level(book.bids)
            ||| no_level(book.asks)
            ||| (book.best_bid() matches Some(bid) && book.best_ask() matches Some(ask) && bid
                < ask)
        }),
{
    let book = engine.books[symbol];
    assert(EngineView::book_wf(book, engine.next_order_id));
    if !no_level(book.bids) && !no_level(book.asks) {
        let b = choose|b: u64| book.bids.contains_key(b);
        let a = choose|a: u64| book.asks.contains_key(a);
        lemma_best_exists(book.bids, Side::Buy, b);
        lemma_best_exists(book.asks, Side::Sell, a);
        assert(book.bids.contains_key(book.best_bid()->0));
        assert(book.asks.contains_key(book.best_ask()->0));
    }
}

/// A cancelled order rests no longer, so that cancelling it again finds
/// nothing.
pub proof fn law_cancelled_order_rests_no_longer(engine: EngineView, symbol: Seq<char>, id: u64)
    requires
        engine.wf(),
    ensures
        !engine.cancel(symbol, id).rests(symbol, id),
{
    if engine.rests(symbol, id) {
        let book = engine.books[symbol];
        assert(EngineView::book_wf(book, engine.next_order_id));
        assert(book.holds(id));
    }
}

/// Cancelling an id that does not rest in the book of the symbol changes
/// nothing.
pub proof fn law_cancel_unknown_changes_nothing(engine: EngineView, symbol: Seq<char>, id: u64)
    requires
        !engine.rests(symbol, id),
    ensures
        engine.cancel(symbol, id) == engine,
{
    assert(engine.cancel(symbol, id).books =~= engine.books);
}

/// A market order that finds no order on the other side makes no trade and
/// leaves the book as it was, so that the same order submitted again meets
/// the same book.
pub proof fn law_market_order_without_liquidity(book: BookView, order: Order)
    requires
        order.order_type == OrderType::Market,
        no_level(book.side(order.side.opposite())),
    ensures
        book.process(order) == (Matched { book, fills: Seq::empty(), remaining: order.quantity }),
{
    let resting = order.side.opposite();
    assert(best(book.side(resting), resting) is None) by {
        if let Some(p) = best(book.side(resting), resting) {
            assert(is_best(book.side(resting), resting, p));
        }
    }
    lemma_sweep_nothing(book, order);
}

/// Every fill is made at the price at which its resting order rested, which
/// the incoming order accepts, and names the incoming order as its other
/// party.
pub proof fn law_trade_price_is_resting_price(book: BookView, taker: Order, n: int)
    requires
        book.wf(),
        0 <= n < book.sweep(taker).fills.len(),
    ensures
        ({
            let fill = book.sweep(taker).fills[n];
            let id = fill.resting_order_id(taker.side);
            &&& book.locations.contains_key(id)
            &&& book.locations[id] == (taker.side.opposite(), fill.price)
            &&& accepts(taker, fill.price)
            &&& fill.incoming_order_id(taker.side) == taker.id
            &&& fill.quantity > 0
        }),
    decreases taker.quantity,
{
    let resting = taker.side.opposite();
    let p = book.crossing(taker)->0;
    let level = book.side(resting)[p];
    let head = level[0];
    let t = min_quantity(taker.quantity, head.quantity);
    assert(is_best(book.side(resting), resting, p));
    assert(level_wf(level, resting, p, book.locations));
    assert(rests_at(head, resting, p));
    if n > 0 {
        let next = book.fill_head(resting, p, t);
        let left = taker.with_quantity((taker.quantity - t) as u64);
        lemma_fill_head_wf(book, resting, p, t);
        law_trade_price_is_resting_price(next, left, n - 1);
        assert(book.sweep(taker).fills[n] == next.sweep(left).fills[n - 1]);
    }
}

/// Price priority: fills are made from the best price on. No fill is made
/// at a price better than that of a fill before it.
pub proof fn law_fills_go_from_the_best_price_on(book: BookView, taker: Order, m: int, n: int)
    requires
        book.wf(),
        0 <= m <= n < book.sweep(taker).fills.len(),
    ensures
        at_least_as_good(
            taker.side.opposite(),
            book.sweep(taker).fills[m].price,
            book.sweep(taker).fills[n].price,
        ),
    decreases taker.quantity,
{
    let resting = taker.side.opposite();
    let p = book.crossing(taker)->0;
    let head = book.side(resting)[p][0];
    let t = min_quantity(taker.quantity, head.quantity);
    let next = book.fill_head(resting, p, t);
    let left = taker.with_quantity((taker.quantity - t) as u64);
    assert(is_best(book.side(resting), resting, p));
    assert(level_wf(book.side(resting)[p], resting, p, book.locations));
    lemma_fill_head_wf(book, resting, p, t);
    if m > 0 {
        law_fills_go_from_the_best_price_on(next, left, m - 1, n - 1);
    } else if n > 0 {
        // The later fill is with an order that rested in the book, at a
        // price that is no better than the best.
        law_trade_price_is_resting_price(book, taker, n);
        let id = book.sweep(taker).fills[n].resting_order_id(taker.side);
        assert(book.holds(id));
    }
}

/// Matching goes on for as long as it can: when it is over, the incoming
/// order has nothing left, or the other side has no price left that the
/// order accepts.
pub proof fn law_matching_goes_on_while_it_can(book: BookView, taker: Order, price: u64)
    requires
        book.wf(),
        book.sweep(taker).remaining > 0,
        book.sweep(taker).book.side(taker.side.opposite()).contains_key(price),
    ensures
        !accepts(taker, price),
{
    let resting = taker.side.opposite();
    let swept = book.sweep(taker);
    lemma_sweep_keeps(book, taker);
    if accepts(taker, price) {
        lemma_best_exists(swept.book.side(resting), resting, price);
        let b = best(swept.book.side(resting), resting)->0;
        assert(at_least_as_good(resting, b, price));
        assert(accepts(taker.with_quantity(swept.remaining), b));
    }
}

/// What an incoming order trades and what is left of it make up its
/// quantity.
pub proof fn law_fills_and_remainder_make_up_the_order(book: BookView, taker: Order)
    requires
        book.wf(),
    ensures
        filled(book.sweep(taker).fills) + book.sweep(taker).remaining == taker.quantity,
    decreases taker.quantity,
{
    let resting = taker.side.opposite();
    if let Some(p) = book.crossing(taker) {
        let head = book.side(resting)[p][0];
        let t = min_quantity(taker.quantity, head.quantity);
        if t > 0 {
            let next = book.fill_head(resting, p, t);
            let left = taker.with_quantity((taker.quantity - t) as u64);
            assert(is_best(book.side(resting), resting, p));
            lemma_fill_head_wf(book, resting, p, t);
            law_fills_and_remainder_make_up_the_order(next, left);
            let fills = book.sweep(taker).fills;
            assert(fills.drop_first() =~= next.sweep(left).fills);
        }
    }
}

/// A fill takes the same quantity from both orders: the smaller of what the
/// incoming order has left and what the head of the best opposite level
/// has. The incoming order goes on with that much less, and the head keeps
/// its place with that much less or, if nothing is left of it, leaves the
/// book.
pub proof fn law_fill_takes_from_both_orders(book: BookView, taker: Order)
    requires
        book.wf(),
        taker.quantity > 0,
        book.crossing(taker) is Some,
    ensures
        ({
            let resting = taker.side.opposite();
            let price = book.crossing(taker)->0;
            let head = book.order_at(resting, price, 0);
            let t = min_quantity(taker.quantity, head.quantity);
            let after = book.fill_head(resting, price, t);
            let outcome = book.sweep(taker);
            &&& book.has_order_at(resting, price, 0)
            &&& 0 < t <= taker.quantity
            &&& t <= head.quantity
            &&& outcome.fills.len() > 0
            &&& outcome.fills[0] == fill_between(taker, head, price, t)
            &&& outcome.fills[0].quantity == t
            &&& outcome == after.sweep(
                taker.with_quantity((taker.quantity - t) as u64),
            ).preceded_by(seq![outcome.fills[0]])
            &&& if t < head.quantity {
                &&& after.has_order_at(resting, price, 0)
                &&& after.order_at(resting, price, 0) == head.with_quantity(
                    (head.quantity - t) as u64,
                )
            } else {
                !after.locations.contains_key(head.id)
            }
        }),
{
    let resting = taker.side.opposite();
    let price = book.crossing(taker)->0;
    let level = book.side(resting)[price];
    assert(is_best(book.side(resting), resting, price));
    assert(level_wf(level, resting, price, book.locations));
    assert(rests_at(level[0], resting, price));
}

/// What the fills take from a resting order is what its resting quantity
/// goes down by; an order that is in no fill keeps its quantity.
pub proof fn law_fills_come_out_of_resting_orders(book: BookView, taker: Order, id: u64)
    requires
        book.wf(),
    ensures
        book.sweep(taker).book.resting_quantity(id) + filled_from(
            book.sweep(taker).fills,
            taker.side,
            id,
        ) == book.resting_quantity(id),
    decreases taker.quantity,
{
    let resting = taker.side.opposite();
    if let Some(p) = book.crossing(taker) {
        let head = book.side(resting)[p][0];
        let t = min_quantity(taker.quantity, head.quantity);
        if t > 0 {
            let next = book.fill_head(resting, p, t);
            let left = taker.with_quantity((taker.quantity - t) as u64);
            assert(is_best(book.side(resting), resting, p));
            lemma_fill_head_wf(book, resting, p, t);
            lemma_fill_head_quantity(book, resting, p, t, id);
            law_fills_come_out_of_resting_orders(next, left, id);
            let fills = book.sweep(taker).fills;
            assert(fills.drop_first() =~= next.sweep(left).fills);
            assert(fills[0].resting_order_id(taker.side) == head.id);
        }
    }
}

/// Time priority: of two orders that rest at one price, the one further
/// back trades only when the one in front of it has been filled entirely.
/// If the order at position `j` is in fill `n`, the order at an earlier
/// position `i` is in a fill before `n` and in none from `n` on, and it
/// rests no longer when matching is over.
pub proof fn law_time_priority(book: BookView, taker: Order, price: u64, i: int, j: int, n: int)
    requires
        book.wf(),
        book.has_order_at(taker.side.opposite(), price, i),
        book.has_order_at(taker.side.opposite(), price, j),
        i < j,
        0 <= n < book.sweep(taker).fills.len(),
        book.sweep(taker).fills[n].resting_order_id(taker.side) == book.order_at(
            taker.side.opposite(),
            price,
            j,
        ).id,
    ensures
        ({
            let outcome = book.sweep(taker);
            let earlier = book.order_at(taker.side.opposite(), price, i).id;
            &&& exists|k: int|
                0 <= k < n && (#[trigger] outcome.fills[k]).resting_order_id(taker.side)
                    == earlier
            &&& forall|k: int|
                n <= k < outcome.fills.len() ==> (#[trigger] outcome.fills[k]).resting_order_id(
                    taker.side,
                ) != earlier
            &&& !outcome.book.locations.contains_key(earlier)
        }),
    decreases taker.quantity,
{
    let resting = taker.side.opposite();
    let outcome = book.sweep(taker);
    let earlier = book.order_at(resting, price, i).id;
    let p = book.crossing(taker)->0;
    let level = book.side(resting)[p];
    let head = level[0];
    let t = min_quantity(taker.quantity, head.quantity);
    assert(is_best(book.side(resting), resting, p));
    assert(level_wf(level, resting, p, book.locations));
    assert(rests_at(head, resting, p));
    let next = book.fill_head(resting, p, t);
    let left = taker.with_quantity((taker.quantity - t) as u64);
    let rest = next.sweep(left);
    lemma_fill_head_wf(book, resting, p, t);
    lemma_sweep_keeps(next, left);
    assert(outcome.fills[0].resting_order_id(taker.side) == head.id);
    assert forall|k: int| 1 <= k < outcome.fills.len() implies #[trigger] outcome.fills[k]
        == rest.fills[k - 1] by {}
    if n == 0 {
        law_resting_ids_are_distinct(book, resting, p, 0, resting, price, j);
    } else if p == price && t < head.quantity {
        lemma_sweep_nothing(next, left);
    } else if p == price && i == 0 {
        assert(!next.locations.contains_key(earlier));
        assert forall|k: int| n <= k < outcome.fills.len() implies (
        #[trigger] outcome.fills[k]).resting_order_id(taker.side) != earlier by {
            law_trade_price_is_resting_price(next, left, k - 1);
        }
    } else {
        let (i1, j1) = if p == price {
            (i - 1, j - 1)
        } else {
            (i, j)
        };
        assert(next.has_order_at(resting, price, i1) && next.order_at(resting, price, i1)
            == book.order_at(resting, price, i));
        assert(next.has_order_at(resting, price, j1) && next.order_at(resting, price, j1)
            == book.order_at(resting, price, j));
        law_time_priority(next, left, price, i1, j1, n - 1);
        let k1 = choose|k: int|
            0 <= k < n - 1 && (#[trigger] rest.fills[k]).resting_order_id(left.side) == earlier;
        assert(outcome.fills[k1 + 1].resting_order_id(taker.side) == earlier);
    }
}

/// Where every queue is in the order of its ids, of two orders that rest at
/// one price the one with the smaller id is in front.
pub proof fn law_smaller_id_is_in_front(book: BookView, side: Side, price: u64, i: int, j: int)
    requires
        book.time_ordered(),
        book.has_order_at(side, price, i),
        book.has_order_at(side, price, j),
        book.order_at(side, price, i).id < book.order_at(side, price, j).id,
    ensures
        i < j,
{
    let levels = book.side(side);
    assert(levels_time_ordered(levels));
    if j < i {
        assert(levels[price][j].id < levels[price][i].id);
    }
}

/// Priority by id: in a book whose queues are in the order of their ids, as
/// every book of the engine is, of two orders that rest at one price the
/// one with the larger id trades only when the one with the smaller id has
/// been filled entirely.
pub proof fn law_smaller_id_trades_first(
    book: BookView,
    taker: Order,
    price: u64,
    i: int,
    j: int,
    n: int,
)
    requires
        book.wf(),
        book.time_ordered(),
        book.has_order_at(taker.side.opposite(), price, i),
        book.has_order_at(taker.side.opposite(), price, j),
        book.order_at(taker.side.opposite(), price, i).id < book.order_at(
            taker.side.opposite(),
            price,
            j,
        ).id,
        0 <= n < book.sweep(taker).fills.len(),
        book.sweep(taker).fills[n].resting_order_id(taker.side) == book.order_at(
            taker.side.opposite(),
            price,
            j,
        ).id,
    ensures
        ({
            let outcome = book.sweep(taker);
            let smaller = book.order_at(taker.side.opposite(), price, i).id;
            &&& exists|k: int|
                0 <= k < n && (#[trigger] outcome.fills[k]).resting_order_id(taker.side)
                    == smaller
            &&& forall|k: int|
                n <= k < outcome.fills.len() ==> (#[trigger] outcome.fills[k]).resting_order_id(
                    taker.side,
                ) != smaller
            &&& !outcome.book.locations.contains_key(smaller)
        }),
{
    law_smaller_id_is_in_front(book, taker.side.opposite(), price, i, j);
    law_time_priority(book, taker, price, i, j, n);
}

/// An order that is submitted and makes no trade can be taken back:
/// cancelling its id at once leaves the book of its symbol, and with it the
/// best bid and the best ask, as they were before it was submitted.
pub proof fn law_submit_then_cancel_restores(engine: EngineView, order: Order, timestamp: u64)
    requires
        engine.wf(),
        engine.next_order_id < u64::MAX,
        engine.outcome(engine.admitted(order, timestamp)).fills.len() == 0,
    ensures
        ({
            let symbol = order.symbol@;
            let after = engine.submit(order, timestamp).cancel(symbol, engine.next_order_id);
            &&& after.book(symbol) == engine.book(symbol)
            &&& after.book(symbol).best_bid() == engine.book(symbol).best_bid()
            &&& after.book(symbol).best_ask() == engine.book(symbol).best_ask()
        }),
{
    let symbol = order.symbol@;
    let id = engine.next_order_id;
    let admitted = engine.admitted(order, timestamp);
    let book = engine.book(symbol);
    if engine.books.contains_key(symbol) {
        assert(EngineView::book_wf(book, engine.next_order_id));
    }
    let swept = book.sweep(admitted);
    lemma_sweep_without_fills(book, admitted);
    assert(admitted.with_quantity(admitted.quantity) == admitted);
    let submitted = engine.submit(order, timestamp);
    assert(submitted.books.contains_key(symbol));
    let after = submitted.cancel(symbol, id);
    if BookView::remainder_rests(admitted, swept.remaining) {
        let p = admitted.price->0;
        let side = admitted.side;
        let levels = book.side(side);
        let level = if levels.contains_key(p) {
            levels[p]
        } else {
            Seq::empty()
        };
        let rested = book.add(admitted);
        let queue = level.push(admitted);
        lemma_add_wf(book, admitted);
        assert(rested.side(side)[p] == queue);
        assert(level_wf(queue, side, p, rested.locations));
        lemma_position_unique(queue, side, p, rested.locations, queue.len() - 1);
        assert(queue.remove(queue.len() - 1) =~= level);
        if levels.contains_key(p) {
            assert(level_wf(level, side, p, book.locations));
        }
        let back = rested.cancel(id);
        assert(back.side(side) =~= levels);
        assert(back.side(side.opposite()) == book.side(side.opposite()));
        assert(back.locations =~= book.locations);
        assert(back == book);
    } else {
        assert(book.cancel(id) == book);
    }
}

/// An order that trades and is not filled entirely takes the whole of the
/// best opposite level with it: once the order has been submitted and what
/// rests of it cancelled, the best opposite price is not what it was.
pub proof fn law_trade_moves_the_best_price(engine: EngineView, order: Order, timestamp: u64)
    requires
        engine.wf(),
        engine.next_order_id < u64::MAX,
        engine.outcome(engine.admitted(order, timestamp)).fills.len() > 0,
        engine.outcome(engine.admitted(order, timestamp)).remaining > 0,
    ensures
        ({
            let symbol = order.symbol@;
            let resting = order.side.opposite();
            let after = engine.submit(order, timestamp).cancel(symbol, engine.next_order_id);
            &&& best(engine.book(symbol).side(resting), resting) matches Some(p)
            &&& !after.book(symbol).side(resting).contains_key(p)
            &&& best(after.book(symbol).side(resting), resting) != Some(p)
        }),
{
    let symbol = order.symbol@;
    let id = engine.next_order_id;
    let admitted = engine.admitted(order, timestamp);
    let resting = order.side.opposite();
    let book = engine.book(symbol);
    if engine.books.contains_key(symbol) {
        assert(EngineView::book_wf(book, engine.next_order_id));
    }
    let swept = book.sweep(admitted);
    let p = book.crossing(admitted)->0;
    assert(is_best(book.side(resting), resting, p));
    lemma_sweep_keeps(book, admitted);
    let left = admitted.with_quantity(swept.remaining);
    assert(!swept.book.side(resting).contains_key(p)) by {
        if swept.book.side(resting).contains_key(p) {
            lemma_best_exists(swept.book.side(resting), resting, p);
            let b = best(swept.book.side(resting), resting)->0;
            assert(at_least_as_good(resting, b, p));
            assert(accepts(left, b));
        }
    }
    let processed = book.process(admitted).book;
    assert(processed.side(resting) == swept.book.side(resting));
    assert(!swept.book.locations.contains_key(id));
    let submitted = engine.submit(order, timestamp);
    assert(submitted.books.contains_key(symbol) && submitted.books[symbol] == processed);
    let back = processed.cancel(id);
    assert(back.side(resting) == processed.side(resting));
    let after = submitted.cancel(symbol, id);
    assert(after.book(symbol) == back);
    if let Some(b) = best(back.side(resting), resting) {
        assert(is_best(back.side(resting), resting, b));
    }
}

} // verus!
