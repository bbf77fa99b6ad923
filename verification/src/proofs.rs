//! Lemmas about the model: each operation keeps the invariant of a book.

use vstd::prelude::*;
use crate::model::{
    accepts, at_least_as_good, best, is_best, level_wf, levels_time_ordered, levels_wf,
    min_quantity, position_of, rests_at, worst_accepted, BookView, EngineView, Levels, Locations,
    Matched,
};
use crate::types::{Order, Side};

verus! {

/// A price that is best is the best price.
pub proof fn lemma_best_is(levels: Levels, side: Side, p: u64)
    requires
        is_best(levels, side, p),
    ensures
        best(levels, side) == Some(p),
{
    let chosen = choose|q: u64| is_best(levels, side, q);
    assert(is_best(levels, side, chosen));
    assert(at_least_as_good(side, p, chosen) && at_least_as_good(side, chosen, p));
}

/// Where there is no level there is no best price.
pub proof fn lemma_best_of_none(levels: Levels, side: Side)
    requires
        forall|p: u64| !levels.contains_key(p),
    ensures
        best(levels, side) is None,
{
}

/// An incoming order accepts exactly the prices that are at least as good,
/// for the resting side, as the worst price it accepts.
pub proof fn lemma_accepts_within_bound(taker: Order, p: u64)
    ensures
        accepts(taker, p) <==> at_least_as_good(taker.side.opposite(), p, worst_accepted(taker)),
{
}

/// An incoming order with nothing left, or with no level to trade at, leaves
/// the book as it is and makes no fill.
pub proof fn lemma_sweep_nothing(book: BookView, taker: Order)
    requires
        taker.quantity == 0 || book.crossing(taker) is None,
    ensures
        book.sweep(taker) == (Matched { book, fills: Seq::empty(), remaining: taker.quantity }),
{
}

/// Placing an order that may rest, under an id that does not rest yet, keeps
/// the invariant.
pub proof fn lemma_add_wf(book: BookView, order: Order)
    requires
        book.wf(),
        order.price matches Some(p) ==> rests_at(order, order.side, p)
            && !book.locations.contains_key(order.id),
    ensures
        book.add(order).wf(),
{
    if let Some(p) = order.price {
        let after = book.add(order);
        let levels = book.side(order.side);
        let level = if levels.contains_key(p) {
            levels[p]
        } else {
            Seq::empty()
        };
        let queue = level.push(order);
        assert(after.side(order.side) == levels.insert(p, queue));
        assert(after.side(order.side.opposite()) == book.side(order.side.opposite()));
        assert(level_wf(queue, order.side, p, after.locations)) by {
            assert forall|i: int| 0 <= i < queue.len() implies {
                &&& rests_at(#[trigger] queue[i], order.side, p)
                &&& after.locations.contains_key(queue[i].id)
                &&& after.locations[queue[i].id] == (order.side, p)
            } by {
                if i < level.len() {
                    assert(queue[i] == level[i]);
                }
            }
            assert forall|i: int, j: int| 0 <= i < j < queue.len() implies queue[i].id
                != queue[j].id by {
                assert(queue[i] == level[i]);
                if j < level.len() {
                    assert(queue[j] == level[j]);
                }
            }
        }
        assert forall|id: u64| #[trigger] after.locations.contains_key(id) implies after.holds(
            id,
        ) by {
            if id == order.id {
                assert(queue[queue.len() - 1].id == id);
            } else {
                assert(book.holds(id));
                let (s, q) = book.locations[id];
                let i = choose|i: int|
                    0 <= i < book.side(s)[q].len() && (#[trigger] book.side(s)[q][i]).id == id;
                if s == order.side && q == p {
                    assert(queue[i] == level[i]);
                }
                assert(after.side(s)[q][i].id == id);
            }
        }
    }
}

/// Taking one resting order out of its queue keeps the invariant.
pub proof fn lemma_remove_at_wf(book: BookView, side: Side, price: u64, i: int)
    requires
        book.wf(),
        book.side(side).contains_key(price),
        0 <= i < book.side(side)[price].len(),
    ensures
        book.remove_at(side, price, i).wf(),
{
    let after = book.remove_at(side, price, i);
    let levels = book.side(side);
    let level = levels[price];
    let gone = level[i];
    let rest = level.remove(i);
    assert(after.side(side.opposite()) == book.side(side.opposite()));
    assert(level_wf(level, side, price, book.locations));
    assert forall|k: int| 0 <= k < rest.len() implies (#[trigger] rest[k]).id != gone.id && rest[k]
        == level[if k < i { k } else { k + 1 }] by {
        if k < i {
            assert(rest[k] == level[k]);
        } else {
            assert(rest[k] == level[k + 1]);
        }
    }
    // No other level holds the id that left: the index sent it to this one.
    assert forall|s: Side, q: u64, k: int|
        book.side(s).contains_key(q) && 0 <= k < book.side(s)[q].len() && (s != side || q != price)
        implies (#[trigger] book.side(s)[q][k]).id != gone.id by {
        assert(level_wf(book.side(s)[q], s, q, book.locations));
        assert(book.locations[book.side(s)[q][k].id] == (s, q));
        assert(book.locations[gone.id] == (side, price));
    }
    assert forall|s: Side, q: u64| #[trigger] after.side(s).contains_key(q) implies level_wf(
        after.side(s)[q],
        s,
        q,
        after.locations,
    ) by {
        let queue = after.side(s)[q];
        if s == side && q == price {
            assert(queue == rest);
        } else {
            assert(queue == book.side(s)[q]);
            assert(level_wf(queue, s, q, book.locations));
            assert forall|k: int| 0 <= k < queue.len() implies after.locations.contains_key(
                (#[trigger] queue[k]).id,
            ) by {
                assert(book.side(s)[q][k].id != gone.id);
            }
        }
    }
    assert(levels_wf(after.bids, Side::Buy, after.locations)) by {
        assert forall|q: u64| #[trigger] after.bids.contains_key(q) implies level_wf(
            after.bids[q],
            Side::Buy,
            q,
            after.locations,
        ) by {
            assert(after.side(Side::Buy).contains_key(q));
        }
    }
    assert(levels_wf(after.asks, Side::Sell, after.locations)) by {
        assert forall|q: u64| #[trigger] after.asks.contains_key(q) implies level_wf(
            after.asks[q],
            Side::Sell,
            q,
            after.locations,
        ) by {
            assert(after.side(Side::Sell).contains_key(q));
        }
    }
    assert forall|id: u64| #[trigger] after.locations.contains_key(id) implies after.holds(id) by {
        assert(book.holds(id));
        let (s, q) = book.locations[id];
        let k = choose|k: int|
            0 <= k < book.side(s)[q].len() && (#[trigger] book.side(s)[q][k]).id == id;
        if s == side && q == price {
            assert(k != i);
            let k2 = if k < i {
                k
            } else {
                k - 1
            };
            assert(rest[k2] == level[k]);
            assert(after.side(s)[q][k2].id == id);
        } else {
            assert(after.side(s)[q][k].id == id);
        }
    }
}

/// Taking quantity from the head of a queue, no more than it has, keeps the
/// invariant.
pub proof fn lemma_fill_head_wf(book: BookView, side: Side, price: u64, t: u64)
    requires
        book.wf(),
        book.side(side).contains_key(price),
        0 < t <= book.side(side)[price][0].quantity,
    ensures
        book.fill_head(side, price, t).wf(),
{
    let levels = book.side(side);
    let level = levels[price];
    let head = level[0];
    assert(level_wf(level, side, price, book.locations));
    if t < head.quantity {
        let after = book.fill_head(side, price, t);
        let queue = level.update(0, head.with_quantity((head.quantity - t) as u64));
        assert(after.side(side) == levels.insert(price, queue));
        assert(after.side(side.opposite()) == book.side(side.opposite()));
        assert(level_wf(queue, side, price, after.locations)) by {
            assert forall|i: int| 0 <= i < queue.len() implies {
                &&& rests_at(#[trigger] queue[i], side, price)
                &&& after.locations.contains_key(queue[i].id)
                &&& after.locations[queue[i].id] == (side, price)
            } by {
                assert(queue[i].id == level[i].id);
                if i > 0 {
                    assert(queue[i] == level[i]);
                }
            }
            assert forall|i: int, j: int| 0 <= i < j < queue.len() implies queue[i].id
                != queue[j].id by {
                assert(queue[i].id == level[i].id);
                assert(queue[j].id == level[j].id);
            }
        }
        assert forall|id: u64| #[trigger] after.locations.contains_key(id) implies after.holds(
            id,
        ) by {
            assert(book.holds(id));
            let (s, q) = book.locations[id];
            let i = choose|i: int|
                0 <= i < book.side(s)[q].len() && (#[trigger] book.side(s)[q][i]).id == id;
            if s == side && q == price {
                assert(queue[i].id == level[i].id);
            }
            assert(after.side(s)[q][i].id == id);
        }
    } else {
        lemma_remove_at_wf(book, side, price, 0);
    }
}

/// Among the levels of a side, if there is one, there is a best one.
pub proof fn lemma_best_exists(levels: Levels, side: Side, p: u64)
    requires
        levels.contains_key(p),
    ensures
        best(levels, side) matches Some(b) && is_best(levels, side, b),
    decreases
        (match side {
            Side::Buy => u64::MAX - p,
            Side::Sell => p as int,
        }),
{
    if is_best(levels, side, p) {
        lemma_best_is(levels, side, p);
    } else {
        let q = choose|q: u64| levels.contains_key(q) && !at_least_as_good(side, p, q);
        lemma_best_exists(levels, side, q);
    }
}

/// What the departure of one resting order leaves as it was: the other
/// side, and the order of arrival. It adds neither a level nor an id.
pub proof fn lemma_remove_at_keeps(book: BookView, side: Side, price: u64, i: int)
    requires
        book.wf(),
        book.side(side).contains_key(price),
        0 <= i < book.side(side)[price].len(),
    ensures
        book.remove_at(side, price, i).side(side.opposite()) == book.side(side.opposite()),
        forall|q: u64|
            book.remove_at(side, price, i).side(side).contains_key(q) ==> book.side(
                side,
            ).contains_key(q),
        forall|id: u64|
            book.remove_at(side, price, i).locations.contains_key(id)
                ==> book.locations.contains_key(id),
        book.time_ordered() ==> book.remove_at(side, price, i).time_ordered(),
{
    let after = book.remove_at(side, price, i);
    let level = book.side(side)[price];
    let rest = level.remove(i);
    if book.time_ordered() {
        assert(levels_time_ordered(book.side(side)));
        assert forall|q: u64, a: int, b: int|
            after.side(side).contains_key(q) && 0 <= a < b < after.side(side)[q].len() implies (
        #[trigger] after.side(side)[q][a]).id < (#[trigger] after.side(side)[q][b]).id by {
            if q == price {
                let a0 = if a < i {
                    a
                } else {
                    a + 1
                };
                let b0 = if b < i {
                    b
                } else {
                    b + 1
                };
                assert(rest[a] == level[a0] && rest[b] == level[b0]);
                assert(level[a0].id < level[b0].id);
            } else {
                assert(after.side(side)[q] == book.side(side)[q]);
                assert(book.side(side)[q][a].id < book.side(side)[q][b].id);
            }
        }
        assert(levels_time_ordered(after.side(side)));
        assert(levels_time_ordered(after.side(side.opposite())));
    }
}

/// What a fill at the head of a queue leaves as it was: the other side, and
/// the order of arrival. It adds neither a level nor an id.
pub proof fn lemma_fill_head_keeps(book: BookView, side: Side, price: u64, t: u64)
    requires
        book.wf(),
        book.side(side).contains_key(price),
        0 < t <= book.side(side)[price][0].quantity,
    ensures
        book.fill_head(side, price, t).side(side.opposite()) == book.side(side.opposite()),
        forall|q: u64|
            book.fill_head(side, price, t).side(side).contains_key(q) ==> book.side(
                side,
            ).contains_key(q),
        forall|id: u64|
            book.fill_head(side, price, t).locations.contains_key(id)
                ==> book.locations.contains_key(id),
        book.time_ordered() ==> book.fill_head(side, price, t).time_ordered(),
{
    let after = book.fill_head(side, price, t);
    let level = book.side(side)[price];
    let head = level[0];
    assert(level_wf(level, side, price, book.locations));
    if t < head.quantity {
        let queue = level.update(0, head.with_quantity((head.quantity - t) as u64));
        if book.time_ordered() {
            assert(levels_time_ordered(book.side(side)));
            assert forall|q: u64, a: int, b: int|
                after.side(side).contains_key(q) && 0 <= a < b < after.side(side)[q].len() implies (
            #[trigger] after.side(side)[q][a]).id < (#[trigger] after.side(side)[q][b]).id by {
                if q == price {
                    assert(queue[a].id == level[a].id && queue[b].id == level[b].id);
                    assert(level[a].id < level[b].id);
                } else {
                    assert(after.side(side)[q] == book.side(side)[q]);
                    assert(book.side(side)[q][a].id < book.side(side)[q][b].id);
                }
            }
            assert(levels_time_ordered(after.side(side)));
            assert(levels_time_ordered(after.side(side.opposite())));
        }
    } else {
        lemma_remove_at_keeps(book, side, price, 0);
    }
}

/// What matching keeps: the invariant of the book, the side of the incoming
/// order, and the order of arrival. It adds neither a level nor an id, it
/// takes from the incoming order no more than it has, and it ends only when
/// the order is exhausted or has no level left to trade at.
pub proof fn lemma_sweep_keeps(book: BookView, taker: Order)
    requires
        book.wf(),
    ensures
        book.sweep(taker).book.wf(),
        book.sweep(taker).remaining <= taker.quantity,
        book.sweep(taker).book.side(taker.side) == book.side(taker.side),
        forall|q: u64|
            book.sweep(taker).book.side(taker.side.opposite()).contains_key(q) ==> book.side(
                taker.side.opposite(),
            ).contains_key(q),
        forall|id: u64|
            book.sweep(taker).book.locations.contains_key(id) ==> book.locations.contains_key(id),
        book.time_ordered() ==> book.sweep(taker).book.time_ordered(),
        book.sweep(taker).remaining == 0 || book.sweep(taker).book.crossing(
            taker.with_quantity(book.sweep(taker).remaining),
        ) is None,
    decreases taker.quantity,
{
    let resting = taker.side.opposite();
    assert(taker.with_quantity(taker.quantity) == taker);
    if let Some(p) = book.crossing(taker) {
        assert(is_best(book.side(resting), resting, p));
        assert(level_wf(book.side(resting)[p], resting, p, book.locations));
        let head = book.side(resting)[p][0];
        let t = min_quantity(taker.quantity, head.quantity);
        if t > 0 {
            let next = book.fill_head(resting, p, t);
            let left = taker.with_quantity((taker.quantity - t) as u64);
            lemma_fill_head_wf(book, resting, p, t);
            lemma_fill_head_keeps(book, resting, p, t);
            lemma_sweep_keeps(next, left);
            assert(left.with_quantity(next.sweep(left).remaining) == taker.with_quantity(
                book.sweep(taker).remaining,
            ));
        }
    }
}

/// Placing an order under an id later than every resting id keeps the order
/// of arrival.
pub proof fn lemma_add_keeps_time_order(book: BookView, order: Order)
    requires
        book.wf(),
        book.time_ordered(),
        book.ids_below(order.id),
    ensures
        book.add(order).time_ordered(),
{
    if let Some(p) = order.price {
        let after = book.add(order);
        let side = order.side;
        let levels = book.side(side);
        assert(levels_time_ordered(levels));
        assert forall|q: u64, a: int, b: int|
            after.side(side).contains_key(q) && 0 <= a < b < after.side(side)[q].len() implies (
        #[trigger] after.side(side)[q][a]).id < (#[trigger] after.side(side)[q][b]).id by {
            if q == p {
                let level = if levels.contains_key(p) {
                    levels[p]
                } else {
                    Seq::empty()
                };
                assert(after.side(side)[q] == level.push(order));
                if levels.contains_key(p) {
                    assert(level_wf(level, side, p, book.locations));
                    assert(book.locations.contains_key(level[a].id));
                }
                if b < level.len() {
                    assert(level[a].id < level[b].id);
                }
            } else {
                assert(after.side(side)[q] == levels[q]);
                assert(levels[q][a].id < levels[q][b].id);
            }
        }
        assert(levels_time_ordered(after.side(side)));
        assert(levels_time_ordered(after.side(side.opposite())));
    }
}

/// Processing an order with an id of the engine's, later than those that
/// rest, keeps what the engine keeps true of a book.
pub proof fn lemma_process_keeps(book: BookView, order: Order, next_order_id: u64)
    requires
        EngineView::book_wf(book, next_order_id),
        order.id < next_order_id,
        book.ids_below(order.id),
    ensures
        EngineView::book_wf(book.process(order).book, next_order_id),
{
    let m = book.sweep(order);
    lemma_sweep_keeps(book, order);
    let resting = order.side.opposite();
    assert(m.book.side(order.side) == book.side(order.side));
    assert(m.book.uncrossed()) by {
        assert forall|b: u64, a: u64|
            #[trigger] m.book.bids.contains_key(b) && #[trigger] m.book.asks.contains_key(
                a,
            ) implies b < a by {
            assert(m.book.side(Side::Buy).contains_key(b));
            assert(m.book.side(Side::Sell).contains_key(a));
            assert(book.side(Side::Buy).contains_key(b));
            assert(book.side(Side::Sell).contains_key(a));
            assert(book.bids.contains_key(b) && book.asks.contains_key(a));
        }
    }
    if BookView::remainder_rests(order, m.remaining) {
        let rest = order.with_quantity(m.remaining);
        let p = order.price->0;
        lemma_add_wf(m.book, rest);
        lemma_add_keeps_time_order(m.book, rest);
        let after = m.book.add(rest);
        assert(after.side(resting) == m.book.side(resting));
        assert forall|q: u64| m.book.side(resting).contains_key(q) implies !accepts(order, q) by {
            if accepts(order, q) {
                lemma_best_exists(m.book.side(resting), resting, q);
                let b = best(m.book.side(resting), resting)->0;
                assert(at_least_as_good(resting, b, q));
                assert(accepts(rest, b));
            }
        }
        assert(after.uncrossed()) by {
            assert forall|b: u64, a: u64|
                #[trigger] after.bids.contains_key(b) && #[trigger] after.asks.contains_key(
                    a,
                ) implies b < a by {
                assert(after.side(Side::Buy).contains_key(b));
                assert(after.side(Side::Sell).contains_key(a));
                if order.side == Side::Buy {
                    assert(m.book.side(resting).contains_key(a));
                    assert(!accepts(order, a));
                    if b != p {
                        assert(m.book.bids.contains_key(b) && m.book.asks.contains_key(a));
                    }
                } else {
                    assert(m.book.side(resting).contains_key(b));
                    assert(!accepts(order, b));
                    if a != p {
                        assert(m.book.bids.contains_key(b) && m.book.asks.contains_key(a));
                    }
                }
            }
        }
    }
}

/// Cancelling keeps what the engine keeps true of a book.
pub proof fn lemma_cancel_keeps(book: BookView, id: u64, next_order_id: u64)
    requires
        EngineView::book_wf(book, next_order_id),
    ensures
        EngineView::book_wf(book.cancel(id), next_order_id),
{
    if book.locations.contains_key(id) {
        let (side, price) = book.locations[id];
        assert(book.holds(id));
        let i = position_of(book.side(side)[price], id);
        lemma_remove_at_wf(book, side, price, i);
        lemma_remove_at_keeps(book, side, price, i);
        let after = book.cancel(id);
        assert(after.side(side.opposite()) == book.side(side.opposite()));
        assert(after.uncrossed()) by {
            assert forall|b: u64, a: u64|
                #[trigger] after.bids.contains_key(b) && #[trigger] after.asks.contains_key(
                    a,
                ) implies b < a by {
                assert(after.side(Side::Buy).contains_key(b));
                assert(after.side(Side::Sell).contains_key(a));
                assert(book.bids.contains_key(b) && book.asks.contains_key(a));
            }
        }
    }
}

/// A fill at the head of a queue takes its quantity from the head's resting
/// quantity and from no other order's.
pub proof fn lemma_fill_head_quantity(book: BookView, side: Side, price: u64, t: u64, id: u64)
    requires
        book.wf(),
        book.side(side).contains_key(price),
        0 < t <= book.side(side)[price][0].quantity,
    ensures
        book.fill_head(side, price, t).resting_quantity(id) + (if id == book.side(
            side,
        )[price][0].id {
            t as nat
        } else {
            0
        }) == book.resting_quantity(id),
{
    let after = book.fill_head(side, price, t);
    let level = book.side(side)[price];
    let head = level[0];
    lemma_fill_head_wf(book, side, price, t);
    assert(level_wf(level, side, price, book.locations));
    assert(rests_at(head, side, price));
    lemma_position_unique(level, side, price, book.locations, 0);
    if id == head.id {
        if t < head.quantity {
            let queue = after.side(side)[price];
            assert(level_wf(queue, side, price, after.locations));
            lemma_position_unique(queue, side, price, after.locations, 0);
        }
    } else if book.locations.contains_key(id) {
        let (s, q) = book.locations[id];
        assert(book.holds(id));
        let k = choose|k: int|
            0 <= k < book.side(s)[q].len() && (#[trigger] book.side(s)[q][k]).id == id;
        assert(level_wf(book.side(s)[q], s, q, book.locations));
        lemma_position_unique(book.side(s)[q], s, q, book.locations, k);
        if s == side && q == price {
            assert(k > 0);
            let queue = after.side(side)[price];
            if t < head.quantity {
                assert(queue[k] == level[k]);
                assert(level_wf(queue, side, price, after.locations));
                lemma_position_unique(queue, side, price, after.locations, k);
            } else {
                assert(level.remove(0)[k - 1] == level[k]);
                assert(queue == level.remove(0));
                assert(after.side(side).contains_key(price));
                assert(level_wf(queue, side, price, after.locations));
                lemma_position_unique(queue, side, price, after.locations, k - 1);
            }
        } else {
            assert(after.side(s)[q] == book.side(s)[q]);
        }
    }
}

/// Matching that makes no fill leaves the book as it is and the incoming
/// order whole.
pub proof fn lemma_sweep_without_fills(book: BookView, taker: Order)
    requires
        book.sweep(taker).fills.len() == 0,
    ensures
        book.sweep(taker) == (Matched { book, fills: Seq::empty(), remaining: taker.quantity }),
{
    assert(book.sweep(taker).fills =~= Seq::empty());
}

/// In a valid queue an id has one position only.
pub proof fn lemma_position_unique(
    level: Seq<Order>,
    side: Side,
    price: u64,
    locations: Locations,
    i: int,
)
    requires
        level_wf(level, side, price, locations),
        0 <= i < level.len(),
    ensures
        position_of(level, level[i].id) == i,
{
    let j = position_of(level, level[i].id);
    assert(0 <= j < level.len() && level[j].id == level[i].id);
    if j < i {
        assert(level[j].id != level[i].id);
    } else if i < j {
        assert(level[i].id != level[j].id);
    }
}

} // verus!
