//! The order book of one symbol.

use std::collections::BTreeMap;
use std::collections::HashMap;
use std::collections::VecDeque;
use vstd::prelude::*;
use crate::clock::get_timestamp;
use crate::keys::{first_key, keys_up_to};
use crate::model::{
    accepts, at_least_as_good, best, fill_between, fills_of, is_best, is_price_range,
    level_quantity, level_wf, rests_at, worst_accepted, worst_price, BookView, Fill, Levels,
};
use crate::proofs::{
    lemma_accepts_within_bound, lemma_add_wf, lemma_best_is, lemma_best_of_none,
    lemma_fill_head_wf, lemma_position_unique, lemma_remove_at_wf, lemma_sweep_nothing,
};
use crate::types::{Order, OrderId, Price, Side, Trade};

verus! {

/// The key under which a price level is stored. Levels are keyed so that
/// the best price of a side has the smallest key: an ask by its price, a bid
/// by the distance of its price from the highest price there is.
spec fn rank(side: Side, price: u64) -> u64 {
    match side {
        Side::Buy => (u64::MAX - price) as u64,
        Side::Sell => price,
    }
}

/// The levels by price that a stored ladder of `side` stands for.
spec fn ladder(stored: Map<u64, VecDeque<Order>>, side: Side) -> Levels {
    Map::new(|p: u64| stored.contains_key(rank(side, p)), |p: u64| stored[rank(side, p)]@)
}

fn rank_of(side: Side, price: u64) -> (key: u64)
    ensures
        key == rank(side, price),
        price == rank(side, key),
{
    match side {
        Side::Buy => u64::MAX - price,
        Side::Sell => price,
    }
}

/// The prices of the stored levels of `side` that are at least as good as
/// `bound`, the best first.
fn prices_within(stored: &BTreeMap<u64, VecDeque<Order>>, side: Side, bound: u64) -> (prices: Vec<
    u64,
>)
    ensures
        is_price_range(prices@, ladder(stored@, side), side, bound),
{
    let keys = keys_up_to(stored, rank_of(side, bound));
    let mut prices: Vec<u64> = Vec::new();
    let mut i: usize = 0;
    while i < keys.len()
        invariant
            i <= keys.len(),
            prices@.len() == i,
            forall|j: int| 0 <= j < i ==> prices@[j] == rank(side, keys@[j]),
        decreases keys.len() - i,
    {
        prices.push(rank_of(side, keys[i]));
        i += 1;
    }
    proof {
        let levels = ladder(stored@, side);
        assert forall|a: int, b: int| 0 <= a < b < prices@.len() implies prices@[a] != prices@[b]
            && at_least_as_good(side, prices@[a], prices@[b]) by {
            assert(keys@[a] < keys@[b]);
        }
        assert forall|j: int| 0 <= j < prices@.len() implies levels.contains_key(
            #[trigger] prices@[j],
        ) && at_least_as_good(side, prices@[j], bound) by {
            assert(stored@.contains_key(keys@[j]));
        }
        assert forall|p: u64|
            levels.contains_key(p) && at_least_as_good(side, p, bound) implies prices@.contains(
            p,
        ) by {
            assert(keys@.contains(rank(side, p)));
            let j = choose|j: int| 0 <= j < keys@.len() && keys@[j] == rank(side, p);
            assert(prices@[j] == p);
        }
    }
    prices
}

/// The best price among the stored levels of `side`.
fn best_price(stored: &BTreeMap<u64, VecDeque<Order>>, side: Side) -> (price: Option<u64>)
    ensures
        price == best(ladder(stored@, side), side),
{
    match first_key(stored) {
        Some(key) => {
            let price = rank_of(side, key);
            proof {
                lemma_best_is(ladder(stored@, side), side, price);
            }
            Some(price)
        },
        None => {
            proof {
                lemma_best_of_none(ladder(stored@, side), side);
            }
            None
        },
    }
}

/// Puts `order` at the back of the queue stored under `key`, which is made
/// if it is not there.
fn push_to_level(stored: &mut BTreeMap<u64, VecDeque<Order>>, key: u64, order: Order)
    ensures
        final(stored)@.dom() == old(stored)@.dom().insert(key),
        final(stored)@[key]@ == (if old(stored)@.contains_key(key) {
            old(stored)@[key]@
        } else {
            Seq::empty()
        }).push(order),
        forall|k: u64|
            k != key && old(stored)@.contains_key(k) ==> final(stored)@[k] == old(stored)@[k],
{
    let mut queue = match stored.remove(&key) {
        Some(queue) => queue,
        None => VecDeque::new(),
    };
    queue.push_back(order);
    stored.insert(key, queue);
}

/// Takes the order with the given id out of the queue stored under `key`,
/// and the level with it if the queue becomes empty. Returns the position
/// the order had, if the queue held it.
fn remove_from_level(stored: &mut BTreeMap<u64, VecDeque<Order>>, key: u64, id: OrderId) -> (found:
    Option<usize>)
    ensures
        match found {
            Some(i) => {
                let level = old(stored)@[key]@;
                &&& old(stored)@.contains_key(key)
                &&& i < level.len()
                &&& level[i as int].id == id
                &&& if level.len() == 1 {
                    final(stored)@.dom() == old(stored)@.dom().remove(key)
                } else {
                    &&& final(stored)@.dom() == old(stored)@.dom()
                    &&& final(stored)@[key]@ == level.remove(i as int)
                }
            },
            None => {
                &&& final(stored)@.dom() == old(stored)@.dom()
                &&& old(stored)@.contains_key(key) ==> final(stored)@[key]@ == old(stored)@[key]@
                    && forall|i: int|
                    0 <= i < old(stored)@[key]@.len() ==> old(stored)@[key]@[i].id != id
            },
        },
        forall|k: u64|
            k != key && old(stored)@.contains_key(k) ==> final(stored)@[k] == old(stored)@[k],
{
    let mut queue = match stored.remove(&key) {
        Some(queue) => queue,
        None => {
            assert(final(stored)@.dom() =~= old(stored)@.dom()) by {
                assert(stored@ =~= old(stored)@);
            }
            return None;
        },
    };
    let mut i: usize = 0;
    let mut found: Option<usize> = None;
    while i < queue.len()
        invariant_except_break
            i <= queue.len(),
            found is None,
            forall|j: int| 0 <= j < i ==> queue@[j].id != id,
        ensures
            match found {
                Some(pos) => pos < queue.len() && queue@[pos as int].id == id,
                None => forall|j: int| 0 <= j < queue.len() ==> queue@[j].id != id,
            },
        decreases queue.len() - i,
    {
        if queue[i].id == id {
            found = Some(i);
            break;
        }
        i += 1;
    }
    if let Some(pos) = found {
        queue.remove(pos);
        if queue.len() > 0 {
            stored.insert(key, queue);
            assert(stored@.dom() =~= old(stored)@.dom());
        } else {
            assert(stored@.dom() =~= old(stored)@.dom().remove(key));
        }
    } else {
        stored.insert(key, queue);
        assert(stored@.dom() =~= old(stored)@.dom());
    }
    found
}

/// The quantity that rests in `queue` in all.
fn queue_quantity(queue: &VecDeque<Order>) -> (total: u128)
    ensures
        total == level_quantity(queue@),
{
    let mut total: u128 = 0;
    let mut i: usize = 0;
    while i < queue.len()
        invariant
            i <= queue.len(),
            total == level_quantity(queue@.take(i as int)),
            total <= i * u64::MAX,
        decreases queue.len() - i,
    {
        proof {
            assert(queue@.take(i + 1).drop_last() =~= queue@.take(i as int));
            assert((i + 1) * u64::MAX <= usize::MAX * u64::MAX) by (nonlinear_arith)
                requires
                    i < usize::MAX,
            ;
            assert(i * u64::MAX + u64::MAX == (i + 1) * u64::MAX) by (nonlinear_arith);
            assert(usize::MAX * u64::MAX <= u64::MAX * u64::MAX) by (nonlinear_arith);
        }
        total = total + queue[i].quantity as u128;
        i += 1;
    }
    assert(queue@.take(i as int) =~= queue@);
    total
}

/// One price level in short.
#[derive(Debug, Clone, Copy, PartialEq, Eq)]
pub struct LevelDepth {
    /// The price of the level.
    pub price: Price,
    /// The quantity that rests at the price in all.
    pub quantity: u128,
    /// The number of orders that rest at the price.
    pub orders: usize,
}

/// The levels of one stored ladder in short, the best price first.
fn ladder_depth(stored: &BTreeMap<u64, VecDeque<Order>>, side: Side) -> (levels: Vec<LevelDepth>)
    ensures
        describes(levels@, ladder(stored@, side), side),
{
    let prices = prices_within(stored, side, worst_price_of(side));
    let mut levels: Vec<LevelDepth> = Vec::new();
    let mut i: usize = 0;
    while i < prices.len()
        invariant
            i <= prices.len(),
            levels@.len() == i,
            is_price_range(prices@, ladder(stored@, side), side, worst_price(side)),
            forall|j: int|
                0 <= j < i ==> {
                    let level = ladder(stored@, side)[prices@[j]];
                    &&& (#[trigger] levels@[j]).price == prices@[j]
                    &&& levels@[j].quantity == level_quantity(level)
                    &&& levels@[j].orders == level.len()
                },
        decreases prices.len() - i,
    {
        let price = prices[i];
        let key = rank_of(side, price);
        assert(ladder(stored@, side).contains_key(prices@[i as int]));
        match stored.get(&key) {
            Some(queue) => {
                levels.push(
                    LevelDepth { price, quantity: queue_quantity(queue), orders: queue.len() },
                );
            },
            None => {
                assert(false);
            },
        }
        i += 1;
    }
    proof {
        let listed = levels@.map_values(|level: LevelDepth| level.price);
        assert(listed =~= prices@);
    }
    levels
}

fn worst_price_of(side: Side) -> (price: u64)
    ensures
        price == worst_price(side),
{
    match side {
        Side::Buy => 0,
        Side::Sell => u64::MAX,
    }
}

/// Whether `depth` lists the levels of `side` in short, each once, the best
/// price first.
pub open spec fn describes(depth: Seq<LevelDepth>, levels: Levels, side: Side) -> bool {
    &&& is_price_range(
        depth.map_values(|level: LevelDepth| level.price),
        levels,
        side,
        worst_price(side),
    )
    &&& forall|i: int|
        0 <= i < depth.len() ==> {
            &&& (#[trigger] depth[i]).quantity == level_quantity(levels[depth[i].price])
            &&& depth[i].orders == levels[depth[i].price].len()
        }
}

/// Resting orders of one symbol: bids and asks by price, each price level a
/// first-in first-out queue, and an index from order id to the level the
/// order rests at.
pub struct OrderBook {
    /// Buy orders, the level of the highest price first.
    bids: BTreeMap<u64, VecDeque<Order>>,
    /// Sell orders, the level of the lowest price first.
    asks: BTreeMap<u64, VecDeque<Order>>,
    /// Side and price of each resting order.
    order_locations: HashMap<OrderId, (Side, Price)>,
}

impl View for OrderBook {
    type V = BookView;

    closed spec fn view(&self) -> BookView {
        BookView {
            bids: ladder(self.bids@, Side::Buy),
            asks: ladder(self.asks@, Side::Sell),
            locations: self.order_locations@,
        }
    }
}

impl OrderBook {
    /// The stored ladder of one side.
    spec fn stored(&self, side: Side) -> Map<u64, VecDeque<Order>> {
        match side {
            Side::Buy => self.bids@,
            Side::Sell => self.asks@,
        }
    }

    /// Whether the book satisfies its invariant.
    pub open spec fn wf(&self) -> bool {
        self@.wf()
    }

    /// A book with no resting order.
    pub fn new() -> (book: OrderBook)
        ensures
            book@ == BookView::empty(),
            book.wf(),
    {
        let book = OrderBook {
            bids: BTreeMap::new(),
            asks: BTreeMap::new(),
            order_locations: HashMap::new(),
        };
        assert(book@.bids =~= Map::empty());
        assert(book@.asks =~= Map::empty());
        book
    }

    /// Rests `order` at the back of the queue of its side and price, and
    /// records where it lies. An order without a price is ignored.
    pub fn add_order(&mut self, order: Order)
        requires
            old(self).wf(),
            order.price matches Some(p) ==> rests_at(order, order.side, p)
                && !old(self)@.locations.contains_key(order.id),
        ensures
            final(self)@ == old(self)@.add(order),
            final(self).wf(),
    {
        let price = match order.price {
            Some(p) => p,
            None => {
                return ;
            },
        };
        let side = order.side;
        let order_id = order.id;
        let key = rank_of(side, price);
        proof {
            lemma_add_wf(self@, order);
        }
        match side {
            Side::Buy => push_to_level(&mut self.bids, key, order),
            Side::Sell => push_to_level(&mut self.asks, key, order),
        }
        self.order_locations.insert(order_id, (side, price));
        proof {
            let after = old(self)@.add(order);
            assert(self@.bids =~~= after.bids);
            assert(self@.asks =~~= after.asks);
            assert(self@.locations =~~= after.locations);
        }
    }

    /// The highest price at which a buy order rests.
    pub fn best_bid(&self) -> (price: Option<Price>)
        ensures
            price == self@.best_bid(),
    {
        best_price(&self.bids, Side::Buy)
    }

    /// The lowest price at which a sell order rests.
    pub fn best_ask(&self) -> (price: Option<Price>)
        ensures
            price == self@.best_ask(),
    {
        best_price(&self.asks, Side::Sell)
    }

    /// The levels of one side in short, the best price first: for each
    /// price, the quantity and the number of orders that rest at it.
    pub fn depth(&self, side: Side) -> (levels: Vec<LevelDepth>)
        ensures
            describes(levels@, self@.side(side), side),
    {
        match side {
            Side::Buy => ladder_depth(&self.bids, Side::Buy),
            Side::Sell => ladder_depth(&self.asks, Side::Sell),
        }
    }

    /// The prices of the bid levels at or above `price`, the highest first.
    pub fn bids_range_at_or_above(&self, price: Price) -> (prices: Vec<Price>)
        ensures
            is_price_range(prices@, self@.bids, Side::Buy, price),
    {
        prices_within(&self.bids, Side::Buy, price)
    }

    /// The prices of the ask levels at or below `price`, the lowest first.
    pub fn asks_range_at_or_below(&self, price: Price) -> (prices: Vec<Price>)
        ensures
            is_price_range(prices@, self@.asks, Side::Sell, price),
    {
        prices_within(&self.asks, Side::Sell, price)
    }

    /// Matches the incoming `order` against the queue at `price` on the
    /// `resting` side, which must be the level that `order` trades at next.
    /// Each fill is appended to `trades` and taken from `order`. Matching
    /// goes on until `order` or the queue is exhausted.
    pub(crate) fn match_level(
        &mut self,
        resting: Side,
        price: Price,
        order: &mut Order,
        trades: &mut Vec<Trade>,
    )
        requires
            old(self).wf(),
            old(order).side == resting.opposite(),
            old(self)@.crossing(*old(order)) == Some(price),
        ensures
            final(self).wf(),
            *final(order) == old(order).with_quantity(final(order).quantity),
            old(trades)@.is_prefix_of(final(trades)@),
            old(self)@.sweep(*old(order)) == final(self)@.sweep(*final(order)).preceded_by(
                fills_of(final(trades)@.skip(old(trades)@.len() as int)),
            ),
            final(order).quantity == 0 || !final(self)@.side(resting).contains_key(price),
            forall|q: u64|
                q != price ==> (final(self)@.side(resting).contains_key(q) <==> old(
                    self,
                )@.side(resting).contains_key(q)),
    {
        let ghost book0 = self@;
        let ghost order0 = *order;
        let ghost start = trades@.len() as int;
        let key = rank_of(resting, price);
        assert(is_best(book0.side(resting), resting, price) && accepts(order0, price));
        let taken = match resting {
            Side::Buy => self.bids.remove(&key),
            Side::Sell => self.asks.remove(&key),
        };
        let mut queue = match taken {
            Some(queue) => queue,
            None => {
                assert(false);
                return ;
            },
        };
        let ghost mut virt = book0;
        assert(trades@.skip(start) =~= Seq::empty());
        assert(fills_of(trades@.skip(start)) =~= Seq::empty());
        assert(virt.sweep(*order).preceded_by(Seq::empty()) == virt.sweep(*order)) by {
            assert(Seq::<Fill>::empty() + virt.sweep(*order).fills =~= virt.sweep(*order).fills);
        }
        while order.quantity > 0 && queue.len() > 0
            invariant
                virt.wf(),
                *order == order0.with_quantity(order.quantity),
                order0.side == resting.opposite(),
                key == rank(resting, price),
                price == rank(resting, key),
                is_best(book0.side(resting), resting, price),
                accepts(order0, price),
                start == old(trades)@.len(),
                old(trades)@.is_prefix_of(trades@),
                book0.sweep(order0) == virt.sweep(*order).preceded_by(
                    fills_of(trades@.skip(start)),
                ),
                self.order_locations@ == virt.locations,
                self.stored(resting.opposite()) == old(self).stored(resting.opposite()),
                virt.side(resting.opposite()) == book0.side(resting.opposite()),
                self.stored(resting) == old(self).stored(resting).remove(key),
                virt.side(resting) == (if queue@.len() > 0 {
                    book0.side(resting).insert(price, queue@)
                } else {
                    book0.side(resting).remove(price)
                }),
                book0 == old(self)@,
            decreases order.quantity,
        {
            let ghost before = virt;
            let ghost taker = *order;
            let ghost level = queue@;
            proof {
                assert(before.side(resting).contains_key(price));
                assert(level_wf(level, resting, price, before.locations));
                assert(is_best(before.side(resting), resting, price));
                lemma_best_is(before.side(resting), resting, price);
                assert(accepts(taker, price));
                assert(before.crossing(taker) == Some(price));
            }
            let mut head = match queue.pop_front() {
                Some(head) => head,
                None => {
                    assert(false);
                    return ;
                },
            };
            assert(head == level[0]);
            let quantity = if order.quantity <= head.quantity {
                order.quantity
            } else {
                head.quantity
            };
            let timestamp = get_timestamp();
            let trade = match resting {
                Side::Sell => Trade::new(order.id, head.id, price, quantity, timestamp),
                Side::Buy => Trade::new(head.id, order.id, price, quantity, timestamp),
            };
            let ghost previous = trades@;
            trades.push(trade);
            order.quantity -= quantity;
            head.quantity -= quantity;
            let ghost left = head;
            if head.quantity > 0 {
                queue.push_front(head);
            } else {
                self.order_locations.remove(&head.id);
            }
            proof {
                virt = before.fill_head(resting, price, quantity);
                lemma_fill_head_wf(before, resting, price, quantity);
                assert(trade.fill() == fill_between(taker, level[0], price, quantity));
                assert(trades@.skip(start) =~= previous.skip(start).push(trade));
                assert(fills_of(trades@.skip(start)) =~= fills_of(previous.skip(start)).push(
                    trade.fill(),
                ));
                let rest = virt.sweep(*order);
                assert(before.sweep(taker) == rest.preceded_by(seq![trade.fill()]));
                assert(fills_of(previous.skip(start)) + (seq![trade.fill()] + rest.fills)
                    =~= fills_of(trades@.skip(start)) + rest.fills);
                if left.quantity > 0 {
                    assert(queue@ =~= level.update(0, left));
                    assert(virt.side(resting) =~= book0.side(resting).insert(price, queue@));
                } else {
                    assert(queue@ =~= level.remove(0));
                    if queue@.len() > 0 {
                        assert(virt.side(resting) =~= book0.side(resting).insert(price, queue@));
                    } else {
                        assert(virt.side(resting) =~= book0.side(resting).remove(price));
                    }
                }
            }
        }
        if queue.len() > 0 {
            match resting {
                Side::Buy => {
                    self.bids.insert(key, queue);
                },
                Side::Sell => {
                    self.asks.insert(key, queue);
                },
            }
        }
        proof {
            assert(self@.bids =~~= virt.bids);
            assert(self@.asks =~~= virt.asks);
            assert(self@ == virt);
        }
    }

    /// Matches the incoming `order` against the levels of the `resting`
    /// side at `prices`, which must list, best first, the levels that
    /// `order` accepts. Each fill is appended to `trades` and taken from
    /// `order`.
    pub(crate) fn match_levels(
        &mut self,
        resting: Side,
        prices: &Vec<Price>,
        order: &mut Order,
        trades: &mut Vec<Trade>,
    )
        requires
            old(self).wf(),
            old(order).side == resting.opposite(),
            is_price_range(
                prices@,
                old(self)@.side(resting),
                resting,
                worst_accepted(*old(order)),
            ),
        ensures
            final(self).wf(),
            final(self)@ == old(self)@.sweep(*old(order)).book,
            *final(order) == old(order).with_quantity(old(self)@.sweep(*old(order)).remaining),
            old(trades)@.is_prefix_of(final(trades)@),
            fills_of(final(trades)@.skip(old(trades)@.len() as int)) == old(self)@.sweep(
                *old(order),
            ).fills,
    {
        let ghost book0 = self@;
        let ghost order0 = *order;
        let ghost start = trades@.len() as int;
        proof {
            assert(fills_of(trades@.skip(start)) =~= Seq::empty());
            assert(Seq::<Fill>::empty() + self@.sweep(*order).fills =~= self@.sweep(*order).fills);
            assert forall|p: u64|
                self@.side(resting).contains_key(p) && accepts(order0, p) implies exists|j: int|
                0 <= j < prices@.len() && prices@[j] == p by {
                lemma_accepts_within_bound(order0, p);
                assert(prices@.contains(p));
            }
        }
        let mut i: usize = 0;
        while i < prices.len() && order.quantity > 0
            invariant
                self.wf(),
                i <= prices.len(),
                *order == order0.with_quantity(order.quantity),
                order0.side == resting.opposite(),
                start == old(trades)@.len(),
                is_price_range(prices@, book0.side(resting), resting, worst_accepted(order0)),
                old(trades)@.is_prefix_of(trades@),
                book0.sweep(order0) == self@.sweep(*order).preceded_by(
                    fills_of(trades@.skip(start)),
                ),
                forall|j: int|
                    i <= j < prices@.len() ==> self@.side(resting).contains_key(
                        #[trigger] prices@[j],
                    ),
                order.quantity > 0 ==> forall|p: u64|
                    self@.side(resting).contains_key(p) && accepts(order0, p) ==> exists|j: int|
                        i <= j < prices@.len() && prices@[j] == p,
            decreases prices.len() - i,
        {
            let price = prices[i];
            let ghost before = self@;
            let ghost taker = *order;
            let ghost earlier = trades@;
            proof {
                let levels = before.side(resting);
                assert(levels.contains_key(prices@[i as int]));
                lemma_accepts_within_bound(order0, price);
                assert forall|q: u64| levels.contains_key(q) implies at_least_as_good(
                    resting,
                    price,
                    q,
                ) by {
                    lemma_accepts_within_bound(order0, q);
                    if accepts(order0, q) {
                        let j = choose|j: int| i <= j < prices@.len() && prices@[j] == q;
                        assert(j == i || at_least_as_good(resting, prices@[i as int], prices@[j]));
                    }
                }
                lemma_best_is(levels, resting, price);
                assert(before.crossing(taker) == Some(price));
            }
            self.match_level(resting, price, order, trades);
            proof {
                let rest = self@.sweep(*order);
                let made = fills_of(trades@.skip(earlier.len() as int));
                assert(before.sweep(taker) == rest.preceded_by(made));
                assert(trades@.skip(start) =~= earlier.skip(start) + trades@.skip(
                    earlier.len() as int,
                ));
                assert(fills_of(trades@.skip(start)) =~= fills_of(earlier.skip(start)) + made);
                assert(fills_of(earlier.skip(start)) + (made + rest.fills) =~= fills_of(
                    trades@.skip(start),
                ) + rest.fills);
                assert forall|j: int| i + 1 <= j < prices@.len() implies self@.side(
                    resting,
                ).contains_key(#[trigger] prices@[j]) by {
                    assert(prices@[i as int] != prices@[j]);
                    assert(before.side(resting).contains_key(prices@[j]));
                }
                if order.quantity > 0 {
                    assert forall|p: u64|
                        self@.side(resting).contains_key(p) && accepts(
                            order0,
                            p,
                        ) implies exists|j: int| i + 1 <= j < prices@.len() && prices@[j] == p by {
                        assert(p != price);
                        assert(before.side(resting).contains_key(p));
                        let j = choose|j: int| i <= j < prices@.len() && prices@[j] == p;
                        assert(i + 1 <= j < prices@.len() && prices@[j] == p);
                    }
                }
            }
            i += 1;
        }
        proof {
            if order.quantity > 0 {
                let levels = self@.side(resting);
                if let Some(b) = best(levels, resting) {
                    assert(is_best(levels, resting, b));
                    if accepts(*order, b) {
                        assert(accepts(order0, b));
                        let j = choose|j: int| i <= j < prices@.len() && prices@[j] == b;
                        assert(false);
                    }
                }
                assert(self@.crossing(*order) is None);
            }
            lemma_sweep_nothing(self@, *order);
            assert(fills_of(trades@.skip(start)) + Seq::<Fill>::empty() =~= fills_of(
                trades@.skip(start),
            ));
        }
    }

    /// Cancels the resting order with the given id. Returns whether there
    /// was one; if not, the book is left as it is.
    pub fn cancel_order(&mut self, order_id: OrderId) -> (cancelled: bool)
        requires
            old(self).wf(),
        ensures
            cancelled == old(self)@.locations.contains_key(order_id),
            final(self)@ == old(self)@.cancel(order_id),
            !cancelled ==> final(self)@ == old(self)@,
            final(self).wf(),
    {
        let (side, price) = match self.order_locations.remove(&order_id) {
            Some(location) => location,
            None => {
                assert(self@.locations =~= old(self)@.locations);
                return false;
            },
        };
        let key = rank_of(side, price);
        let ghost level = old(self)@.side(side)[price];
        assert(old(self)@.holds(order_id));
        assert(level_wf(level, side, price, old(self)@.locations));
        let found = match side {
            Side::Buy => remove_from_level(&mut self.bids, key, order_id),
            Side::Sell => remove_from_level(&mut self.asks, key, order_id),
        };
        proof {
            let i = found->0 as int;
            lemma_position_unique(level, side, price, old(self)@.locations, i);
            lemma_remove_at_wf(old(self)@, side, price, i);
            let after = old(self)@.cancel(order_id);
            assert(self@.bids =~~= after.bids);
            assert(self@.asks =~~= after.asks);
            assert(self@.locations =~~= after.locations);
        }
        found.is_some()
    }
}

} // verus!
