//! The order book of one market: resting bids and asks kept in price
//! levels, matched with price-time priority.

use vstd::prelude::*;

use crate::dec::{add_at, bound_at, fits_at, lemma_fits_result, sub_at, Dec};
use crate::types::{
    fills_view, orders_view, ticker_of, AssetPair, CancelOrder, Fill, FillView, Order, OrderSide, OrderStatus,
    OrderView, ProcessOrderResult,
};

verus! {

/// The resting orders at one price, oldest first.
pub struct PriceLevel {
    pub price: Dec,
    pub orders: Vec<Order>,
}

pub struct LevelView {
    pub price: int,
    pub orders: Seq<OrderView>,
}

impl View for PriceLevel {
    type V = LevelView;

    open spec fn view(&self) -> LevelView {
        LevelView { price: self.price.val(), orders: orders_view(self.orders@) }
    }
}

pub open spec fn levels_view(levels: Seq<PriceLevel>) -> Seq<LevelView> {
    levels.map_values(|l: PriceLevel| l@)
}

/// A resting order has something left to fill.
pub open spec fn resting_ok(o: OrderView) -> bool {
    0 <= o.filled < o.quantity
}

pub open spec fn queue_ok(orders: Seq<OrderView>) -> bool {
    forall|k: int| 0 <= k < orders.len() ==> #[trigger] resting_ok(orders[k])
}

/// Every resting order of every level has something left to fill.
pub open spec fn levels_ok(levels: Seq<LevelView>) -> bool {
    forall|i: int| 0 <= i < levels.len() ==> #[trigger] queue_ok(levels[i].orders)
}

/// One side of a book: levels strictly ascending by price, none empty, each
/// order resting at its level's price with something left to fill.
pub open spec fn side_wf(levels: Seq<LevelView>) -> bool {
    &&& forall|i: int, j: int|
        0 <= i < j < levels.len() ==> #[trigger] levels[i].price < #[trigger] levels[j].price
    &&& forall|i: int| 0 <= i < levels.len() ==> #[trigger] levels[i].orders.len() > 0
    &&& forall|i: int, k: int|
        0 <= i < levels.len() && 0 <= k < levels[i].orders.len()
            ==> #[trigger] levels[i].orders[k].price == levels[i].price
    &&& levels_ok(levels)
}

/// Amounts of a resting order fit at scale `s`.
pub open spec fn order_fits(o: Order, s: nat) -> bool {
    fits_at(o.quantity, s) && fits_at(o.filled_quantity, s)
}

pub open spec fn fills_fit(fills: Seq<Fill>, s: nat) -> bool {
    forall|k: int| 0 <= k < fills.len() ==> fits_at(#[trigger] fills[k].quantity, s)
}

/// The price of every fill fits at scale `p`.
pub open spec fn fills_prices_fit(fills: Seq<Fill>, p: nat) -> bool {
    forall|k: int| 0 <= k < fills.len() ==> fits_at(#[trigger] fills[k].price, p)
}

/// The price of every order of the queue fits at scale `p`.
pub open spec fn queue_prices_fit(orders: Seq<Order>, p: nat) -> bool {
    forall|k: int| 0 <= k < orders.len() ==> fits_at(#[trigger] orders[k].price, p)
}

pub open spec fn levels_prices_fit(levels: Seq<PriceLevel>, p: nat) -> bool {
    forall|i: int| 0 <= i < levels.len() ==> #[trigger] queue_prices_fit(levels[i].orders@, p)
}

pub open spec fn queue_fits(orders: Seq<Order>, s: nat) -> bool {
    forall|k: int| 0 <= k < orders.len() ==> #[trigger] order_fits(orders[k], s)
}

pub open spec fn levels_fit(levels: Seq<PriceLevel>, s: nat) -> bool {
    forall|i: int| 0 <= i < levels.len() ==> #[trigger] queue_fits(levels[i].orders@, s)
}

/// Number of resting orders over the levels.
pub open spec fn count_orders(levels: Seq<LevelView>) -> int
    decreases levels.len(),
{
    if levels.len() == 0 {
        0
    } else {
        levels[0].orders.len() + count_orders(levels.drop_first())
    }
}

pub proof fn lemma_count_orders_nonneg(levels: Seq<LevelView>)
    ensures
        count_orders(levels) >= 0,
    decreases levels.len(),
{
    if levels.len() > 0 {
        lemma_count_orders_nonneg(levels.drop_first());
    }
}

/// A maker at `maker_price` can trade with a taker of the given side and
/// limit price.
pub open spec fn crosses(side: OrderSide, limit: int, maker_price: int) -> bool {
    match side {
        OrderSide::Buy => maker_price <= limit,
        OrderSide::Sell => maker_price >= limit,
    }
}

pub open spec fn min_int(a: int, b: int) -> int {
    if b < a {
        b
    } else {
        a
    }
}

pub open spec fn with_filled(o: OrderView, filled: int) -> OrderView {
    OrderView {
        price: o.price,
        quantity: o.quantity,
        filled: filled,
        order_id: o.order_id,
        user_id: o.user_id,
        side: o.side,
        order_type: o.order_type,
        status: o.status,
        timestamp: o.timestamp,
    }
}

/// The fill of `q` against maker `m`, numbered `tid`.
pub open spec fn fill_against(m: OrderView, q: int, tid: int) -> FillView {
    FillView {
        price: m.price,
        quantity: q,
        trade_id: tid,
        other_user_id: m.user_id,
        order_id: m.order_id,
    }
}

/// What offering a taker to a queue of makers leaves behind.
pub struct QueueMatch {
    /// The makers that still have something left, in queue order.
    pub rest: Seq<OrderView>,
    pub fills: Seq<FillView>,
    /// The taker's executed quantity afterwards.
    pub executed: int,
    /// The last trade id used.
    pub trade_id: int,
}

/// Offers a taker (side, limit price, quantity, already executed) to the
/// makers in queue order.  Each crossing maker, while the taker is not
/// complete, trades the smaller of what both have left, under the next
/// trade id and at the maker's price.  Makers with nothing left leave the
/// queue.
pub open spec fn match_queue(
    makers: Seq<OrderView>,
    side: OrderSide,
    limit: int,
    qty: int,
    executed: int,
    tid: int,
) -> QueueMatch
    decreases makers.len(),
{
    if makers.len() == 0 {
        QueueMatch { rest: seq![], fills: seq![], executed, trade_id: tid }
    } else {
        let m = makers[0];
        if crosses(side, limit, m.price) && executed < qty {
            let f = min_int(qty - executed, m.quantity - m.filled);
            let m2 = with_filled(m, m.filled + f);
            let r = match_queue(makers.drop_first(), side, limit, qty, executed + f, tid + 1);
            QueueMatch {
                rest: if m2.filled < m2.quantity {
                    seq![m2] + r.rest
                } else {
                    r.rest
                },
                fills: seq![fill_against(m, f, tid + 1)] + r.fills,
                executed: r.executed,
                trade_id: r.trade_id,
            }
        } else {
            let r = match_queue(makers.drop_first(), side, limit, qty, executed, tid);
            QueueMatch {
                rest: if m.filled < m.quantity {
                    seq![m] + r.rest
                } else {
                    r.rest
                },
                fills: r.fills,
                executed: r.executed,
                trade_id: r.trade_id,
            }
        }
    }
}

/// What offering a taker to a side of the book leaves behind.
pub struct SideMatch {
    /// The levels that still hold orders, in matching order.
    pub levels: Seq<LevelView>,
    pub fills: Seq<FillView>,
    pub executed: int,
    pub trade_id: int,
}

/// Offers a taker to price levels in matching order (best price first),
/// each level's queue in time order; emptied levels disappear.
pub open spec fn match_levels(
    levels: Seq<LevelView>,
    side: OrderSide,
    limit: int,
    qty: int,
    executed: int,
    tid: int,
) -> SideMatch
    decreases levels.len(),
{
    if levels.len() == 0 {
        SideMatch { levels: seq![], fills: seq![], executed, trade_id: tid }
    } else {
        let q = match_queue(levels[0].orders, side, limit, qty, executed, tid);
        let r = match_levels(levels.drop_first(), side, limit, qty, q.executed, q.trade_id);
        SideMatch {
            levels: if q.rest.len() > 0 {
                seq![LevelView { price: levels[0].price, orders: q.rest }] + r.levels
            } else {
                r.levels
            },
            fills: q.fills + r.fills,
            executed: r.executed,
            trade_id: r.trade_id,
        }
    }
}

/// Levels strictly ordered by price, ascending or descending.
pub open spec fn strictly_ordered(levels: Seq<LevelView>, ascending: bool) -> bool {
    forall|i: int, j: int|
        0 <= i < j < levels.len() ==> if ascending {
            #[trigger] levels[i].price < #[trigger] levels[j].price
        } else {
            levels[i].price > levels[j].price
        }
}

/// No level is empty, every order rests at its level's price and has
/// something left to fill.
pub open spec fn levels_shape(levels: Seq<LevelView>) -> bool {
    &&& forall|i: int| 0 <= i < levels.len() ==> #[trigger] levels[i].orders.len() > 0
    &&& forall|i: int, k: int|
        0 <= i < levels.len() && 0 <= k < levels[i].orders.len()
            ==> #[trigger] levels[i].orders[k].price == levels[i].price
    &&& levels_ok(levels)
}

pub proof fn lemma_side_wf_parts(levels: Seq<LevelView>)
    ensures
        side_wf(levels) == (strictly_ordered(levels, true) && levels_shape(levels)),
{
}

/// Matching a queue whose orders all rest at price `p` leaves a queue of the
/// same kind; the executed quantity never decreases and stays within the
/// taker's quantity; every fill is positive.
#[verifier::spinoff_prover]
pub proof fn lemma_match_queue_shape(
    makers: Seq<OrderView>,
    side: OrderSide,
    limit: int,
    qty: int,
    executed: int,
    tid: int,
    p: int,
)
    requires
        queue_ok(makers),
        forall|k: int| 0 <= k < makers.len() ==> #[trigger] makers[k].price == p,
    ensures
        ({
            let r = match_queue(makers, side, limit, qty, executed, tid);
            &&& queue_ok(r.rest)
            &&& forall|k: int| 0 <= k < r.rest.len() ==> #[trigger] r.rest[k].price == p
            &&& r.rest.len() <= makers.len()
            &&& executed <= r.executed
            &&& executed <= qty ==> r.executed <= qty
            &&& (r.executed == executed || r.executed <= qty)
            &&& tid <= r.trade_id <= tid + makers.len()
        }),
    decreases makers.len(),
{
    if makers.len() > 0 {
        let tail = makers.drop_first();
        assert(resting_ok(makers[0]));
        assert(makers[0].price == p);
        assert forall|k: int| 0 <= k < tail.len() implies #[trigger] tail[k].price == p by {
            assert(tail[k] == makers[k + 1]);
        }
        assert forall|k: int| 0 <= k < tail.len() implies #[trigger] resting_ok(tail[k]) by {
            assert(tail[k] == makers[k + 1]);
        }
        let m = makers[0];
        if crosses(side, limit, m.price) && executed < qty {
            let f = min_int(qty - executed, m.quantity - m.filled);
            lemma_match_queue_shape(tail, side, limit, qty, executed + f, tid + 1, p);
            let r = match_queue(tail, side, limit, qty, executed + f, tid + 1);
            let m2 = with_filled(m, m.filled + f);
            if m2.filled < m2.quantity {
                let rest = seq![m2] + r.rest;
                assert forall|k: int| 0 <= k < rest.len() implies #[trigger] resting_ok(rest[k]) by {
                    if k > 0 {
                        assert(rest[k] == r.rest[k - 1]);
                    }
                }
                assert forall|k: int| 0 <= k < rest.len() implies #[trigger] rest[k].price == p by {
                    if k > 0 {
                        assert(rest[k] == r.rest[k - 1]);
                    }
                }
            }
        } else {
            lemma_match_queue_shape(tail, side, limit, qty, executed, tid, p);
            let r = match_queue(tail, side, limit, qty, executed, tid);
            if m.filled < m.quantity {
                let rest = seq![m] + r.rest;
                assert forall|k: int| 0 <= k < rest.len() implies #[trigger] resting_ok(rest[k]) by {
                    if k > 0 {
                        assert(rest[k] == r.rest[k - 1]);
                    }
                }
                assert forall|k: int| 0 <= k < rest.len() implies #[trigger] rest[k].price == p by {
                    if k > 0 {
                        assert(rest[k] == r.rest[k - 1]);
                    }
                }
            }
        }
    }
}

/// Matching keeps a side's shape and price order; the surviving levels
/// are no better than the first input level.
#[verifier::spinoff_prover]
pub proof fn lemma_match_levels_shape(
    levels: Seq<LevelView>,
    ascending: bool,
    side: OrderSide,
    limit: int,
    qty: int,
    executed: int,
    tid: int,
)
    requires
        strictly_ordered(levels, ascending),
        levels_shape(levels),
    ensures
        ({
            let r = match_levels(levels, side, limit, qty, executed, tid);
            &&& strictly_ordered(r.levels, ascending)
            &&& levels_shape(r.levels)
            &&& levels.len() > 0 ==> forall|i: int|
                0 <= i < r.levels.len() ==> if ascending {
                    #[trigger] r.levels[i].price >= levels[0].price
                } else {
                    r.levels[i].price <= levels[0].price
                }
            &&& executed <= r.executed
            &&& executed <= qty ==> r.executed <= qty
            &&& (r.executed == executed || r.executed <= qty)
            &&& tid <= r.trade_id <= tid + count_orders(levels)
        }),
    decreases levels.len(),
{
    if levels.len() > 0 {
        let tail = levels.drop_first();
        assert(strictly_ordered(tail, ascending)) by {
            assert forall|i: int, j: int| 0 <= i < j < tail.len() implies if ascending {
                #[trigger] tail[i].price < #[trigger] tail[j].price
            } else {
                tail[i].price > tail[j].price
            } by {
                assert(tail[i] == levels[i + 1]);
                assert(tail[j] == levels[j + 1]);
            }
        }
        assert(levels_shape(tail)) by {
            assert forall|i: int| 0 <= i < tail.len() implies #[trigger] tail[i].orders.len() > 0 by {
                assert(tail[i] == levels[i + 1]);
            }
            assert forall|i: int, k: int|
                0 <= i < tail.len() && 0 <= k < tail[i].orders.len() implies #[trigger] tail[i].orders[k].price
                == tail[i].price by {
                assert(tail[i] == levels[i + 1]);
            }
            assert forall|i: int| 0 <= i < tail.len() implies #[trigger] queue_ok(tail[i].orders) by {
                assert(tail[i] == levels[i + 1]);
            }
        }
        let l0 = levels[0];
        assert(queue_ok(l0.orders));
        assert forall|k: int| 0 <= k < l0.orders.len() implies #[trigger] l0.orders[k].price
            == l0.price by {
            assert(levels[0].orders[k].price == levels[0].price);
        }
        lemma_match_queue_shape(l0.orders, side, limit, qty, executed, tid, l0.price);
        let q = match_queue(l0.orders, side, limit, qty, executed, tid);
        lemma_match_levels_shape(tail, ascending, side, limit, qty, q.executed, q.trade_id);
        lemma_count_orders_nonneg(tail);
        let r = match_levels(tail, side, limit, qty, q.executed, q.trade_id);
        if tail.len() > 0 {
            assert forall|i: int| 0 <= i < r.levels.len() implies if ascending {
                #[trigger] r.levels[i].price > l0.price
            } else {
                r.levels[i].price < l0.price
            } by {
                assert(tail[0] == levels[1]);
            }
        } else {
            assert(r.levels.len() == 0);
        }
        if q.rest.len() > 0 {
            let nl = LevelView { price: l0.price, orders: q.rest };
            let out = seq![nl] + r.levels;
            assert forall|i: int, j: int| 0 <= i < j < out.len() implies if ascending {
                #[trigger] out[i].price < #[trigger] out[j].price
            } else {
                out[i].price > out[j].price
            } by {
                if i > 0 {
                    assert(out[i] == r.levels[i - 1]);
                }
                assert(out[j] == r.levels[j - 1]);
            }
            assert(out[0] == nl);
            assert forall|i: int| 0 <= i < out.len() implies #[trigger] out[i].orders.len() > 0 by {
                if i > 0 {
                    assert(out[i] == r.levels[i - 1]);
                } else {
                    assert(out[i].orders == q.rest);
                }
            }
            assert forall|i: int, k: int|
                0 <= i < out.len() && 0 <= k < out[i].orders.len() implies #[trigger] out[i].orders[k].price
                == out[i].price by {
                if i > 0 {
                    assert(out[i] == r.levels[i - 1]);
                } else {
                    assert(out[i].orders == q.rest);
                    assert(q.rest[k].price == l0.price);
                }
            }
            assert forall|i: int| 0 <= i < out.len() implies #[trigger] queue_ok(out[i].orders) by {
                if i > 0 {
                    assert(out[i] == r.levels[i - 1]);
                }
            }
            assert forall|i: int| 0 <= i < out.len() implies if ascending {
                #[trigger] out[i].price >= l0.price
            } else {
                out[i].price <= l0.price
            } by {
                if i > 0 {
                    assert(out[i] == r.levels[i - 1]);
                }
            }
        }
    }
}

pub proof fn lemma_reverse_shape(levels: Seq<LevelView>, ascending: bool)
    requires
        strictly_ordered(levels, ascending),
        levels_shape(levels),
    ensures
        strictly_ordered(levels.reverse(), !ascending),
        levels_shape(levels.reverse()),
        levels_ok(levels.reverse()),
{
    let r = levels.reverse();
    let n = levels.len();
    assert forall|i: int, j: int| 0 <= i < j < r.len() implies if !ascending {
        #[trigger] r[i].price < #[trigger] r[j].price
    } else {
        r[i].price > r[j].price
    } by {
        assert(r[i] == levels[n - 1 - i]);
        assert(r[j] == levels[n - 1 - j]);
    }
    assert forall|i: int| 0 <= i < r.len() implies #[trigger] r[i].orders.len() > 0 by {
        assert(r[i] == levels[n - 1 - i]);
    }
    assert forall|i: int, k: int|
        0 <= i < r.len() && 0 <= k < r[i].orders.len() implies #[trigger] r[i].orders[k].price
        == r[i].price by {
        assert(r[i] == levels[n - 1 - i]);
    }
    assert forall|i: int| 0 <= i < r.len() implies #[trigger] queue_ok(r[i].orders) by {
        assert(r[i] == levels[n - 1 - i]);
    }
}

pub proof fn lemma_count_orders_append(a: Seq<LevelView>, b: Seq<LevelView>)
    ensures
        count_orders(a + b) == count_orders(a) + count_orders(b),
    decreases a.len(),
{
    if a.len() > 0 {
        assert((a + b).drop_first() =~= a.drop_first() + b);
        lemma_count_orders_append(a.drop_first(), b);
    } else {
        assert(a + b =~= b);
    }
}

pub proof fn lemma_count_orders_reverse(levels: Seq<LevelView>)
    ensures
        count_orders(levels.reverse()) == count_orders(levels),
    decreases levels.len(),
{
    if levels.len() > 0 {
        let t = levels.drop_first();
        lemma_count_orders_reverse(t);
        assert(levels.reverse() =~= t.reverse() + seq![levels[0]]);
        lemma_count_orders_append(t.reverse(), seq![levels[0]]);
        assert(seq![levels[0]].drop_first() =~= Seq::<LevelView>::empty());
        assert(count_orders(Seq::<LevelView>::empty()) == 0);
        assert(count_orders(seq![levels[0]]) == levels[0].orders.len() + count_orders(
            seq![levels[0]].drop_first(),
        ));
    } else {
        assert(levels.reverse() =~= levels);
    }
}

/// Rests `o` on a side kept in ascending price order: appended to the level
/// of its price, or in a new level at its place.
pub open spec fn insert_order(levels: Seq<LevelView>, o: OrderView) -> Seq<LevelView>
    decreases levels.len(),
{
    if levels.len() == 0 {
        seq![LevelView { price: o.price, orders: seq![o] }]
    } else if o.price < levels[0].price {
        seq![LevelView { price: o.price, orders: seq![o] }] + levels
    } else if o.price == levels[0].price {
        levels.update(0, LevelView { price: levels[0].price, orders: levels[0].orders.push(o) })
    } else {
        seq![levels[0]] + insert_order(levels.drop_first(), o)
    }
}

/// The explicit form of `insert_order` at the first level not below the
/// order's price.
pub proof fn lemma_insert_order_at(levels: Seq<LevelView>, o: OrderView, i: int)
    requires
        0 <= i <= levels.len(),
        forall|j: int| 0 <= j < i ==> #[trigger] levels[j].price < o.price,
        i < levels.len() ==> levels[i].price >= o.price,
    ensures
        insert_order(levels, o) == if i < levels.len() && levels[i].price == o.price {
            levels.update(
                i,
                LevelView { price: levels[i].price, orders: levels[i].orders.push(o) },
            )
        } else {
            levels.insert(i, LevelView { price: o.price, orders: seq![o] })
        },
    decreases i,
{
    if i == 0 {
        if levels.len() == 0 {
            assert(levels.insert(0, LevelView { price: o.price, orders: seq![o] }) =~= seq![
                LevelView { price: o.price, orders: seq![o] },
            ]);
        } else if o.price < levels[0].price {
            assert(levels.insert(0, LevelView { price: o.price, orders: seq![o] }) =~= seq![
                LevelView { price: o.price, orders: seq![o] },
            ] + levels);
        }
    } else {
        let t = levels.drop_first();
        assert(levels[0].price < o.price);
        assert forall|j: int| 0 <= j < i - 1 implies #[trigger] t[j].price < o.price by {
            assert(t[j] == levels[j + 1]);
        }
        lemma_insert_order_at(t, o, i - 1);
        if i < levels.len() && levels[i].price == o.price {
            assert(seq![levels[0]] + t.update(
                i - 1,
                LevelView { price: t[i - 1].price, orders: t[i - 1].orders.push(o) },
            ) =~= levels.update(
                i,
                LevelView { price: levels[i].price, orders: levels[i].orders.push(o) },
            ));
        } else {
            assert(seq![levels[0]] + t.insert(i - 1, LevelView { price: o.price, orders: seq![o] })
                =~= levels.insert(i, LevelView { price: o.price, orders: seq![o] }));
        }
    }
}

/// At scale `t`, a queue, the taker's quantity, the executed quantity and
/// the fills so far all fit.
pub open spec fn queue_start(orders: Seq<Order>, qty: Dec, executed: Dec, fills: Seq<Fill>, t: nat) -> bool {
    queue_fits(orders, t) && fits_at(qty, t) && fits_at(executed, t) && fills_fit(fills, t)
}

/// At scale `p`, the prices of a queue and of the fills so far fit.
pub open spec fn queue_price_start(orders: Seq<Order>, fills: Seq<Fill>, p: nat) -> bool {
    queue_prices_fit(orders, p) && fills_prices_fit(fills, p)
}

/// At scale `p`, the prices of levels and of the fills so far fit.
pub open spec fn levels_price_start(levels: Seq<PriceLevel>, fills: Seq<Fill>, p: nat) -> bool {
    levels_prices_fit(levels, p) && fills_prices_fit(fills, p)
}

/// At scale `t`, levels, the taker's quantity, the executed quantity and
/// the fills so far all fit.
pub open spec fn levels_start(levels: Seq<PriceLevel>, qty: Dec, executed: Dec, fills: Seq<Fill>, t: nat) -> bool {
    levels_fit(levels, t) && fits_at(qty, t) && fits_at(executed, t) && fills_fit(fills, t)
}

/// Offers `taker` to `orders` in queue order, appending fills, advancing the
/// executed quantity and the trade id; returns the makers left.
#[verifier::spinoff_prover]
fn match_queue_exec(
    orders: Vec<Order>,
    taker: &Order,
    executed: &mut Dec,
    trade_id: &mut i64,
    fills: &mut Vec<Fill>,
    Ghost(s): Ghost<nat>,
) -> (rest: Vec<Order>)
    requires
        queue_ok(orders_view(orders@)),
        queue_fits(orders@, s),
        fits_at(taker.quantity, s),
        fits_at(*old(executed), s),
        fills_fit(old(fills)@, s),
        0 <= old(executed).val(),
        old(executed).val() <= taker.quantity.val() || old(executed).val() == 0,
        *old(trade_id) + orders@.len() <= i64::MAX,
    ensures
        ({
            let m = match_queue(
                orders_view(orders@),
                taker.side,
                taker.price.val(),
                taker.quantity.val(),
                old(executed).val(),
                *old(trade_id) as int,
            );
            &&& orders_view(rest@) == m.rest
            &&& fills_view(final(fills)@) == fills_view(old(fills)@) + m.fills
            &&& final(executed).val() == m.executed
            &&& *final(trade_id) == m.trade_id
        }),
        queue_fits(rest@, s),
        fits_at(*final(executed), s),
        fills_fit(final(fills)@, s),
        0 <= final(executed).val(),
        final(executed).val() <= taker.quantity.val() || final(executed).val() == 0,
        *old(trade_id) <= *final(trade_id) <= *old(trade_id) + orders@.len(),
        forall|t: nat|
            #[trigger] queue_start(orders@, taker.quantity, *old(executed), old(fills)@, t) ==> queue_fits(
                rest@,
                t,
            ) && fits_at(*final(executed), t) && fills_fit(final(fills)@, t),
        forall|p: nat|
            #[trigger] queue_price_start(orders@, old(fills)@, p) ==> queue_prices_fit(rest@, p)
                && fills_prices_fit(final(fills)@, p),
{
    let mut orders = orders;
    let mut rest: Vec<Order> = Vec::new();
    let ghost side = taker.side;
    let ghost limit = taker.price.val();
    let ghost qty = taker.quantity.val();
    let ghost total = match_queue(
        orders_view(orders@),
        side,
        limit,
        qty,
        executed.val(),
        *trade_id as int,
    );
    let ghost fills0 = fills_view(fills@);
    let ghost n0 = orders@.len() as int;
    let ghost t0 = *trade_id as int;
    let ghost orders0 = orders@;
    let ghost exec0 = *executed;
    let ghost fills0e = fills@;
    proof {
        assert(orders_view(rest@) =~= Seq::<OrderView>::empty());
    }
    while orders.len() > 0
        invariant
            queue_ok(orders_view(orders@)),
            queue_fits(orders@, s),
            queue_fits(rest@, s),
            fits_at(taker.quantity, s),
            fits_at(*executed, s),
            fills_fit(fills@, s),
            0 <= executed.val(),
            executed.val() <= qty || executed.val() == 0,
            qty == taker.quantity.val(),
            limit == taker.price.val(),
            side == taker.side,
            t0 <= *trade_id,
            *trade_id + orders@.len() <= t0 + n0,
            forall|t: nat|
                #[trigger] queue_start(orders0, taker.quantity, exec0, fills0e, t) ==> queue_fits(
                    orders@,
                    t,
                ) && queue_fits(rest@, t) && fits_at(*executed, t) && fills_fit(fills@, t),
            forall|p: nat|
                #[trigger] queue_price_start(orders0, fills0e, p) ==> queue_prices_fit(orders@, p)
                    && queue_prices_fit(rest@, p) && fills_prices_fit(fills@, p),
            t0 + n0 <= i64::MAX,
            ({
                let r = match_queue(
                    orders_view(orders@),
                    side,
                    limit,
                    qty,
                    executed.val(),
                    *trade_id as int,
                );
                &&& total.rest == orders_view(rest@) + r.rest
                &&& fills0 + total.fills == fills_view(fills@) + r.fills
                &&& total.executed == r.executed
                &&& total.trade_id == r.trade_id
            }),
        decreases orders@.len(),
    {
        let ghost before = orders_view(orders@);
        let ghost e0 = executed.val();
        let ghost tid0 = *trade_id as int;
        let ghost rest0 = orders_view(rest@);
        let ghost fv0 = fills_view(fills@);
        let ghost before_exec = orders@;
        let ghost ex_old = *executed;
        let ghost fills_old = fills@;
        let ghost rest_old = rest@;
        let mut m = orders.remove(0);
        let ghost m_old = m;
        proof {
            assert(before_exec[0] == m);
            assert(order_fits(before_exec[0], s));
            assert(orders_view(orders@) =~= before.drop_first());
            assert(before[0] == m@);
            assert(resting_ok(before[0]));
        }
        let crossing = match taker.side {
            OrderSide::Buy => m.price.le(&taker.price),
            OrderSide::Sell => taker.price.le(&m.price),
        };
        if crossing && executed.lt(&taker.quantity) {
            let taker_rem = sub_at(taker.quantity, *executed, Ghost(s));
            let maker_rem = sub_at(m.quantity, m.filled_quantity, Ghost(s));
            let f = Dec::min_of(taker_rem, maker_rem);
            *trade_id = *trade_id + 1;
            let new_exec = add_at(*executed, f, Ghost(s));
            *executed = new_exec;
            let new_filled = add_at(m.filled_quantity, f, Ghost(s));
            m.filled_quantity = new_filled;
            let fill = Fill {
                price: m.price,
                quantity: f,
                trade_id: *trade_id,
                other_user_id: m.user_id.clone(),
                order_id: m.order_id.clone(),
            };
            let ghost fills_exec0 = fills@;
            fills.push(fill);
            proof {
                assert(fills_view(fills@) =~= fv0.push(fill@));
                assert(fits_at(fill.quantity, s));
                assert forall|k: int| 0 <= k < fills@.len() implies fits_at(#[trigger] fills@[k].quantity, s) by {
                    if k < fills_exec0.len() {
                        assert(fills@[k] == fills_exec0[k]);
                    }
                }
                assert forall|t: nat| #[trigger] queue_start(orders0, taker.quantity, exec0, fills0e, t) implies order_fits(
                    m,
                    t,
                ) && fits_at(*executed, t) && fills_fit(fills@, t) by {
                    assert(queue_fits(before_exec, t));
                    assert(order_fits(before_exec[0], t));
                    lemma_fits_result(taker_rem, taker.quantity, ex_old, t);
                    lemma_fits_result(maker_rem, m_old.quantity, m_old.filled_quantity, t);
                    lemma_fits_result(new_exec, ex_old, f, t);
                    lemma_fits_result(new_filled, m_old.filled_quantity, f, t);
                    assert forall|k: int| 0 <= k < fills@.len() implies fits_at(#[trigger] fills@[k].quantity, t) by {
                        if k < fills_exec0.len() {
                            assert(fills@[k] == fills_exec0[k]);
                        }
                    }
                }
                assert forall|p: nat| #[trigger] queue_price_start(orders0, fills0e, p) implies fits_at(m.price, p)
                    && fills_prices_fit(fills@, p) by {
                    assert(queue_prices_fit(before_exec, p));
                    assert(fits_at(before_exec[0].price, p));
                    assert forall|k: int| 0 <= k < fills@.len() implies fits_at(#[trigger] fills@[k].price, p) by {
                        if k < fills_exec0.len() {
                            assert(fills@[k] == fills_exec0[k]);
                        }
                    }
                }
            }
        } else {
            proof {
                assert forall|t: nat| #[trigger] queue_start(orders0, taker.quantity, exec0, fills0e, t) implies order_fits(
                    m,
                    t,
                ) && fits_at(*executed, t) && fills_fit(fills@, t) by {
                    assert(queue_fits(before_exec, t));
                    assert(order_fits(before_exec[0], t));
                }
                assert forall|p: nat| #[trigger] queue_price_start(orders0, fills0e, p) implies fits_at(m.price, p)
                    && fills_prices_fit(fills@, p) by {
                    assert(queue_prices_fit(before_exec, p));
                    assert(fits_at(before_exec[0].price, p));
                }
            }
        }
        if m.filled_quantity.lt(&m.quantity) {
            rest.push(m);
            proof {
                assert(orders_view(rest@) =~= rest0.push(m@));
            }
        }
        proof {
            assert forall|t: nat| #[trigger] queue_start(orders0, taker.quantity, exec0, fills0e, t) implies queue_fits(
                orders@,
                t,
            ) && queue_fits(rest@, t) && fits_at(*executed, t) && fills_fit(fills@, t) by {
                assert(queue_fits(before_exec, t));
                assert(order_fits(before_exec[0], t));
                assert forall|k: int| 0 <= k < orders@.len() implies #[trigger] order_fits(orders@[k], t) by {
                    assert(orders@[k] == before_exec[k + 1]);
                    assert(order_fits(before_exec[k + 1], t));
                }
                assert forall|k: int| 0 <= k < rest@.len() implies #[trigger] order_fits(rest@[k], t) by {
                    if k < rest_old.len() {
                        assert(rest@[k] == rest_old[k]);
                    }
                }
            }
            assert forall|p: nat| #[trigger] queue_price_start(orders0, fills0e, p) implies queue_prices_fit(
                orders@,
                p,
            ) && queue_prices_fit(rest@, p) && fills_prices_fit(fills@, p) by {
                assert(queue_prices_fit(before_exec, p));
                assert forall|k: int| 0 <= k < orders@.len() implies fits_at(#[trigger] orders@[k].price, p) by {
                    assert(orders@[k] == before_exec[k + 1]);
                    assert(fits_at(before_exec[k + 1].price, p));
                }
                assert forall|k: int| 0 <= k < rest@.len() implies fits_at(#[trigger] rest@[k].price, p) by {
                    if k < rest_old.len() {
                        assert(rest@[k] == rest_old[k]);
                    }
                }
            }
        }
    }
    proof {
        assert(orders_view(orders@) =~= Seq::<OrderView>::empty());
        assert(total.rest =~= orders_view(rest@));
        assert(fills0 + total.fills =~= fills_view(fills@));
    }
    rest
}

/// Offers `taker` to `levels` in the given (matching) order; returns the
/// levels that still hold orders, in the same order.
#[verifier::spinoff_prover]
fn match_levels_exec(
    levels: Vec<PriceLevel>,
    taker: &Order,
    executed: &mut Dec,
    trade_id: &mut i64,
    fills: &mut Vec<Fill>,
    Ghost(s): Ghost<nat>,
) -> (out: Vec<PriceLevel>)
    requires
        levels_ok(levels_view(levels@)),
        levels_fit(levels@, s),
        fits_at(taker.quantity, s),
        fits_at(*old(executed), s),
        fills_fit(old(fills)@, s),
        0 <= old(executed).val(),
        old(executed).val() <= taker.quantity.val() || old(executed).val() == 0,
        *old(trade_id) + count_orders(levels_view(levels@)) <= i64::MAX,
    ensures
        ({
            let m = match_levels(
                levels_view(levels@),
                taker.side,
                taker.price.val(),
                taker.quantity.val(),
                old(executed).val(),
                *old(trade_id) as int,
            );
            &&& levels_view(out@) == m.levels
            &&& fills_view(final(fills)@) == fills_view(old(fills)@) + m.fills
            &&& final(executed).val() == m.executed
            &&& *final(trade_id) == m.trade_id
        }),
        levels_fit(out@, s),
        fits_at(*final(executed), s),
        fills_fit(final(fills)@, s),
        0 <= final(executed).val(),
        final(executed).val() <= taker.quantity.val() || final(executed).val() == 0,
        forall|t: nat|
            #[trigger] levels_start(levels@, taker.quantity, *old(executed), old(fills)@, t) ==> levels_fit(
                out@,
                t,
            ) && fits_at(*final(executed), t) && fills_fit(final(fills)@, t),
        forall|p: nat|
            #[trigger] levels_price_start(levels@, old(fills)@, p) ==> levels_prices_fit(out@, p)
                && fills_prices_fit(final(fills)@, p),
{
    let mut levels = levels;
    let mut out: Vec<PriceLevel> = Vec::new();
    let ghost side = taker.side;
    let ghost limit = taker.price.val();
    let ghost qty = taker.quantity.val();
    let ghost total = match_levels(
        levels_view(levels@),
        side,
        limit,
        qty,
        executed.val(),
        *trade_id as int,
    );
    let ghost fills0 = fills_view(fills@);
    let ghost c0 = count_orders(levels_view(levels@));
    let ghost t0 = *trade_id as int;
    let ghost levels0 = levels@;
    let ghost exec0 = *executed;
    let ghost fills0e = fills@;
    proof {
        assert(levels_view(out@) =~= Seq::<LevelView>::empty());
    }
    while levels.len() > 0
        invariant
            levels_ok(levels_view(levels@)),
            levels_fit(levels@, s),
            levels_fit(out@, s),
            fits_at(taker.quantity, s),
            fits_at(*executed, s),
            fills_fit(fills@, s),
            0 <= executed.val(),
            executed.val() <= qty || executed.val() == 0,
            qty == taker.quantity.val(),
            limit == taker.price.val(),
            side == taker.side,
            *trade_id + count_orders(levels_view(levels@)) <= t0 + c0,
            t0 + c0 <= i64::MAX,
            forall|t: nat|
                #[trigger] levels_start(levels0, taker.quantity, exec0, fills0e, t) ==> levels_fit(
                    levels@,
                    t,
                ) && levels_fit(out@, t) && fits_at(*executed, t) && fills_fit(fills@, t),
            forall|p: nat|
                #[trigger] levels_price_start(levels0, fills0e, p) ==> levels_prices_fit(levels@, p)
                    && levels_prices_fit(out@, p) && fills_prices_fit(fills@, p),
            ({
                let r = match_levels(
                    levels_view(levels@),
                    side,
                    limit,
                    qty,
                    executed.val(),
                    *trade_id as int,
                );
                &&& total.levels == levels_view(out@) + r.levels
                &&& fills0 + total.fills == fills_view(fills@) + r.fills
                &&& total.executed == r.executed
                &&& total.trade_id == r.trade_id
            }),
        decreases levels@.len(),
    {
        let ghost before = levels_view(levels@);
        let ghost before_exec = levels@;
        let ghost out0 = levels_view(out@);
        let ghost fv0 = fills_view(fills@);
        let ghost ex_old = *executed;
        let ghost fills_old = fills@;
        let ghost out_old = out@;
        let level = levels.remove(0);
        proof {
            assert(levels_view(levels@) =~= before.drop_first());
            assert(before_exec[0] == level);
            assert(before[0] == level@);
            assert(queue_ok(before[0].orders));
            assert(queue_fits(before_exec[0].orders@, s));
            assert(count_orders(before) == before[0].orders.len() + count_orders(before.drop_first()));
            lemma_count_orders_nonneg(before.drop_first());
        }
        let PriceLevel { price, orders } = level;
        let ghost q = match_queue(
            orders_view(orders@),
            side,
            limit,
            qty,
            executed.val(),
            *trade_id as int,
        );
        let rest = match_queue_exec(orders, taker, executed, trade_id, fills, Ghost(s));
        if rest.len() > 0 {
            let lvl = PriceLevel { price, orders: rest };
            out.push(lvl);
            proof {
                assert(levels_view(out@) =~= out0.push(lvl@));
            }
        }
        proof {
            assert(fv0 + q.fills == fills_view(fills@));
            assert forall|t: nat| #[trigger] levels_start(levels0, taker.quantity, exec0, fills0e, t) implies levels_fit(
                levels@,
                t,
            ) && levels_fit(out@, t) && fits_at(*executed, t) && fills_fit(fills@, t) by {
                assert(levels_fit(before_exec, t));
                assert(queue_fits(before_exec[0].orders@, t));
                assert(queue_start(before_exec[0].orders@, taker.quantity, ex_old, fills_old, t));
                assert forall|i: int| 0 <= i < levels@.len() implies #[trigger] queue_fits(levels@[i].orders@, t) by {
                    assert(levels@[i] == before_exec[i + 1]);
                    assert(queue_fits(before_exec[i + 1].orders@, t));
                }
                assert forall|i: int| 0 <= i < out@.len() implies #[trigger] queue_fits(out@[i].orders@, t) by {
                    if i < out_old.len() {
                        assert(out@[i] == out_old[i]);
                    }
                }
            }
            assert forall|p: nat| #[trigger] levels_price_start(levels0, fills0e, p) implies levels_prices_fit(
                levels@,
                p,
            ) && levels_prices_fit(out@, p) && fills_prices_fit(fills@, p) by {
                assert(levels_prices_fit(before_exec, p));
                assert(queue_prices_fit(before_exec[0].orders@, p));
                assert(queue_price_start(before_exec[0].orders@, fills_old, p));
                assert forall|i: int| 0 <= i < levels@.len() implies #[trigger] queue_prices_fit(levels@[i].orders@, p) by {
                    assert(levels@[i] == before_exec[i + 1]);
                    assert(queue_prices_fit(before_exec[i + 1].orders@, p));
                }
                assert forall|i: int| 0 <= i < out@.len() implies #[trigger] queue_prices_fit(out@[i].orders@, p) by {
                    if i < out_old.len() {
                        assert(out@[i] == out_old[i]);
                    }
                }
            }
        }
    }
    proof {
        assert(levels_view(levels@) =~= Seq::<LevelView>::empty());
        assert(total.levels =~= levels_view(out@));
        assert(fills0 + total.fills =~= fills_view(fills@));
    }
    out
}

fn reverse_levels(v: Vec<PriceLevel>) -> (r: Vec<PriceLevel>)
    ensures
        r@ == v@.reverse(),
{
    let ghost orig = v@;
    let mut v = v;
    let mut r: Vec<PriceLevel> = Vec::new();
    while v.len() > 0
        invariant
            v@ == orig.take(v@.len() as int),
            r@ == orig.reverse().take(orig.len() - v@.len()),
            v@.len() <= orig.len(),
        decreases v@.len(),
    {
        let ghost n = v@.len();
        let x = v.pop().unwrap();
        r.push(x);
        proof {
            assert(v@ =~= orig.take(v@.len() as int));
            assert(r@ =~= orig.reverse().take(orig.len() - v@.len()));
        }
    }
    proof {
        assert(r@ =~= orig.reverse());
    }
    r
}

proof fn lemma_levels_view_reverse(v: Seq<PriceLevel>)
    ensures
        levels_view(v.reverse()) == levels_view(v).reverse(),
{
    assert(levels_view(v.reverse()) =~= levels_view(v).reverse());
}

proof fn lemma_levels_prices_fit_reverse(v: Seq<PriceLevel>, p: nat)
    requires
        levels_prices_fit(v, p),
    ensures
        levels_prices_fit(v.reverse(), p),
{
    assert forall|i: int| 0 <= i < v.reverse().len() implies #[trigger] queue_prices_fit(
        v.reverse()[i].orders@,
        p,
    ) by {
        assert(v.reverse()[i] == v[v.len() - 1 - i]);
    }
}

proof fn lemma_levels_fit_reverse(v: Seq<PriceLevel>, s: nat)
    requires
        levels_fit(v, s),
    ensures
        levels_fit(v.reverse(), s),
{
    assert forall|i: int| 0 <= i < v.reverse().len() implies #[trigger] queue_fits(
        v.reverse()[i].orders@,
        s,
    ) by {
        assert(v.reverse()[i] == v[v.len() - 1 - i]);
    }
}

/// Rests `order` on a side kept in ascending price order.
#[verifier::spinoff_prover]
fn insert_resting(levels: &mut Vec<PriceLevel>, order: Order)
    requires
        side_wf(levels_view(old(levels)@)),
        resting_ok(order@),
    ensures
        levels_view(final(levels)@) == insert_order(levels_view(old(levels)@), order@),
        side_wf(levels_view(final(levels)@)),
        forall|s: nat|
            levels_fit(old(levels)@, s) && #[trigger] order_fits(order, s) ==> levels_fit(
                final(levels)@,
                s,
            ),
        forall|p: nat|
            #[trigger] levels_prices_fit(old(levels)@, p) && fits_at(order.price, p) ==> levels_prices_fit(
                final(levels)@,
                p,
            ),
{
    let ghost lv = levels_view(levels@);
    let ghost old_levels = levels@;
    let n = levels.len();
    let mut i: usize = 0;
    while i < n && levels[i].price.lt(&order.price)
        invariant
            n == levels@.len(),
            levels@ == old_levels,
            lv == levels_view(levels@),
            i <= n,
            forall|j: int| 0 <= j < i ==> #[trigger] lv[j].price < order@.price,
        decreases n - i,
    {
        i = i + 1;
    }
    proof {
        lemma_insert_order_at(lv, order@, i as int);
    }
    if i < n && levels[i].price.same_value(&order.price) {
        let mut lvl = levels.remove(i);
        let ghost lvl0 = lvl;
        lvl.orders.push(order);
        levels.insert(i, lvl);
        proof {
            assert(orders_view(lvl.orders@) =~= orders_view(lvl0.orders@).push(order@));
            assert(levels_view(levels@) =~= lv.update(
                i as int,
                LevelView { price: lv[i as int].price, orders: lv[i as int].orders.push(order@) },
            ));
            let nv = levels_view(levels@);
            assert forall|a: int, b: int| 0 <= a < b < nv.len() implies #[trigger] nv[a].price
                < #[trigger] nv[b].price by {
                assert(nv[a].price == lv[a].price);
                assert(nv[b].price == lv[b].price);
            }
            assert forall|a: int, k: int|
                0 <= a < nv.len() && 0 <= k < nv[a].orders.len() implies #[trigger] nv[a].orders[k].price
                == nv[a].price by {
                if a != i {
                    assert(nv[a] == lv[a]);
                } else if k < lv[a].orders.len() {
                    assert(nv[a].orders[k] == lv[a].orders[k]);
                }
            }
            assert forall|a: int| 0 <= a < nv.len() implies #[trigger] queue_ok(nv[a].orders) by {
                if a != i {
                    assert(nv[a] == lv[a]);
                } else {
                    assert forall|k: int| 0 <= k < nv[a].orders.len() implies #[trigger] resting_ok(
                        nv[a].orders[k],
                    ) by {
                        if k < lv[a].orders.len() {
                            assert(nv[a].orders[k] == lv[a].orders[k]);
                            assert(queue_ok(lv[a].orders));
                        }
                    }
                }
            }
            assert forall|s: nat|
                levels_fit(old_levels, s) && #[trigger] order_fits(order, s) implies levels_fit(
                levels@,
                s,
            ) by {
                assert forall|a: int| 0 <= a < levels@.len() implies #[trigger] queue_fits(
                    levels@[a].orders@,
                    s,
                ) by {
                    if a != i {
                        assert(levels@[a] == old_levels[a]);
                    } else {
                        assert(queue_fits(old_levels[a].orders@, s));
                        assert forall|k: int| 0 <= k < levels@[a].orders@.len() implies #[trigger] order_fits(
                            levels@[a].orders@[k],
                            s,
                        ) by {
                            if k < old_levels[a].orders@.len() {
                                assert(levels@[a].orders@[k] == old_levels[a].orders@[k]);
                            }
                        }
                    }
                }
            }
            assert forall|p: nat|
                #[trigger] levels_prices_fit(old_levels, p) && fits_at(order.price, p) implies levels_prices_fit(
                levels@,
                p,
            ) by {
                assert forall|a: int| 0 <= a < levels@.len() implies #[trigger] queue_prices_fit(
                    levels@[a].orders@,
                    p,
                ) by {
                    if a != i {
                        assert(levels@[a] == old_levels[a]);
                    } else {
                        assert(queue_prices_fit(old_levels[a].orders@, p));
                        assert forall|k: int| 0 <= k < levels@[a].orders@.len() implies fits_at(
                            #[trigger] levels@[a].orders@[k].price,
                            p,
                        ) by {
                            if k < old_levels[a].orders@.len() {
                                assert(levels@[a].orders@[k] == old_levels[a].orders@[k]);
                            }
                        }
                    }
                }
            }
        }
    } else {
        let ghost o = order@;
        let p = order.price;
        let mut orders: Vec<Order> = Vec::new();
        orders.push(order);
        let lvl = PriceLevel { price: p, orders };
        levels.insert(i, lvl);
        proof {
            assert(orders_view(lvl.orders@) =~= seq![o]);
            assert(levels_view(levels@) =~= lv.insert(
                i as int,
                LevelView { price: o.price, orders: seq![o] },
            ));
            let nv = levels_view(levels@);
            assert forall|a: int, b: int| 0 <= a < b < nv.len() implies #[trigger] nv[a].price
                < #[trigger] nv[b].price by {
                if a < i {
                    assert(nv[a] == lv[a]);
                } else if a > i {
                    assert(nv[a] == lv[a - 1]);
                }
                if b < i {
                    assert(nv[b] == lv[b]);
                } else if b > i {
                    assert(nv[b] == lv[b - 1]);
                    if a == i {
                        assert(lv[i as int].price >= o.price);
                    }
                }
            }
            assert forall|a: int| 0 <= a < nv.len() implies #[trigger] nv[a].orders.len() > 0 by {
                if a < i {
                    assert(nv[a] == lv[a]);
                } else if a > i {
                    assert(nv[a] == lv[a - 1]);
                }
            }
            assert forall|a: int, k: int|
                0 <= a < nv.len() && 0 <= k < nv[a].orders.len() implies #[trigger] nv[a].orders[k].price
                == nv[a].price by {
                if a < i {
                    assert(nv[a] == lv[a]);
                } else if a > i {
                    assert(nv[a] == lv[a - 1]);
                }
            }
            assert forall|a: int| 0 <= a < nv.len() implies #[trigger] queue_ok(nv[a].orders) by {
                if a < i {
                    assert(nv[a] == lv[a]);
                } else if a > i {
                    assert(nv[a] == lv[a - 1]);
                } else {
                    assert(nv[a].orders =~= seq![o]);
                }
            }
            assert forall|s: nat|
                levels_fit(old_levels, s) && #[trigger] order_fits(lvl.orders@[0], s) implies levels_fit(
                levels@,
                s,
            ) by {
                assert forall|a: int| 0 <= a < levels@.len() implies #[trigger] queue_fits(
                    levels@[a].orders@,
                    s,
                ) by {
                    if a < i {
                        assert(levels@[a] == old_levels[a]);
                    } else if a > i {
                        assert(levels@[a] == old_levels[a - 1]);
                    }
                }
            }
            assert forall|p: nat|
                #[trigger] levels_prices_fit(old_levels, p) && fits_at(lvl.orders@[0].price, p) implies levels_prices_fit(
                levels@,
                p,
            ) by {
                assert forall|a: int| 0 <= a < levels@.len() implies #[trigger] queue_prices_fit(
                    levels@[a].orders@,
                    p,
                ) by {
                    if a < i {
                        assert(levels@[a] == old_levels[a]);
                    } else if a > i {
                        assert(levels@[a] == old_levels[a - 1]);
                    }
                }
            }
        }
    }
}

/// The order book of one market.
pub struct OrderBook {
    /// Buy orders, levels in ascending price.
    pub bids: Vec<PriceLevel>,
    /// Sell orders, levels in ascending price.
    pub asks: Vec<PriceLevel>,
    pub asset_pair: AssetPair,
    /// The id of the last trade made in this market.
    pub trade_id: i64,
}

pub struct BookView {
    pub bids: Seq<LevelView>,
    pub asks: Seq<LevelView>,
    pub asset_pair: AssetPair,
    pub trade_id: int,
}

impl View for OrderBook {
    type V = BookView;

    open spec fn view(&self) -> BookView {
        BookView {
            bids: levels_view(self.bids@),
            asks: levels_view(self.asks@),
            asset_pair: self.asset_pair,
            trade_id: self.trade_id as int,
        }
    }
}

/// The opposite side of a taker, best price first.
pub open spec fn opposite_in_priority(book: BookView, side: OrderSide) -> Seq<LevelView> {
    match side {
        OrderSide::Buy => book.asks,
        OrderSide::Sell => book.bids.reverse(),
    }
}

/// Matching of `taker` against the book, before it rests.
pub open spec fn match_taker(book: BookView, taker: OrderView) -> SideMatch {
    match_levels(
        opposite_in_priority(book, taker.side),
        taker.side,
        taker.price,
        taker.quantity,
        0,
        book.trade_id,
    )
}

/// A processed order's status: filled when nothing is left, partially
/// filled when something executed, else as it came.
pub open spec fn status_after(status: OrderStatus, executed: int, qty: int) -> OrderStatus {
    if executed >= qty {
        OrderStatus::Filled
    } else if executed > 0 {
        OrderStatus::PartiallyFilled
    } else {
        status
    }
}

/// The taker as it rests after executing `executed`.
pub open spec fn rested(taker: OrderView, executed: int) -> OrderView {
    OrderView {
        price: taker.price,
        quantity: taker.quantity,
        filled: executed,
        order_id: taker.order_id,
        user_id: taker.user_id,
        side: taker.side,
        order_type: taker.order_type,
        status: status_after(taker.status, executed, taker.quantity),
        timestamp: taker.timestamp,
    }
}

/// The book after `taker` has been matched and, if not complete, rested.
pub open spec fn book_after(book: BookView, taker: OrderView) -> BookView {
    let m = match_taker(book, taker);
    let t = rested(taker, m.executed);
    let rests = m.executed < taker.quantity;
    match taker.side {
        OrderSide::Buy => BookView {
            bids: if rests {
                insert_order(book.bids, t)
            } else {
                book.bids
            },
            asks: m.levels,
            asset_pair: book.asset_pair,
            trade_id: m.trade_id,
        },
        OrderSide::Sell => BookView {
            bids: m.levels.reverse(),
            asks: if rests {
                insert_order(book.asks, t)
            } else {
                book.asks
            },
            asset_pair: book.asset_pair,
            trade_id: m.trade_id,
        },
    }
}

/// Number of orders resting on the side a taker of `side` trades against.
pub open spec fn opposite_count(book: BookView, side: OrderSide) -> int {
    match side {
        OrderSide::Buy => count_orders(book.asks),
        OrderSide::Sell => count_orders(book.bids),
    }
}

impl OrderBook {
    /// Both sides are well formed.
    pub open spec fn wf(&self) -> bool {
        side_wf(self@.bids) && side_wf(self@.asks)
    }

    /// Every quantity resting on the book fits at scale `s`.
    pub open spec fn fits(&self, s: nat) -> bool {
        levels_fit(self.bids@, s) && levels_fit(self.asks@, s)
    }

    /// Every price resting on the book fits at scale `p`.
    pub open spec fn prices_fit(&self, p: nat) -> bool {
        levels_prices_fit(self.bids@, p) && levels_prices_fit(self.asks@, p)
    }

    pub fn new(asset_pair: AssetPair, trade_id: i64) -> (book: OrderBook)
        ensures
            book@ == (BookView {
                bids: Seq::empty(),
                asks: Seq::empty(),
                asset_pair,
                trade_id: trade_id as int,
            }),
            book.wf(),
    {
        let book = OrderBook {
            asks: Vec::new(),
            bids: Vec::new(),
            asset_pair,
            trade_id,
        };
        proof {
            assert(levels_view(book.bids@) =~= Seq::<LevelView>::empty());
            assert(levels_view(book.asks@) =~= Seq::<LevelView>::empty());
        }
        book
    }

    pub fn ticker(&self) -> (t: String)
        ensures
            t@ == ticker_of(self.asset_pair.base, self.asset_pair.quote),
    {
        self.asset_pair.ticker()
    }

    /// Matches `order` against the opposite side with price-time priority
    /// and rests what is left of it, when amounts fit at scale `s`.
    pub(crate) fn process_order_at(&mut self, order: Order, Ghost(s): Ghost<nat>) -> (result:
        ProcessOrderResult)
        requires
            old(self).wf(),
            old(self).fits(s),
            fits_at(order.quantity, s),
            old(self).trade_id + opposite_count(old(self)@, order.side) <= i64::MAX,
        ensures
            final(self).wf(),
            final(self).fits(s),
            final(self)@ == book_after(old(self)@, order@),
            result.executed_quantity.val() == match_taker(old(self)@, order@).executed,
            fills_view(result.fills@) == match_taker(old(self)@, order@).fills,
            fills_fit(result.fills@, s),
            fits_at(result.executed_quantity, s),
            forall|t: nat|
                #[trigger] old(self).fits(t) && fits_at(order.quantity, t) ==> final(self).fits(t)
                    && fills_fit(result.fills@, t) && fits_at(result.executed_quantity, t),
            forall|p: nat|
                #[trigger] old(self).prices_fit(p) && fits_at(order.price, p) ==> final(self).prices_fit(p)
                    && fills_prices_fit(result.fills@, p),
    {
        let ghost book0 = self@;
        let ghost bids_exec0 = self.bids@;
        let ghost asks_exec0 = self.asks@;
        let ghost taker0 = order@;
        let ghost order_in = order;
        let mut order = order;
        let mut executed = Dec::zero();
        let mut fills: Vec<Fill> = Vec::new();
        let ghost exec_init = executed;
        let ghost fills_init = fills@;
        let mut tid = self.trade_id;
        proof {
            lemma_side_wf_parts(book0.bids);
            lemma_side_wf_parts(book0.asks);
            assert(fills_view(fills@) =~= Seq::<FillView>::empty());
            crate::dec::lemma_bound_at_anti(0, s);
        }
        match order.side {
            OrderSide::Buy => {
                let mut asks: Vec<PriceLevel> = Vec::new();
                std::mem::swap(&mut asks, &mut self.asks);
                let out = match_levels_exec(asks, &order, &mut executed, &mut tid, &mut fills, Ghost(s));
                self.asks = out;
                proof {
                    lemma_match_levels_shape(book0.asks, true, order.side, order@.price, order@.quantity, 0, book0.trade_id);
                    assert forall|t: nat| #[trigger] old(self).fits(t) && fits_at(order_in.quantity, t) implies levels_fit(self.bids@, t) && levels_fit(self.asks@, t) && fits_at(executed, t)
                        && fills_fit(fills@, t) by {
                        assert(levels_start(asks_exec0, order.quantity, exec_init, fills_init, t));
                    }
                    assert forall|p: nat| #[trigger] old(self).prices_fit(p) && fits_at(order_in.price, p) implies levels_prices_fit(
                        self.bids@,
                        p,
                    ) && levels_prices_fit(self.asks@, p) && fills_prices_fit(fills@, p) by {
                        assert(levels_price_start(asks_exec0, fills_init, p));
                    }
                }
            },
            OrderSide::Sell => {
                let mut bids: Vec<PriceLevel> = Vec::new();
                std::mem::swap(&mut bids, &mut self.bids);
                let rev = reverse_levels(bids);
                proof {
                    lemma_levels_view_reverse(bids_exec0);
                    lemma_levels_fit_reverse(bids_exec0, s);
                    lemma_reverse_shape(book0.bids, true);
                    lemma_count_orders_reverse(book0.bids);
                }
                let out = match_levels_exec(rev, &order, &mut executed, &mut tid, &mut fills, Ghost(s));
                let ghost out_exec = out@;
                let back = reverse_levels(out);
                self.bids = back;
                proof {
                    lemma_match_levels_shape(book0.bids.reverse(), false, order.side, order@.price, order@.quantity, 0, book0.trade_id);
                    let m = match_taker(book0, order@);
                    lemma_levels_view_reverse(out_exec);
                    lemma_reverse_shape(m.levels, false);
                    lemma_levels_fit_reverse(out_exec, s);
                    assert forall|t: nat| #[trigger] old(self).fits(t) && fits_at(order_in.quantity, t) implies levels_fit(self.bids@, t) && levels_fit(self.asks@, t) && fits_at(executed, t)
                        && fills_fit(fills@, t) by {
                        lemma_levels_fit_reverse(bids_exec0, t);
                        assert(levels_start(bids_exec0.reverse(), order.quantity, exec_init, fills_init, t));
                        lemma_levels_fit_reverse(out_exec, t);
                    }
                    assert forall|p: nat| #[trigger] old(self).prices_fit(p) && fits_at(order_in.price, p) implies levels_prices_fit(
                        self.bids@,
                        p,
                    ) && levels_prices_fit(self.asks@, p) && fills_prices_fit(fills@, p) by {
                        lemma_levels_prices_fit_reverse(bids_exec0, p);
                        assert(levels_price_start(bids_exec0.reverse(), fills_init, p));
                        lemma_levels_prices_fit_reverse(out_exec, p);
                    }
                }
            },
        }
        self.trade_id = tid;
        order.filled_quantity = executed;
        if !executed.lt(&order.quantity) {
            order.order_status = OrderStatus::Filled;
        } else if executed.is_positive() {
            order.order_status = OrderStatus::PartiallyFilled;
        }
        proof {
            let m = match_taker(book0, order@);
            assert(order@ == rested(taker0, m.executed)) by {
                assert(order@.filled == m.executed);
            }
        }
        if executed.lt(&order.quantity) {
            proof {
                assert(resting_ok(order@));
                assert(order_fits(order, s));
            }
            let ghost rested_order = order;
            let ghost bids_mid = self.bids@;
            let ghost asks_mid = self.asks@;
            match order.side {
                OrderSide::Buy => insert_resting(&mut self.bids, order),
                OrderSide::Sell => insert_resting(&mut self.asks, order),
            }
            proof {
                assert forall|t: nat| #[trigger] old(self).fits(t) && fits_at(order_in.quantity, t) implies levels_fit(self.bids@, t) && levels_fit(self.asks@, t) by {
                    assert(order_fits(rested_order, t));
                    assert(levels_fit(bids_mid, t) && levels_fit(asks_mid, t));
                }
                assert forall|p: nat| #[trigger] old(self).prices_fit(p) && fits_at(order_in.price, p) implies levels_prices_fit(
                    self.bids@,
                    p,
                ) && levels_prices_fit(self.asks@, p) by {
                    assert(fits_at(rested_order.price, p));
                    assert(levels_prices_fit(bids_mid, p) && levels_prices_fit(asks_mid, p));
                }
            }
        }
        ProcessOrderResult { executed_quantity: executed, fills }
    }
}

impl OrderBook {
    /// Matches `order` against the opposite side of the book with
    /// price-time priority (best price first, oldest first within a price),
    /// each fill at the resting order's price; what is left of `order`
    /// rests on its own side.
    pub fn process_order(&mut self, order: Order) -> (result: ProcessOrderResult)
        requires
            old(self).wf(),
            exists|s: nat| old(self).fits(s) && fits_at(order.quantity, s),
            old(self).trade_id + opposite_count(old(self)@, order.side) <= i64::MAX,
        ensures
            final(self).wf(),
            final(self)@ == book_after(old(self)@, order@),
            result.executed_quantity.val() == match_taker(old(self)@, order@).executed,
            fills_view(result.fills@) == match_taker(old(self)@, order@).fills,
            final(self).trade_id == old(self).trade_id + result.fills@.len(),
            result.fills@.len() <= opposite_count(old(self)@, order.side),
            book_size(final(self)@) <= book_size(old(self)@) + 1,
            forall|t: nat|
                #[trigger] old(self).fits(t) && fits_at(order.quantity, t) ==> final(self).fits(t)
                    && fills_fit(result.fills@, t) && fits_at(result.executed_quantity, t),
            forall|p: nat|
                #[trigger] old(self).prices_fit(p) && fits_at(order.price, p) ==> final(self).prices_fit(p)
                    && fills_prices_fit(result.fills@, p),
    {
        let ghost s = choose|s: nat|
            self.fits(s) && fits_at(order.quantity, s);
        proof {
            law_fills_account_for_execution(self@, order@);
            lemma_book_size_after(self@, order@);
        }
        let r = self.process_order_at(order, Ghost(s));
        proof {
            assert(fills_view(r.fills@).len() == r.fills@.len());
        }
        r
    }
}

/// Total quantity of a list of fills.
pub open spec fn sum_quantities(fills: Seq<FillView>) -> int
    decreases fills.len(),
{
    if fills.len() == 0 {
        0
    } else {
        fills[0].quantity + sum_quantities(fills.drop_first())
    }
}

pub proof fn lemma_sum_quantities_append(a: Seq<FillView>, b: Seq<FillView>)
    ensures
        sum_quantities(a + b) == sum_quantities(a) + sum_quantities(b),
    decreases a.len(),
{
    if a.len() > 0 {
        assert((a + b).drop_first() =~= a.drop_first() + b);
        lemma_sum_quantities_append(a.drop_first(), b);
    } else {
        assert(a + b =~= b);
    }
}

/// The fills of a queue match: their quantities add up to what executed,
/// each is positive and crosses the limit, trade ids run consecutively.
pub proof fn lemma_match_queue_fills(
    makers: Seq<OrderView>,
    side: OrderSide,
    limit: int,
    qty: int,
    executed: int,
    tid: int,
)
    requires
        queue_ok(makers),
    ensures
        ({
            let r = match_queue(makers, side, limit, qty, executed, tid);
            &&& sum_quantities(r.fills) == r.executed - executed
            &&& r.trade_id == tid + r.fills.len()
            &&& forall|k: int|
                0 <= k < r.fills.len() ==> {
                    &&& #[trigger] r.fills[k].quantity > 0
                    &&& crosses(side, limit, r.fills[k].price)
                    &&& r.fills[k].trade_id == tid + 1 + k
                }
        }),
    decreases makers.len(),
{
    if makers.len() > 0 {
        let tail = makers.drop_first();
        assert forall|k: int| 0 <= k < tail.len() implies #[trigger] resting_ok(tail[k]) by {
            assert(tail[k] == makers[k + 1]);
        }
        assert(resting_ok(makers[0]));
        let m = makers[0];
        if crosses(side, limit, m.price) && executed < qty {
            let f = min_int(qty - executed, m.quantity - m.filled);
            lemma_match_queue_fills(tail, side, limit, qty, executed + f, tid + 1);
            let r = match_queue(tail, side, limit, qty, executed + f, tid + 1);
            let fl = seq![fill_against(m, f, tid + 1)] + r.fills;
            assert(fl.drop_first() =~= r.fills);
            assert forall|k: int| 0 <= k < fl.len() implies {
                &&& #[trigger] fl[k].quantity > 0
                &&& crosses(side, limit, fl[k].price)
                &&& fl[k].trade_id == tid + 1 + k
            } by {
                if k > 0 {
                    assert(fl[k] == r.fills[k - 1]);
                }
            }
        } else {
            lemma_match_queue_fills(tail, side, limit, qty, executed, tid);
        }
    }
}

pub proof fn lemma_match_levels_fills(
    levels: Seq<LevelView>,
    side: OrderSide,
    limit: int,
    qty: int,
    executed: int,
    tid: int,
)
    requires
        levels_ok(levels),
    ensures
        ({
            let r = match_levels(levels, side, limit, qty, executed, tid);
            &&& sum_quantities(r.fills) == r.executed - executed
            &&& r.trade_id == tid + r.fills.len()
            &&& forall|k: int|
                0 <= k < r.fills.len() ==> {
                    &&& #[trigger] r.fills[k].quantity > 0
                    &&& crosses(side, limit, r.fills[k].price)
                    &&& r.fills[k].trade_id == tid + 1 + k
                }
        }),
    decreases levels.len(),
{
    if levels.len() > 0 {
        let tail = levels.drop_first();
        assert forall|i: int| 0 <= i < tail.len() implies #[trigger] queue_ok(tail[i].orders) by {
            assert(tail[i] == levels[i + 1]);
        }
        assert(queue_ok(levels[0].orders));
        lemma_match_queue_fills(levels[0].orders, side, limit, qty, executed, tid);
        let q = match_queue(levels[0].orders, side, limit, qty, executed, tid);
        lemma_match_levels_fills(tail, side, limit, qty, q.executed, q.trade_id);
        let r = match_levels(tail, side, limit, qty, q.executed, q.trade_id);
        lemma_sum_quantities_append(q.fills, r.fills);
        let fl = q.fills + r.fills;
        assert forall|k: int| 0 <= k < fl.len() implies {
            &&& #[trigger] fl[k].quantity > 0
            &&& crosses(side, limit, fl[k].price)
            &&& fl[k].trade_id == tid + 1 + k
        } by {
            if k >= q.fills.len() {
                assert(fl[k] == r.fills[k - q.fills.len()]);
            } else {
                assert(fl[k] == q.fills[k]);
            }
        }
    }
}

/// Law: matching accounts for every unit it executes.  The taker's
/// executed quantity is the sum of its fills and never exceeds what it
/// asked for; every fill is positive and priced at or better than the
/// taker's limit; the fills carry consecutive trade ids following the
/// book's last one, which becomes the last fill's.
pub proof fn law_fills_account_for_execution(book: BookView, taker: OrderView)
    requires
        side_wf(book.bids),
        side_wf(book.asks),
    ensures
        ({
            let m = match_taker(book, taker);
            &&& sum_quantities(m.fills) == m.executed
            &&& 0 <= m.executed
            &&& (m.executed <= taker.quantity || m.executed == 0)
            &&& m.trade_id == book.trade_id + m.fills.len()
            &&& forall|k: int|
                0 <= k < m.fills.len() ==> {
                    &&& #[trigger] m.fills[k].quantity > 0
                    &&& crosses(taker.side, taker.price, m.fills[k].price)
                    &&& m.fills[k].trade_id == book.trade_id + 1 + k
                }
        }),
{
    let opp = opposite_in_priority(book, taker.side);
    lemma_side_wf_parts(book.bids);
    lemma_side_wf_parts(book.asks);
    let asc = taker.side == OrderSide::Buy;
    if !asc {
        lemma_reverse_shape(book.bids, true);
    }
    lemma_match_levels_fills(opp, taker.side, taker.price, taker.quantity, 0, book.trade_id);
    lemma_match_levels_shape(opp, asc, taker.side, taker.price, taker.quantity, 0, book.trade_id);
}

/// The best bid is below the best ask.
pub open spec fn not_crossed(book: BookView) -> bool {
    book.bids.len() == 0 || book.asks.len() == 0 || book.bids.last().price < book.asks[0].price
}

/// A taker left incomplete has consumed every crossing maker of the queue.
pub proof fn lemma_match_queue_exhausts(
    makers: Seq<OrderView>,
    side: OrderSide,
    limit: int,
    qty: int,
    executed: int,
    tid: int,
    p: int,
)
    requires
        queue_ok(makers),
        forall|k: int| 0 <= k < makers.len() ==> #[trigger] makers[k].price == p,
        crosses(side, limit, p),
        match_queue(makers, side, limit, qty, executed, tid).executed < qty,
    ensures
        match_queue(makers, side, limit, qty, executed, tid).rest.len() == 0,
    decreases makers.len(),
{
    if makers.len() > 0 {
        let tail = makers.drop_first();
        assert forall|k: int| 0 <= k < tail.len() implies #[trigger] tail[k].price == p by {
            assert(tail[k] == makers[k + 1]);
        }
        assert forall|k: int| 0 <= k < tail.len() implies #[trigger] resting_ok(tail[k]) by {
            assert(tail[k] == makers[k + 1]);
        }
        assert(makers[0].price == p);
        assert(resting_ok(makers[0]));
        let m = makers[0];
        lemma_match_queue_shape(makers, side, limit, qty, executed, tid, p);
        if executed < qty {
            let f = min_int(qty - executed, m.quantity - m.filled);
            lemma_match_queue_shape(tail, side, limit, qty, executed + f, tid + 1, p);
            lemma_match_queue_exhausts(tail, side, limit, qty, executed + f, tid + 1, p);
        } else {
            lemma_match_queue_shape(tail, side, limit, qty, executed, tid, p);
        }
    }
}

#[verifier::spinoff_prover]
pub proof fn lemma_match_levels_monotone(
    levels: Seq<LevelView>,
    side: OrderSide,
    limit: int,
    qty: int,
    executed: int,
    tid: int,
)
    requires
        levels_shape(levels),
    ensures
        executed <= match_levels(levels, side, limit, qty, executed, tid).executed,
    decreases levels.len(),
{
    if levels.len() > 0 {
        let tail = levels.drop_first();
        assert(levels_shape(tail)) by {
            assert forall|i: int| 0 <= i < tail.len() implies #[trigger] tail[i].orders.len() > 0 by {
                assert(tail[i] == levels[i + 1]);
            }
            assert forall|i: int, k: int|
                0 <= i < tail.len() && 0 <= k < tail[i].orders.len() implies #[trigger] tail[i].orders[k].price
                == tail[i].price by {
                assert(tail[i] == levels[i + 1]);
            }
            assert forall|i: int| 0 <= i < tail.len() implies #[trigger] queue_ok(tail[i].orders) by {
                assert(tail[i] == levels[i + 1]);
            }
        }
        let l0 = levels[0];
        assert(queue_ok(l0.orders));
        assert forall|k: int| 0 <= k < l0.orders.len() implies #[trigger] l0.orders[k].price
            == l0.price by {
            assert(levels[0].orders[k].price == levels[0].price);
        }
        lemma_match_queue_shape(l0.orders, side, limit, qty, executed, tid, l0.price);
        let q = match_queue(l0.orders, side, limit, qty, executed, tid);
        lemma_match_levels_monotone(tail, side, limit, qty, q.executed, q.trade_id);
    }
}

/// A taker left incomplete has consumed every crossing level.
#[verifier::spinoff_prover]
pub proof fn lemma_match_levels_exhausts(
    levels: Seq<LevelView>,
    side: OrderSide,
    limit: int,
    qty: int,
    executed: int,
    tid: int,
)
    requires
        levels_shape(levels),
        match_levels(levels, side, limit, qty, executed, tid).executed < qty,
    ensures
        ({
            let r = match_levels(levels, side, limit, qty, executed, tid);
            forall|i: int| 0 <= i < r.levels.len() ==> !crosses(side, limit, #[trigger] r.levels[i].price)
        }),
    decreases levels.len(),
{
    if levels.len() > 0 {
        let tail = levels.drop_first();
        assert(levels_shape(tail)) by {
            assert forall|i: int| 0 <= i < tail.len() implies #[trigger] tail[i].orders.len() > 0 by {
                assert(tail[i] == levels[i + 1]);
            }
            assert forall|i: int, k: int|
                0 <= i < tail.len() && 0 <= k < tail[i].orders.len() implies #[trigger] tail[i].orders[k].price
                == tail[i].price by {
                assert(tail[i] == levels[i + 1]);
            }
            assert forall|i: int| 0 <= i < tail.len() implies #[trigger] queue_ok(tail[i].orders) by {
                assert(tail[i] == levels[i + 1]);
            }
        }
        let l0 = levels[0];
        assert(queue_ok(l0.orders));
        assert forall|k: int| 0 <= k < l0.orders.len() implies #[trigger] l0.orders[k].price
            == l0.price by {
            assert(levels[0].orders[k].price == levels[0].price);
        }
        lemma_match_queue_shape(l0.orders, side, limit, qty, executed, tid, l0.price);
        let q = match_queue(l0.orders, side, limit, qty, executed, tid);
        lemma_match_levels_monotone(tail, side, limit, qty, q.executed, q.trade_id);
        lemma_match_levels_exhausts(tail, side, limit, qty, q.executed, q.trade_id);
        if crosses(side, limit, l0.price) {
            lemma_match_queue_exhausts(l0.orders, side, limit, qty, executed, tid, l0.price);
        }
        let r = match_levels(tail, side, limit, qty, q.executed, q.trade_id);
        if q.rest.len() > 0 {
            let out = seq![LevelView { price: l0.price, orders: q.rest }] + r.levels;
            assert forall|i: int| 0 <= i < out.len() implies !crosses(side, limit, #[trigger] out[i].price) by {
                if i > 0 {
                    assert(out[i] == r.levels[i - 1]);
                }
            }
        }
    }
}

/// Resting an order moves a side's best prices only toward the order's.
pub proof fn lemma_insert_order_extremes(levels: Seq<LevelView>, o: OrderView)
    requires
        strictly_ordered(levels, true),
    ensures
        insert_order(levels, o).len() > 0,
        insert_order(levels, o)[0].price == if levels.len() > 0 && levels[0].price < o.price {
            levels[0].price
        } else {
            o.price
        },
        insert_order(levels, o).last().price == if levels.len() > 0 && levels.last().price
            > o.price {
            levels.last().price
        } else {
            o.price
        },
    decreases levels.len(),
{
    if levels.len() > 0 {
        assert(levels[0].price <= levels.last().price) by {
            if levels.len() > 1 {
                assert(levels[0].price < levels[levels.len() - 1].price);
            }
        }
        if o.price < levels[0].price {
        } else if o.price == levels[0].price {
        } else {
            let t = levels.drop_first();
            assert(strictly_ordered(t, true)) by {
                assert forall|i: int, j: int| 0 <= i < j < t.len() implies (if true {
                    #[trigger] t[i].price < #[trigger] t[j].price
                } else {
                    t[i].price > t[j].price
                }) by {
                    assert(t[i] == levels[i + 1]);
                    assert(t[j] == levels[j + 1]);
                }
            }
            lemma_insert_order_extremes(t, o);
            let r = seq![levels[0]] + insert_order(t, o);
            assert(r[0] == levels[0]);
            assert(r.last() == insert_order(t, o).last());
            if t.len() > 0 {
                assert(t.last() == levels.last());
            }
        }
    }
}

/// Law: processing an order never leaves the book crossed.  When the best
/// bid was below the best ask before, it still is afterwards: a taker that
/// rests has consumed every resting order it could trade with.
#[verifier::spinoff_prover]
pub proof fn law_book_stays_uncrossed(book: BookView, taker: OrderView)
    requires
        side_wf(book.bids),
        side_wf(book.asks),
        not_crossed(book),
    ensures
        not_crossed(book_after(book, taker)),
{
    let m = match_taker(book, taker);
    let opp = opposite_in_priority(book, taker.side);
    let after = book_after(book, taker);
    let t = rested(taker, m.executed);
    lemma_side_wf_parts(book.bids);
    lemma_side_wf_parts(book.asks);
    match taker.side {
        OrderSide::Buy => {
            lemma_match_levels_shape(opp, true, taker.side, taker.price, taker.quantity, 0, book.trade_id);
            if m.executed < taker.quantity {
                lemma_match_levels_exhausts(opp, taker.side, taker.price, taker.quantity, 0, book.trade_id);
                lemma_insert_order_extremes(book.bids, t);
                if after.asks.len() > 0 {
                    assert(!crosses(OrderSide::Buy, taker.price, after.asks[0].price));
                    assert(after.asks[0].price >= book.asks[0].price);
                }
            } else {
                if after.asks.len() > 0 && book.bids.len() > 0 {
                    assert(after.asks[0].price >= book.asks[0].price);
                }
            }
        },
        OrderSide::Sell => {
            lemma_reverse_shape(book.bids, true);
            lemma_match_levels_shape(opp, false, taker.side, taker.price, taker.quantity, 0, book.trade_id);
            let out = m.levels;
            if out.len() > 0 {
                assert(after.bids.last() == out[0]);
                assert(opp[0] == book.bids.last());
                assert(out[0].price <= book.bids.last().price);
            }
            if m.executed < taker.quantity {
                lemma_match_levels_exhausts(opp, taker.side, taker.price, taker.quantity, 0, book.trade_id);
                lemma_insert_order_extremes(book.asks, t);
                if out.len() > 0 {
                    assert(!crosses(OrderSide::Sell, taker.price, out[0].price));
                }
            }
        },
    }
}

/// The orders of the levels, level by level, each in time order.
pub open spec fn flatten(levels: Seq<LevelView>) -> Seq<OrderView>
    decreases levels.len(),
{
    if levels.len() == 0 {
        Seq::empty()
    } else {
        levels[0].orders + flatten(levels.drop_first())
    }
}

/// All resting orders: bids then asks, each side in ascending price.
pub open spec fn book_orders(book: BookView) -> Seq<OrderView> {
    flatten(book.bids) + flatten(book.asks)
}

pub proof fn lemma_flatten_append(a: Seq<LevelView>, b: Seq<LevelView>)
    ensures
        flatten(a + b) == flatten(a) + flatten(b),
    decreases a.len(),
{
    if a.len() > 0 {
        assert((a + b).drop_first() =~= a.drop_first() + b);
        lemma_flatten_append(a.drop_first(), b);
        assert(flatten(a + b) =~= flatten(a) + flatten(b));
    } else {
        assert(a + b =~= b);
        assert(flatten(a) =~= Seq::<OrderView>::empty());
        assert(flatten(a + b) =~= flatten(a) + flatten(b));
    }
}

pub proof fn lemma_flatten_take(levels: Seq<LevelView>, i: int)
    requires
        0 <= i < levels.len(),
    ensures
        flatten(levels.take(i + 1)) == flatten(levels.take(i)) + levels[i].orders,
{
    assert(levels.take(i + 1) =~= levels.take(i) + seq![levels[i]]);
    lemma_flatten_append(levels.take(i), seq![levels[i]]);
    assert(seq![levels[i]].drop_first() =~= Seq::<LevelView>::empty());
    assert(flatten(seq![levels[i]]) =~= levels[i].orders + flatten(Seq::<LevelView>::empty()));
    assert(flatten(Seq::<LevelView>::empty()) =~= Seq::<OrderView>::empty());
    assert(flatten(seq![levels[i]]) =~= levels[i].orders);
}

/// `o` belongs to `user` and carries `order_id`.
pub open spec fn is_order_of(o: OrderView, user: Seq<char>, order_id: Seq<char>) -> bool {
    o.user_id == user && o.order_id == order_id
}

/// The orders of `user`, in the given order.
pub open spec fn orders_of_user(orders: Seq<OrderView>, user: Seq<char>) -> Seq<OrderView>
    decreases orders.len(),
{
    if orders.len() == 0 {
        Seq::empty()
    } else if orders[0].user_id == user {
        seq![orders[0]] + orders_of_user(orders.drop_first(), user)
    } else {
        orders_of_user(orders.drop_first(), user)
    }
}

pub proof fn lemma_orders_of_user_append(a: Seq<OrderView>, b: Seq<OrderView>, user: Seq<char>)
    ensures
        orders_of_user(a + b, user) == orders_of_user(a, user) + orders_of_user(b, user),
    decreases a.len(),
{
    if a.len() > 0 {
        assert((a + b).drop_first() =~= a.drop_first() + b);
        lemma_orders_of_user_append(a.drop_first(), b, user);
        assert(orders_of_user(a + b, user) =~= orders_of_user(a, user) + orders_of_user(b, user));
    } else {
        assert(a + b =~= b);
        assert(orders_of_user(a + b, user) =~= orders_of_user(a, user) + orders_of_user(b, user));
    }
}

pub proof fn lemma_orders_of_user_push(a: Seq<OrderView>, o: OrderView, user: Seq<char>)
    ensures
        orders_of_user(a.push(o), user) == if o.user_id == user {
            orders_of_user(a, user).push(o)
        } else {
            orders_of_user(a, user)
        },
{
    lemma_orders_of_user_append(a, seq![o], user);
    assert(a.push(o) =~= a + seq![o]);
    assert(seq![o].drop_first() =~= Seq::<OrderView>::empty());
    assert(orders_of_user(Seq::<OrderView>::empty(), user) =~= Seq::<OrderView>::empty());
}

/// First order of `user` carrying `order_id` among `levels`.
#[verifier::spinoff_prover]
fn find_in_levels<'a>(levels: &'a Vec<PriceLevel>, user_id: &str, order_id: &str) -> (r: Option<
    &'a Order,
>)
    ensures
        r is None <==> !(exists|k: int|
            0 <= k < flatten(levels_view(levels@)).len() && #[trigger] is_order_of(
                flatten(levels_view(levels@))[k],
                user_id@,
                order_id@,
            )),
        r matches Some(o) ==> exists|k: int|
            0 <= k < flatten(levels_view(levels@)).len() && flatten(levels_view(levels@))[k]
                == o@ && is_order_of(o@, user_id@, order_id@) && forall|j: int|
                0 <= j < k ==> !#[trigger] is_order_of(
                    flatten(levels_view(levels@))[j],
                    user_id@,
                    order_id@,
                ),
{
    let ghost lv = levels_view(levels@);
    let ghost all = flatten(lv);
    let n = levels.len();
    let mut i: usize = 0;
    proof {
        assert(lv.take(0) =~= Seq::<LevelView>::empty());
        assert(flatten(lv.take(0)) =~= Seq::<OrderView>::empty());
        assert(lv.skip(0) =~= lv);
        assert(all =~= flatten(lv.take(0)) + flatten(lv.skip(0)));
    }
    while i < n
        invariant
            n == levels@.len(),
            lv == levels_view(levels@),
            all == flatten(lv),
            i <= n,
            forall|j: int|
                0 <= j < flatten(lv.take(i as int)).len() ==> !#[trigger] is_order_of(
                    flatten(lv.take(i as int))[j],
                    user_id@,
                    order_id@,
                ),
            all == flatten(lv.take(i as int)) + flatten(lv.skip(i as int)),
        decreases n - i,
    {
        let level = &levels[i];
        let m = level.orders.len();
        let mut j: usize = 0;
        proof {
            lemma_flatten_take(lv, i as int);
            assert(lv[i as int] == level@);
            assert(lv.skip(i as int) =~= seq![lv[i as int]] + lv.skip(i + 1));
            lemma_flatten_append(seq![lv[i as int]], lv.skip(i + 1));
            assert(seq![lv[i as int]].drop_first() =~= Seq::<LevelView>::empty());
            assert(flatten(seq![lv[i as int]]) =~= lv[i as int].orders + flatten(
                Seq::<LevelView>::empty(),
            ));
            assert(flatten(Seq::<LevelView>::empty()) =~= Seq::<OrderView>::empty());
            assert(lv.take(i + 1) =~= lv.take(i as int) + seq![lv[i as int]]);
            assert(all =~= flatten(lv.take(i + 1)) + flatten(lv.skip(i + 1)));
        }
        while j < m
            invariant
                n == levels@.len(),
                i < n,
                lv == levels_view(levels@),
                all == flatten(lv),
                level == levels@[i as int],
                m == level.orders@.len(),
                j <= m,
                flatten(lv.take(i + 1)) == flatten(lv.take(i as int)) + lv[i as int].orders,
                all == flatten(lv.take(i + 1)) + flatten(lv.skip(i + 1)),
                forall|k: int|
                    0 <= k < flatten(lv.take(i as int)).len() ==> !#[trigger] is_order_of(
                        flatten(lv.take(i as int))[k],
                        user_id@,
                        order_id@,
                    ),
                forall|k: int|
                    0 <= k < j ==> !#[trigger] is_order_of(lv[i as int].orders[k], user_id@, order_id@),
            decreases m - j,
        {
            let o = &level.orders[j];
            if crate::text::str_eq(o.user_id.as_str(), user_id) && crate::text::str_eq(
                o.order_id.as_str(),
                order_id,
            ) {
                proof {
                    let pre = flatten(lv.take(i as int));
                    let k = pre.len() + j;
                    assert(lv[i as int].orders[j as int] == o@);
                    assert(all[k] == o@);
                    assert(is_order_of(all[k], user_id@, order_id@));
                    assert forall|q: int| 0 <= q < k implies !#[trigger] is_order_of(
                        all[q],
                        user_id@,
                        order_id@,
                    ) by {
                        if q < pre.len() {
                            assert(all[q] == pre[q]);
                        } else {
                            assert(all[q] == lv[i as int].orders[q - pre.len()]);
                        }
                    }
                }
                return Some(o);
            }
            j = j + 1;
        }
        proof {
            let pre2 = flatten(lv.take(i + 1));
            assert forall|k: int| 0 <= k < pre2.len() implies !#[trigger] is_order_of(
                pre2[k],
                user_id@,
                order_id@,
            ) by {
                let pre = flatten(lv.take(i as int));
                if k >= pre.len() {
                    assert(pre2[k] == lv[i as int].orders[k - pre.len()]);
                } else {
                    assert(pre2[k] == pre[k]);
                }
            }
        }
        i = i + 1;
    }
    proof {
        assert(lv.take(n as int) =~= lv);
        assert(lv.skip(n as int) =~= Seq::<LevelView>::empty());
        assert(flatten(Seq::<LevelView>::empty()) =~= Seq::<OrderView>::empty());
        assert(all =~= flatten(lv.take(n as int)));
    }
    None
}

pub open spec fn refs_view(v: Seq<&Order>) -> Seq<OrderView> {
    v.map_values(|o: &Order| o@)
}

/// Appends the orders of `user` among `levels`, in order.
#[verifier::spinoff_prover]
fn collect_user_orders<'a>(levels: &'a Vec<PriceLevel>, user_id: &str, out: &mut Vec<&'a Order>)
    ensures
        refs_view(final(out)@) == refs_view(old(out)@) + orders_of_user(
            flatten(levels_view(levels@)),
            user_id@,
        ),
{
    let ghost lv = levels_view(levels@);
    let ghost out0 = refs_view(out@);
    let n = levels.len();
    let mut i: usize = 0;
    proof {
        assert(lv.take(0) =~= Seq::<LevelView>::empty());
        assert(flatten(lv.take(0)) =~= Seq::<OrderView>::empty());
        assert(orders_of_user(Seq::<OrderView>::empty(), user_id@) =~= Seq::<OrderView>::empty());
        assert(refs_view(out@) =~= out0 + orders_of_user(flatten(lv.take(0)), user_id@));
    }
    while i < n
        invariant
            n == levels@.len(),
            lv == levels_view(levels@),
            i <= n,
            refs_view(out@) == out0 + orders_of_user(flatten(lv.take(i as int)), user_id@),
        decreases n - i,
    {
        let level = &levels[i];
        let m = level.orders.len();
        let mut j: usize = 0;
        proof {
            lemma_flatten_take(lv, i as int);
            assert(lv[i as int] == level@);
            assert(lv[i as int].orders.take(0) =~= Seq::<OrderView>::empty());
            lemma_orders_of_user_append(flatten(lv.take(i as int)), Seq::<OrderView>::empty(), user_id@);
            assert(flatten(lv.take(i as int)) + lv[i as int].orders.take(0) =~= flatten(lv.take(i as int)));
        }
        while j < m
            invariant
                n == levels@.len(),
                i < n,
                lv == levels_view(levels@),
                level == levels@[i as int],
                m == level.orders@.len(),
                j <= m,
                flatten(lv.take(i + 1)) == flatten(lv.take(i as int)) + lv[i as int].orders,
                refs_view(out@) == out0 + orders_of_user(
                    flatten(lv.take(i as int)) + lv[i as int].orders.take(j as int),
                    user_id@,
                ),
            decreases m - j,
        {
            let o = &level.orders[j];
            let ghost before = refs_view(out@);
            let ghost pre = flatten(lv.take(i as int)) + lv[i as int].orders.take(j as int);
            proof {
                assert(lv[i as int].orders[j as int] == o@);
                assert(flatten(lv.take(i as int)) + lv[i as int].orders.take(j + 1) =~= pre.push(o@));
                lemma_orders_of_user_push(pre, o@, user_id@);
            }
            if crate::text::str_eq(o.user_id.as_str(), user_id) {
                out.push(o);
                proof {
                    assert(refs_view(out@) =~= before.push(o@));
                }
            }
            j = j + 1;
        }
        proof {
            assert(lv[i as int].orders.take(m as int) =~= lv[i as int].orders);
        }
        i = i + 1;
    }
    proof {
        assert(lv.take(n as int) =~= lv);
    }
}

impl OrderBook {
    /// The orders resting at `price` on one side, oldest first.
    pub fn orders_at(&self, side: OrderSide, price: &Dec) -> (r: Option<&Vec<Order>>)
        ensures
            r is None <==> !(exists|i: int|
                0 <= i < side_of(self@, side).len() && #[trigger] side_of(self@, side)[i].price
                    == price.val()),
            r matches Some(v) ==> exists|i: int|
                0 <= i < side_of(self@, side).len() && side_of(self@, side)[i].price == price.val()
                    && #[trigger] orders_view(v@) == side_of(self@, side)[i].orders,
    {
        let levels = match side {
            OrderSide::Buy => &self.bids,
            OrderSide::Sell => &self.asks,
        };
        let ghost lv = side_of(self@, side);
        proof {
            assert(lv == levels_view(levels@));
        }
        let n = levels.len();
        let mut i: usize = 0;
        while i < n
            invariant
                n == levels@.len(),
                lv == levels_view(levels@),
                lv == side_of(self@, side),
                i <= n,
                forall|j: int| 0 <= j < i ==> #[trigger] lv[j].price != price.val(),
            decreases n - i,
        {
            proof {
                assert(lv[i as int] == levels@[i as int]@);
            }
            if levels[i].price.same_value(price) {
                proof {
                    assert(side_of(self@, side)[i as int].price == price.val());
                    assert(orders_view(levels@[i as int].orders@) == side_of(self@, side)[i as int].orders);
                }
                return Some(&levels[i].orders);
            }
            i = i + 1;
        }
        None
    }
}

/// The book with `o` resting on its side.
pub open spec fn rest_on(book: BookView, o: OrderView) -> BookView {
    match o.side {
        OrderSide::Buy => BookView { bids: insert_order(book.bids, o), ..book },
        OrderSide::Sell => BookView { asks: insert_order(book.asks, o), ..book },
    }
}

impl OrderBook {
    /// Rests an order on its side without matching it.
    pub(crate) fn rest_order(&mut self, order: Order)
        requires
            old(self).wf(),
            resting_ok(order@),
        ensures
            final(self).wf(),
            final(self)@ == rest_on(old(self)@, order@),
            forall|s: nat| old(self).fits(s) && #[trigger] order_fits(order, s) ==> final(self).fits(s),
            forall|p: nat| #[trigger] old(self).prices_fit(p) && fits_at(order.price, p) ==> final(self).prices_fit(p),
    {
        match order.side {
            OrderSide::Buy => insert_resting(&mut self.bids, order),
            OrderSide::Sell => insert_resting(&mut self.asks, order),
        }
    }
}

impl OrderBook {
    /// The first resting order (bids before asks) of `user_id` with
    /// `order_id`.
    pub fn get_open_order(&self, user_id: &str, order_id: &str) -> (r: Option<&Order>)
        ensures
            r is None <==> !(exists|k: int|
                0 <= k < book_orders(self@).len() && #[trigger] is_order_of(
                    book_orders(self@)[k],
                    user_id@,
                    order_id@,
                )),
            r matches Some(o) ==> exists|k: int|
                0 <= k < book_orders(self@).len() && book_orders(self@)[k] == o@ && is_order_of(
                    o@,
                    user_id@,
                    order_id@,
                ) && forall|j: int|
                    0 <= j < k ==> !#[trigger] is_order_of(
                        book_orders(self@)[j],
                        user_id@,
                        order_id@,
                    ),
    {
        let ghost b = flatten(self@.bids);
        let ghost a = flatten(self@.asks);
        let ghost all = book_orders(self@);
        match find_in_levels(&self.bids, user_id, order_id) {
            Some(o) => {
                proof {
                    let k = choose|k: int|
                        0 <= k < b.len() && b[k] == o@ && is_order_of(o@, user_id@, order_id@)
                            && forall|j: int|
                            0 <= j < k ==> !#[trigger] is_order_of(b[j], user_id@, order_id@);
                    assert(all[k] == b[k]);
                    assert(is_order_of(all[k], user_id@, order_id@));
                    assert forall|j: int| 0 <= j < k implies !#[trigger] is_order_of(
                        all[j],
                        user_id@,
                        order_id@,
                    ) by {
                        assert(all[j] == b[j]);
                    }
                }
                Some(o)
            },
            None => {
                let r = find_in_levels(&self.asks, user_id, order_id);
                proof {
                    if r is Some {
                        let o = r->0;
                        let k = choose|k: int|
                            0 <= k < a.len() && a[k] == o@ && is_order_of(o@, user_id@, order_id@)
                                && forall|j: int|
                                0 <= j < k ==> !#[trigger] is_order_of(a[j], user_id@, order_id@);
                        assert(all[b.len() + k] == a[k]);
                        assert(is_order_of(all[b.len() + k], user_id@, order_id@));
                        assert forall|j: int| 0 <= j < b.len() + k implies !#[trigger] is_order_of(
                            all[j],
                            user_id@,
                            order_id@,
                        ) by {
                            if j < b.len() {
                                assert(all[j] == b[j]);
                                assert(!is_order_of(b[j], user_id@, order_id@));
                            } else {
                                assert(all[j] == a[j - b.len()]);
                            }
                        }
                    } else {
                        assert forall|k: int| 0 <= k < all.len() implies !#[trigger] is_order_of(
                            all[k],
                            user_id@,
                            order_id@,
                        ) by {
                            if k < b.len() {
                                assert(all[k] == b[k]);
                                assert(!is_order_of(b[k], user_id@, order_id@));
                            } else {
                                assert(all[k] == a[k - b.len()]);
                                assert(!is_order_of(a[k - b.len()], user_id@, order_id@));
                            }
                        }
                    }
                }
                r
            },
        }
    }

    /// All resting orders of `user_id`: bids then asks, each side in
    /// ascending price, oldest first within a price.
    pub fn get_open_orders(&self, user_id: &str) -> (r: Vec<&Order>)
        ensures
            refs_view(r@) == orders_of_user(book_orders(self@), user_id@),
    {
        let mut out: Vec<&Order> = Vec::new();
        proof {
            assert(refs_view(out@) =~= Seq::<OrderView>::empty());
        }
        collect_user_orders(&self.bids, user_id, &mut out);
        collect_user_orders(&self.asks, user_id, &mut out);
        proof {
            lemma_orders_of_user_append(flatten(self@.bids), flatten(self@.asks), user_id@);
            assert(refs_view(out@) =~= orders_of_user(book_orders(self@), user_id@));
        }
        out
    }
}

/// The levels of one side of a book.
pub open spec fn side_of(book: BookView, side: OrderSide) -> Seq<LevelView> {
    match side {
        OrderSide::Buy => book.bids,
        OrderSide::Sell => book.asks,
    }
}

pub open spec fn opposite(side: OrderSide) -> OrderSide {
    match side {
        OrderSide::Buy => OrderSide::Sell,
        OrderSide::Sell => OrderSide::Buy,
    }
}

/// The side after taking out order `k` of level `i`; a level left empty
/// disappears.
pub open spec fn remove_at(levels: Seq<LevelView>, i: int, k: int) -> Seq<LevelView> {
    if levels[i].orders.len() == 1 {
        levels.remove(i)
    } else {
        levels.update(
            i,
            LevelView { price: levels[i].price, orders: levels[i].orders.remove(k) },
        )
    }
}

/// Takes out of a side the first order carrying `order_id` at the level of
/// `price`.
#[verifier::spinoff_prover]
fn cancel_in_side(levels: &mut Vec<PriceLevel>, price: &Dec, order_id: &str) -> (r: Option<Order>)
    requires
        side_wf(levels_view(old(levels)@)),
    ensures
        side_wf(levels_view(final(levels)@)),
        forall|s: nat| levels_fit(old(levels)@, s) ==> #[trigger] levels_fit(final(levels)@, s),
        forall|p: nat| levels_prices_fit(old(levels)@, p) ==> #[trigger] levels_prices_fit(final(levels)@, p),
        r is None <==> !(exists|i: int, k: int|
            0 <= i < levels_view(old(levels)@).len() && 0 <= k < levels_view(
                old(levels)@,
            )[i].orders.len() && levels_view(old(levels)@)[i].price == price.val()
                && #[trigger] levels_view(old(levels)@)[i].orders[k].order_id == order_id@),
        r is None ==> final(levels)@ == old(levels)@,
        r matches Some(o) ==> forall|s: nat| levels_fit(old(levels)@, s) ==> #[trigger] order_fits(o, s),
        r matches Some(o) ==> forall|p: nat| levels_prices_fit(old(levels)@, p) ==> #[trigger] fits_at(o.price, p),
        r matches Some(o) ==> exists|i: int, k: int|
            0 <= i < levels_view(old(levels)@).len() && 0 <= k < levels_view(
                old(levels)@,
            )[i].orders.len() && levels_view(old(levels)@)[i].price == price.val()
                && levels_view(old(levels)@)[i].orders[k] == o@ && o@.order_id == order_id@
                && (forall|j: int|
                0 <= j < k ==> #[trigger] levels_view(old(levels)@)[i].orders[j].order_id
                    != order_id@) && levels_view(final(levels)@) == remove_at(
                levels_view(old(levels)@),
                i,
                k,
            ),
{
    let ghost lv = levels_view(levels@);
    let ghost old_levels = levels@;
    let n = levels.len();
    let mut i: usize = 0;
    while i < n && !levels[i].price.same_value(price)
        invariant
            n == levels@.len(),
            levels@ == old_levels,
            lv == levels_view(levels@),
            i <= n,
            forall|j: int| 0 <= j < i ==> #[trigger] lv[j].price != price.val(),
        decreases n - i,
    {
        i = i + 1;
    }
    if i == n {
        return None;
    }
    proof {
        assert forall|a: int| 0 <= a < lv.len() && a != i implies #[trigger] lv[a].price != price.val() by {
            if a > i {
                assert(lv[i as int].price < lv[a].price);
            }
        }
    }
    let m = levels[i].orders.len();
    let mut k: usize = 0;
    while k < m && !crate::text::str_eq(levels[i].orders[k].order_id.as_str(), order_id)
        invariant
            n == levels@.len(),
            i < n,
            levels@ == old_levels,
            lv == levels_view(levels@),
            m == levels@[i as int].orders@.len(),
            k <= m,
            forall|j: int| 0 <= j < k ==> #[trigger] lv[i as int].orders[j].order_id != order_id@,
        decreases m - k,
    {
        proof {
            assert(lv[i as int].orders[k as int] == levels@[i as int].orders@[k as int]@);
        }
        k = k + 1;
    }
    if k == m {
        proof {
            assert forall|a: int, b: int|
                0 <= a < lv.len() && 0 <= b < lv[a].orders.len() && lv[a].price == price.val()
                    implies #[trigger] lv[a].orders[b].order_id != order_id@ by {
                assert(a == i);
            }
        }
        return None;
    }
    proof {
        assert(lv[i as int].orders[k as int] == levels@[i as int].orders@[k as int]@);
        assert(lv[i as int].price == price.val());
        assert(lv[i as int].orders[k as int].order_id == order_id@);
        assert(lv[i as int] == levels@[i as int]@);
    }
    let mut lvl = levels.remove(i);
    let ghost lvl0 = lvl;
    let o = lvl.orders.remove(k);
    proof {
        assert(orders_view(lvl.orders@) =~= orders_view(lvl0.orders@).remove(k as int));
        assert(o@ == lv[i as int].orders[k as int]);
        assert(o == old_levels[i as int].orders@[k as int]);
        assert forall|s: nat| levels_fit(old_levels, s) implies #[trigger] order_fits(o, s) by {
            assert(queue_fits(old_levels[i as int].orders@, s));
        }
        assert forall|p: nat| levels_prices_fit(old_levels, p) implies #[trigger] fits_at(o.price, p) by {
            assert(queue_prices_fit(old_levels[i as int].orders@, p));
        }
    }
    if lvl.orders.len() > 0 {
        levels.insert(i, lvl);
        proof {
            let nv = levels_view(levels@);
            assert(nv =~= lv.update(
                i as int,
                LevelView { price: lv[i as int].price, orders: lv[i as int].orders.remove(k as int) },
            ));
            assert forall|a: int, b: int| 0 <= a < b < nv.len() implies #[trigger] nv[a].price
                < #[trigger] nv[b].price by {
                assert(nv[a].price == lv[a].price);
                assert(nv[b].price == lv[b].price);
            }
            assert forall|a: int, c: int|
                0 <= a < nv.len() && 0 <= c < nv[a].orders.len() implies #[trigger] nv[a].orders[c].price
                == nv[a].price by {
                if a != i {
                    assert(nv[a] == lv[a]);
                } else if c < k {
                    assert(nv[a].orders[c] == lv[a].orders[c]);
                } else {
                    assert(nv[a].orders[c] == lv[a].orders[c + 1]);
                }
            }
            assert forall|a: int| 0 <= a < nv.len() implies #[trigger] queue_ok(nv[a].orders) by {
                if a != i {
                    assert(nv[a] == lv[a]);
                } else {
                    assert(queue_ok(lv[a].orders));
                    assert forall|c: int| 0 <= c < nv[a].orders.len() implies #[trigger] resting_ok(
                        nv[a].orders[c],
                    ) by {
                        if c < k {
                            assert(nv[a].orders[c] == lv[a].orders[c]);
                        } else {
                            assert(nv[a].orders[c] == lv[a].orders[c + 1]);
                        }
                    }
                }
            }
            assert forall|s: nat| levels_fit(old_levels, s) implies #[trigger] levels_fit(levels@, s) by {
                assert forall|a: int| 0 <= a < levels@.len() implies #[trigger] queue_fits(
                    levels@[a].orders@,
                    s,
                ) by {
                    if a != i {
                        assert(levels@[a] == old_levels[a]);
                    } else {
                        assert(queue_fits(old_levels[a].orders@, s));
                        assert forall|c: int| 0 <= c < levels@[a].orders@.len() implies #[trigger] order_fits(
                            levels@[a].orders@[c],
                            s,
                        ) by {
                            if c < k {
                                assert(levels@[a].orders@[c] == old_levels[a].orders@[c]);
                            } else {
                                assert(levels@[a].orders@[c] == old_levels[a].orders@[c + 1]);
                            }
                        }
                    }
                }
            }
            assert forall|p: nat| levels_prices_fit(old_levels, p) implies #[trigger] levels_prices_fit(levels@, p) by {
                assert forall|a: int| 0 <= a < levels@.len() implies #[trigger] queue_prices_fit(
                    levels@[a].orders@,
                    p,
                ) by {
                    if a != i {
                        assert(levels@[a] == old_levels[a]);
                    } else {
                        assert(queue_prices_fit(old_levels[a].orders@, p));
                        assert forall|c: int| 0 <= c < levels@[a].orders@.len() implies fits_at(
                            #[trigger] levels@[a].orders@[c].price,
                            p,
                        ) by {
                            if c < k {
                                assert(levels@[a].orders@[c] == old_levels[a].orders@[c]);
                            } else {
                                assert(levels@[a].orders@[c] == old_levels[a].orders@[c + 1]);
                            }
                        }
                    }
                }
            }
        }
    } else {
        proof {
            let nv = levels_view(levels@);
            assert(nv =~= lv.remove(i as int));
            assert forall|a: int, b: int| 0 <= a < b < nv.len() implies #[trigger] nv[a].price
                < #[trigger] nv[b].price by {
                if a >= i {
                    assert(nv[a] == lv[a + 1]);
                } else {
                    assert(nv[a] == lv[a]);
                }
                if b >= i {
                    assert(nv[b] == lv[b + 1]);
                } else {
                    assert(nv[b] == lv[b]);
                }
            }
            assert forall|a: int| 0 <= a < nv.len() implies #[trigger] nv[a].orders.len() > 0 by {
                if a >= i {
                    assert(nv[a] == lv[a + 1]);
                } else {
                    assert(nv[a] == lv[a]);
                }
            }
            assert forall|a: int, c: int|
                0 <= a < nv.len() && 0 <= c < nv[a].orders.len() implies #[trigger] nv[a].orders[c].price
                == nv[a].price by {
                if a >= i {
                    assert(nv[a] == lv[a + 1]);
                } else {
                    assert(nv[a] == lv[a]);
                }
            }
            assert forall|a: int| 0 <= a < nv.len() implies #[trigger] queue_ok(nv[a].orders) by {
                if a >= i {
                    assert(nv[a] == lv[a + 1]);
                } else {
                    assert(nv[a] == lv[a]);
                }
            }
            assert forall|s: nat| levels_fit(old_levels, s) implies #[trigger] levels_fit(levels@, s) by {
                assert forall|a: int| 0 <= a < levels@.len() implies #[trigger] queue_fits(
                    levels@[a].orders@,
                    s,
                ) by {
                    if a >= i {
                        assert(levels@[a] == old_levels[a + 1]);
                    } else {
                        assert(levels@[a] == old_levels[a]);
                    }
                }
            }
            assert forall|p: nat| levels_prices_fit(old_levels, p) implies #[trigger] levels_prices_fit(levels@, p) by {
                assert forall|a: int| 0 <= a < levels@.len() implies #[trigger] queue_prices_fit(
                    levels@[a].orders@,
                    p,
                ) by {
                    if a >= i {
                        assert(levels@[a] == old_levels[a + 1]);
                    } else {
                        assert(levels@[a] == old_levels[a]);
                    }
                }
            }
        }
    }
    proof {
        assert(levels_view(levels@) == remove_at(lv, i as int, k as int));
    }
    Some(o)
}

impl OrderBook {
    /// Takes out of the book the first order carrying the given order id at
    /// the level of the given price, on the given side.  The user id of the
    /// request is not consulted.
    pub fn cancel_order(&mut self, cancel_order: &CancelOrder) -> (r: Option<Order>)
        requires
            old(self).wf(),
        ensures
            final(self).wf(),
            forall|s: nat| old(self).fits(s) ==> #[trigger] final(self).fits(s),
            forall|p: nat| old(self).prices_fit(p) ==> #[trigger] final(self).prices_fit(p),
            final(self).asset_pair == old(self).asset_pair,
            final(self).trade_id == old(self).trade_id,
            side_of(final(self)@, opposite(cancel_order.side)) == side_of(
                old(self)@,
                opposite(cancel_order.side),
            ),
            r is None <==> !(exists|i: int, k: int|
                0 <= i < side_of(old(self)@, cancel_order.side).len() && 0 <= k < side_of(
                    old(self)@,
                    cancel_order.side,
                )[i].orders.len() && side_of(old(self)@, cancel_order.side)[i].price
                    == cancel_order.price.val() && #[trigger] side_of(
                    old(self)@,
                    cancel_order.side,
                )[i].orders[k].order_id == cancel_order.order_id@),
            r is None ==> side_of(final(self)@, cancel_order.side) == side_of(
                old(self)@,
                cancel_order.side,
            ),
            r matches Some(o) ==> forall|s: nat| old(self).fits(s) ==> #[trigger] order_fits(o, s),
            r matches Some(o) ==> forall|p: nat| old(self).prices_fit(p) ==> #[trigger] fits_at(o.price, p),
            r matches Some(o) ==> exists|i: int, k: int|
                0 <= i < side_of(old(self)@, cancel_order.side).len() && 0 <= k < side_of(
                    old(self)@,
                    cancel_order.side,
                )[i].orders.len() && side_of(old(self)@, cancel_order.side)[i].price
                    == cancel_order.price.val() && side_of(old(self)@, cancel_order.side)[i].orders[k]
                    == o@ && o@.order_id == cancel_order.order_id@ && (forall|j: int|
                    0 <= j < k ==> #[trigger] side_of(old(self)@, cancel_order.side)[i].orders[j].order_id
                        != cancel_order.order_id@) && side_of(final(self)@, cancel_order.side)
                    == remove_at(side_of(old(self)@, cancel_order.side), i, k),
    {
        match cancel_order.side {
            OrderSide::Buy => cancel_in_side(&mut self.bids, &cancel_order.price, cancel_order.order_id.as_str()),
            OrderSide::Sell => cancel_in_side(&mut self.asks, &cancel_order.price, cancel_order.order_id.as_str()),
        }
    }
}

/// The orders not of `user`, in the given order.
pub open spec fn without_user(orders: Seq<OrderView>, user: Seq<char>) -> Seq<OrderView>
    decreases orders.len(),
{
    if orders.len() == 0 {
        Seq::empty()
    } else if orders[0].user_id == user {
        without_user(orders.drop_first(), user)
    } else {
        seq![orders[0]] + without_user(orders.drop_first(), user)
    }
}

/// The levels without the orders of `user`; levels left empty disappear.
pub open spec fn strip_user(levels: Seq<LevelView>, user: Seq<char>) -> Seq<LevelView>
    decreases levels.len(),
{
    if levels.len() == 0 {
        Seq::empty()
    } else {
        let kept = without_user(levels[0].orders, user);
        let rest = strip_user(levels.drop_first(), user);
        if kept.len() > 0 {
            seq![LevelView { price: levels[0].price, orders: kept }] + rest
        } else {
            rest
        }
    }
}

pub proof fn lemma_without_user_shape(orders: Seq<OrderView>, user: Seq<char>, p: int)
    requires
        queue_ok(orders),
        forall|k: int| 0 <= k < orders.len() ==> #[trigger] orders[k].price == p,
    ensures
        queue_ok(without_user(orders, user)),
        forall|k: int|
            0 <= k < without_user(orders, user).len() ==> #[trigger] without_user(
                orders,
                user,
            )[k].price == p,
    decreases orders.len(),
{
    if orders.len() > 0 {
        let t = orders.drop_first();
        assert forall|k: int| 0 <= k < t.len() implies #[trigger] t[k].price == p by {
            assert(t[k] == orders[k + 1]);
        }
        assert forall|k: int| 0 <= k < t.len() implies #[trigger] resting_ok(t[k]) by {
            assert(t[k] == orders[k + 1]);
        }
        assert(resting_ok(orders[0]));
        assert(orders[0].price == p);
        lemma_without_user_shape(t, user, p);
        let w = without_user(t, user);
        if orders[0].user_id != user {
            let r = seq![orders[0]] + w;
            assert forall|k: int| 0 <= k < r.len() implies #[trigger] resting_ok(r[k]) by {
                if k > 0 {
                    assert(r[k] == w[k - 1]);
                }
            }
            assert forall|k: int| 0 <= k < r.len() implies #[trigger] r[k].price == p by {
                if k > 0 {
                    assert(r[k] == w[k - 1]);
                }
            }
        }
    }
}

#[verifier::spinoff_prover]
pub proof fn lemma_strip_user_shape(levels: Seq<LevelView>, user: Seq<char>)
    requires
        strictly_ordered(levels, true),
        levels_shape(levels),
    ensures
        strictly_ordered(strip_user(levels, user), true),
        levels_shape(strip_user(levels, user)),
        levels.len() > 0 ==> forall|i: int|
            0 <= i < strip_user(levels, user).len() ==> #[trigger] strip_user(
                levels,
                user,
            )[i].price >= levels[0].price,
    decreases levels.len(),
{
    if levels.len() > 0 {
        let tail = levels.drop_first();
        assert(strictly_ordered(tail, true)) by {
            assert forall|i: int, j: int| 0 <= i < j < tail.len() implies (if true {
                #[trigger] tail[i].price < #[trigger] tail[j].price
            } else {
                tail[i].price > tail[j].price
            }) by {
                assert(tail[i] == levels[i + 1]);
                assert(tail[j] == levels[j + 1]);
            }
        }
        assert(levels_shape(tail)) by {
            assert forall|i: int| 0 <= i < tail.len() implies #[trigger] tail[i].orders.len() > 0 by {
                assert(tail[i] == levels[i + 1]);
            }
            assert forall|i: int, k: int|
                0 <= i < tail.len() && 0 <= k < tail[i].orders.len() implies #[trigger] tail[i].orders[k].price
                == tail[i].price by {
                assert(tail[i] == levels[i + 1]);
            }
            assert forall|i: int| 0 <= i < tail.len() implies #[trigger] queue_ok(tail[i].orders) by {
                assert(tail[i] == levels[i + 1]);
            }
        }
        let l0 = levels[0];
        assert(queue_ok(l0.orders));
        assert forall|k: int| 0 <= k < l0.orders.len() implies #[trigger] l0.orders[k].price
            == l0.price by {
            assert(levels[0].orders[k].price == levels[0].price);
        }
        lemma_without_user_shape(l0.orders, user, l0.price);
        lemma_strip_user_shape(tail, user);
        let r = strip_user(tail, user);
        if tail.len() > 0 {
            assert forall|i: int| 0 <= i < r.len() implies #[trigger] r[i].price > l0.price by {
                assert(tail[0] == levels[1]);
            }
        } else {
            assert(r.len() == 0);
        }
        let kept = without_user(l0.orders, user);
        if kept.len() > 0 {
            let nl = LevelView { price: l0.price, orders: kept };
            let out = seq![nl] + r;
            assert(out[0] == nl);
            assert forall|i: int, j: int| 0 <= i < j < out.len() implies (if true {
                #[trigger] out[i].price < #[trigger] out[j].price
            } else {
                out[i].price > out[j].price
            }) by {
                if i > 0 {
                    assert(out[i] == r[i - 1]);
                }
                assert(out[j] == r[j - 1]);
            }
            assert forall|i: int| 0 <= i < out.len() implies #[trigger] out[i].orders.len() > 0 by {
                if i > 0 {
                    assert(out[i] == r[i - 1]);
                } else {
                    assert(out[i].orders == kept);
                }
            }
            assert forall|i: int, k: int|
                0 <= i < out.len() && 0 <= k < out[i].orders.len() implies #[trigger] out[i].orders[k].price
                == out[i].price by {
                if i > 0 {
                    assert(out[i] == r[i - 1]);
                } else {
                    assert(out[i].orders == kept);
                    assert(kept[k].price == l0.price);
                }
            }
            assert forall|i: int| 0 <= i < out.len() implies #[trigger] queue_ok(out[i].orders) by {
                if i > 0 {
                    assert(out[i] == r[i - 1]);
                } else {
                    assert(out[i].orders == kept);
                }
            }
            assert forall|i: int| 0 <= i < out.len() implies #[trigger] out[i].price >= l0.price by {
                if i > 0 {
                    assert(out[i] == r[i - 1]);
                }
            }
        }
    }
}

/// Splits a queue into the orders of `user` (appended to `cancelled`) and
/// the others (returned), both in time order.
#[verifier::spinoff_prover]
fn strip_queue(orders: Vec<Order>, user_id: &str, cancelled: &mut Vec<Order>) -> (kept: Vec<Order>)
    ensures
        orders_view(kept@) == without_user(orders_view(orders@), user_id@),
        orders_view(final(cancelled)@) == orders_view(old(cancelled)@) + orders_of_user(
            orders_view(orders@),
            user_id@,
        ),
        forall|s: nat| queue_fits(orders@, s) ==> #[trigger] queue_fits(kept@, s),
        forall|s: nat|
            queue_fits(orders@, s) && queue_fits(old(cancelled)@, s) ==> #[trigger] queue_fits(
                final(cancelled)@,
                s,
            ),        forall|p: nat| queue_prices_fit(orders@, p) ==> #[trigger] queue_prices_fit(kept@, p),
        forall|p: nat|
            queue_prices_fit(orders@, p) && queue_prices_fit(old(cancelled)@, p) ==> #[trigger] queue_prices_fit(
                final(cancelled)@,
                p,
            ),
{
    let ghost orig = orders@;
    let ghost ov = orders_view(orders@);
    let ghost c0 = orders_view(cancelled@);
    let ghost c_exec0 = cancelled@;
    let mut orders = orders;
    let mut kept: Vec<Order> = Vec::new();
    let ghost n0 = orders@.len();
    proof {
        assert(orders_view(kept@) =~= Seq::<OrderView>::empty());
        assert(orders@ =~= orig.skip(0));
    }
    while orders.len() > 0
        invariant
            orders@ == orig.skip(n0 - orders@.len()),
            orders@.len() <= n0,
            n0 == orig.len(),
            ov == orders_view(orig),
            without_user(ov, user_id@) == orders_view(kept@) + without_user(
                orders_view(orders@),
                user_id@,
            ),
            c0 + orders_of_user(ov, user_id@) == orders_view(cancelled@) + orders_of_user(
                orders_view(orders@),
                user_id@,
            ),
            forall|s: nat| queue_fits(orig, s) ==> #[trigger] queue_fits(kept@, s),
            forall|s: nat|
                queue_fits(orig, s) && queue_fits(c_exec0, s) ==> #[trigger] queue_fits(cancelled@, s),
            forall|p: nat| queue_prices_fit(orig, p) ==> #[trigger] queue_prices_fit(kept@, p),
            forall|p: nat|
                queue_prices_fit(orig, p) && queue_prices_fit(c_exec0, p) ==> #[trigger] queue_prices_fit(cancelled@, p),
        decreases orders@.len(),
    {
        let ghost cancelled_exec0 = cancelled@;
        let ghost before = orders_view(orders@);
        let ghost before_exec = orders@;
        let ghost kv0 = orders_view(kept@);
        let ghost cv0 = orders_view(cancelled@);
        let ghost kept_exec0 = kept@;
        let o = orders.remove(0);
        proof {
            assert(orders_view(orders@) =~= before.drop_first());
            assert(before[0] == o@);
            assert(orders@ =~= orig.skip(n0 - orders@.len()));
            assert(before_exec[0] == orig[n0 - before_exec.len()]);
        }
        if crate::text::str_eq(o.user_id.as_str(), user_id) {
            let ghost oc = o;
            cancelled.push(o);
            proof {
                assert(orders_view(cancelled@) =~= cv0.push(o@));
                assert forall|s: nat| queue_fits(orig, s) && queue_fits(c_exec0, s) implies #[trigger] queue_fits(cancelled@, s) by {
                    assert forall|k: int| 0 <= k < cancelled@.len() implies #[trigger] order_fits(
                        cancelled@[k],
                        s,
                    ) by {
                        if k < cancelled_exec0.len() {
                            assert(cancelled@[k] == cancelled_exec0[k]);
                            assert(queue_fits(cancelled_exec0, s));
                        } else {
                            assert(cancelled@[k] == oc);
                            assert(oc == orig[n0 - before_exec.len()]);
                        }
                    }
                }
                assert forall|p: nat| queue_prices_fit(orig, p) && queue_prices_fit(c_exec0, p) implies #[trigger] queue_prices_fit(cancelled@, p) by {
                    assert forall|k: int| 0 <= k < cancelled@.len() implies fits_at(
                        #[trigger] cancelled@[k].price,
                        p,
                    ) by {
                        if k < cancelled_exec0.len() {
                            assert(cancelled@[k] == cancelled_exec0[k]);
                            assert(queue_prices_fit(cancelled_exec0, p));
                        } else {
                            assert(cancelled@[k] == oc);
                            assert(oc == orig[n0 - before_exec.len()]);
                        }
                    }
                }
                assert(seq![o@] + orders_of_user(before.drop_first(), user_id@) =~= orders_of_user(
                    before,
                    user_id@,
                ));
            }
        } else {
            let ghost ox = o;
            kept.push(o);
            proof {
                assert(orders_view(kept@) =~= kv0.push(ox@));
                assert forall|s: nat| queue_fits(orig, s) implies #[trigger] queue_fits(kept@, s) by {
                    assert forall|k: int| 0 <= k < kept@.len() implies #[trigger] order_fits(
                        kept@[k],
                        s,
                    ) by {
                        if k < kept_exec0.len() {
                            assert(kept@[k] == kept_exec0[k]);
                            assert(queue_fits(kept_exec0, s));
                        } else {
                            assert(kept@[k] == orig[n0 - before_exec.len()]);
                        }
                    }
                }
                assert forall|p: nat| queue_prices_fit(orig, p) implies #[trigger] queue_prices_fit(kept@, p) by {
                    assert forall|k: int| 0 <= k < kept@.len() implies fits_at(#[trigger] kept@[k].price, p) by {
                        if k < kept_exec0.len() {
                            assert(kept@[k] == kept_exec0[k]);
                            assert(queue_prices_fit(kept_exec0, p));
                        } else {
                            assert(kept@[k] == orig[n0 - before_exec.len()]);
                        }
                    }
                }
            }
        }
    }
    proof {
        assert(orders_view(orders@) =~= Seq::<OrderView>::empty());
        assert(without_user(ov, user_id@) =~= orders_view(kept@));
        assert(c0 + orders_of_user(ov, user_id@) =~= orders_view(cancelled@));
    }
    kept
}

/// Strips the orders of `user` out of a side, appending them to `cancelled`
/// level by level.
#[verifier::spinoff_prover]
fn strip_levels(levels: Vec<PriceLevel>, user_id: &str, cancelled: &mut Vec<Order>) -> (out: Vec<
    PriceLevel,
>)
    ensures
        levels_view(out@) == strip_user(levels_view(levels@), user_id@),
        orders_view(final(cancelled)@) == orders_view(old(cancelled)@) + orders_of_user(
            flatten(levels_view(levels@)),
            user_id@,
        ),
        forall|s: nat| levels_fit(levels@, s) ==> #[trigger] levels_fit(out@, s),
        forall|s: nat|
            levels_fit(levels@, s) && queue_fits(old(cancelled)@, s) ==> #[trigger] queue_fits(
                final(cancelled)@,
                s,
            ),        forall|p: nat| levels_prices_fit(levels@, p) ==> #[trigger] levels_prices_fit(out@, p),
        forall|p: nat|
            levels_prices_fit(levels@, p) && queue_prices_fit(old(cancelled)@, p) ==> #[trigger] queue_prices_fit(
                final(cancelled)@,
                p,
            ),
{
    let ghost c_exec0 = cancelled@;
    let ghost orig = levels@;
    let ghost lv = levels_view(levels@);
    let ghost c0 = orders_view(cancelled@);
    let mut levels = levels;
    let mut out: Vec<PriceLevel> = Vec::new();
    let ghost n0 = levels@.len();
    proof {
        assert(levels_view(out@) =~= Seq::<LevelView>::empty());
        assert(levels@ =~= orig.skip(0));
    }
    while levels.len() > 0
        invariant
            levels@ == orig.skip(n0 - levels@.len()),
            levels@.len() <= n0,
            n0 == orig.len(),
            lv == levels_view(orig),
            strip_user(lv, user_id@) == levels_view(out@) + strip_user(levels_view(levels@), user_id@),
            c0 + orders_of_user(flatten(lv), user_id@) == orders_view(cancelled@) + orders_of_user(
                flatten(levels_view(levels@)),
                user_id@,
            ),
            forall|s: nat| levels_fit(orig, s) ==> #[trigger] levels_fit(out@, s),
            forall|s: nat|
                levels_fit(orig, s) && queue_fits(c_exec0, s) ==> #[trigger] queue_fits(cancelled@, s),
            forall|p: nat| levels_prices_fit(orig, p) ==> #[trigger] levels_prices_fit(out@, p),
            forall|p: nat|
                levels_prices_fit(orig, p) && queue_prices_fit(c_exec0, p) ==> #[trigger] queue_prices_fit(cancelled@, p),
        decreases levels@.len(),
    {
        let ghost before = levels_view(levels@);
        let ghost before_exec = levels@;
        let ghost out0 = levels_view(out@);
        let ghost out_exec0 = out@;
        let ghost cv0 = orders_view(cancelled@);
        let level = levels.remove(0);
        proof {
            assert(levels_view(levels@) =~= before.drop_first());
            assert(before[0] == level@);
            assert(levels@ =~= orig.skip(n0 - levels@.len()));
            assert(before_exec[0] == orig[n0 - before_exec.len()]);
            lemma_orders_of_user_append(before[0].orders, flatten(before.drop_first()), user_id@);
        }
        let PriceLevel { price, orders } = level;
        proof {
            assert forall|s: nat| levels_fit(orig, s) implies #[trigger] queue_fits(orders@, s) by {
                assert(queue_fits(orig[n0 - before_exec.len()].orders@, s));
            }
            assert forall|p: nat| levels_prices_fit(orig, p) implies #[trigger] queue_prices_fit(orders@, p) by {
                assert(queue_prices_fit(orig[n0 - before_exec.len()].orders@, p));
            }
        }
        let kept = strip_queue(orders, user_id, cancelled);
        if kept.len() > 0 {
            let lvl = PriceLevel { price, orders: kept };
            out.push(lvl);
            proof {
                assert(levels_view(out@) =~= out0.push(lvl@));
                assert forall|s: nat| levels_fit(orig, s) implies #[trigger] levels_fit(out@, s) by {
                    assert forall|i: int| 0 <= i < out@.len() implies #[trigger] queue_fits(
                        out@[i].orders@,
                        s,
                    ) by {
                        if i < out_exec0.len() {
                            assert(out@[i] == out_exec0[i]);
                            assert(levels_fit(out_exec0, s));
                        } else {
                            assert(queue_fits(orig[n0 - before_exec.len()].orders@, s));
                        }
                    }
                }
                assert forall|p: nat| levels_prices_fit(orig, p) implies #[trigger] levels_prices_fit(out@, p) by {
                    assert forall|i: int| 0 <= i < out@.len() implies #[trigger] queue_prices_fit(
                        out@[i].orders@,
                        p,
                    ) by {
                        if i < out_exec0.len() {
                            assert(out@[i] == out_exec0[i]);
                            assert(levels_prices_fit(out_exec0, p));
                        } else {
                            assert(queue_prices_fit(orig[n0 - before_exec.len()].orders@, p));
                        }
                    }
                }
            }
        }
    }
    proof {
        assert(levels_view(levels@) =~= Seq::<LevelView>::empty());
        assert(flatten(Seq::<LevelView>::empty()) =~= Seq::<OrderView>::empty());
        assert(strip_user(lv, user_id@) =~= levels_view(out@));
        assert(c0 + orders_of_user(flatten(lv), user_id@) =~= orders_view(cancelled@));
    }
    out
}

impl OrderBook {
    /// Removes all orders of `user_id` and returns them (bids then asks,
    /// each side in ascending price, oldest first within a price) so the
    /// caller can unlock the associated funds.
    pub fn cancel_all_orders(&mut self, user_id: &str) -> (cancelled: Vec<Order>)
        requires
            old(self).wf(),
        ensures
            final(self).wf(),
            forall|s: nat| old(self).fits(s) ==> #[trigger] final(self).fits(s),
            final(self)@ == (BookView {
                bids: strip_user(old(self)@.bids, user_id@),
                asks: strip_user(old(self)@.asks, user_id@),
                asset_pair: old(self)@.asset_pair,
                trade_id: old(self)@.trade_id,
            }),
            orders_view(cancelled@) == orders_of_user(book_orders(old(self)@), user_id@),
            forall|s: nat| old(self).fits(s) ==> #[trigger] queue_fits(cancelled@, s),
            forall|p: nat| old(self).prices_fit(p) ==> #[trigger] final(self).prices_fit(p),
            forall|p: nat| old(self).prices_fit(p) ==> #[trigger] queue_prices_fit(cancelled@, p),
    {
        let ghost b0 = self@;
        let mut cancelled: Vec<Order> = Vec::new();
        proof {
            assert(orders_view(cancelled@) =~= Seq::<OrderView>::empty());
            lemma_side_wf_parts(b0.bids);
            lemma_side_wf_parts(b0.asks);
            lemma_strip_user_shape(b0.bids, user_id@);
            lemma_strip_user_shape(b0.asks, user_id@);
            lemma_orders_of_user_append(flatten(b0.bids), flatten(b0.asks), user_id@);
        }
        let mut bids: Vec<PriceLevel> = Vec::new();
        std::mem::swap(&mut bids, &mut self.bids);
        let new_bids = strip_levels(bids, user_id, &mut cancelled);
        self.bids = new_bids;
        let mut asks: Vec<PriceLevel> = Vec::new();
        std::mem::swap(&mut asks, &mut self.asks);
        let new_asks = strip_levels(asks, user_id, &mut cancelled);
        self.asks = new_asks;
        proof {
            assert(orders_view(cancelled@) =~= orders_of_user(book_orders(b0), user_id@));
        }
        cancelled
    }
}

/// What is left to fill of an order.
pub open spec fn remaining(o: OrderView) -> int {
    o.quantity - o.filled
}

pub open spec fn remaining_sum(orders: Seq<OrderView>) -> int
    decreases orders.len(),
{
    if orders.len() == 0 {
        0
    } else {
        remaining(orders[0]) + remaining_sum(orders.drop_first())
    }
}

/// The depth of a side: for each level in order, its price and the total
/// left to fill, levels with nothing left omitted.
pub open spec fn depth_of(levels: Seq<LevelView>) -> Seq<(int, int)>
    decreases levels.len(),
{
    if levels.len() == 0 {
        Seq::empty()
    } else {
        let r = remaining_sum(levels[0].orders);
        let rest = depth_of(levels.drop_first());
        if r > 0 {
            seq![(levels[0].price, r)] + rest
        } else {
            rest
        }
    }
}

pub open spec fn depth_view(v: Seq<(Dec, Dec)>) -> Seq<(int, int)> {
    v.map_values(|p: (Dec, Dec)| (p.0.val(), p.1.val()))
}

/// Every level's total left to fill is within the bound at scale `s`.
pub open spec fn totals_within(levels: Seq<LevelView>, s: nat) -> bool {
    forall|i: int| 0 <= i < levels.len() ==> #[trigger] remaining_sum(levels[i].orders) <= bound_at(s)
}

pub proof fn lemma_remaining_sum_nonneg(orders: Seq<OrderView>)
    requires
        queue_ok(orders),
    ensures
        remaining_sum(orders) >= 0,
    decreases orders.len(),
{
    if orders.len() > 0 {
        let t = orders.drop_first();
        assert forall|k: int| 0 <= k < t.len() implies #[trigger] resting_ok(t[k]) by {
            assert(t[k] == orders[k + 1]);
        }
        assert(resting_ok(orders[0]));
        lemma_remaining_sum_nonneg(t);
    }
}

/// The total left to fill over a queue.
fn level_total(orders: &Vec<Order>, Ghost(s): Ghost<nat>) -> (total: Dec)
    requires
        s <= 28,
        queue_ok(orders_view(orders@)),
        queue_fits(orders@, s),
        remaining_sum(orders_view(orders@)) <= bound_at(s),
    ensures
        total.val() == remaining_sum(orders_view(orders@)),
{
    let ghost ov = orders_view(orders@);
    let n = orders.len();
    let mut acc = Dec::zero();
    let mut j: usize = 0;
    proof {
        assert(ov.skip(0) =~= ov);
        crate::dec::lemma_bound_at_anti(0, s);
    }
    while j < n
        invariant
            n == orders@.len(),
            ov == orders_view(orders@),
            queue_ok(ov),
            queue_fits(orders@, s),
            remaining_sum(ov) <= bound_at(s),
            j <= n,
            fits_at(acc, s),
            0 <= acc.val(),
            remaining_sum(ov) == acc.val() + remaining_sum(ov.skip(j as int)),
        decreases n - j,
    {
        let o = &orders[j];
        proof {
            let sk = ov.skip(j as int);
            assert(sk[0] == ov[j as int]);
            assert(sk.drop_first() =~= ov.skip(j + 1));
            assert(ov[j as int] == o@);
            assert(resting_ok(ov[j as int]));
            assert(order_fits(orders@[j as int], s));
            assert forall|k: int| 0 <= k < ov.skip(j + 1).len() implies #[trigger] resting_ok(
                ov.skip(j + 1)[k],
            ) by {
                assert(ov.skip(j + 1)[k] == ov[j + 1 + k]);
            }
            lemma_remaining_sum_nonneg(ov.skip(j + 1));
        }
        let r = sub_at(o.quantity, o.filled_quantity, Ghost(s));
        acc = add_at(acc, r, Ghost(s));
        j = j + 1;
    }
    proof {
        assert(ov.skip(n as int) =~= Seq::<OrderView>::empty());
    }
    acc
}

/// The depth of one side, levels in stored order.
fn side_depth(levels: &Vec<PriceLevel>, Ghost(s): Ghost<nat>) -> (depth: Vec<(Dec, Dec)>)
    requires
        s <= 28,
        levels_ok(levels_view(levels@)),
        levels_fit(levels@, s),
        totals_within(levels_view(levels@), s),
    ensures
        depth_view(depth@) == depth_of(levels_view(levels@)),
{
    let ghost lv = levels_view(levels@);
    let n = levels.len();
    let mut out: Vec<(Dec, Dec)> = Vec::new();
    let mut i: usize = 0;
    proof {
        assert(lv.skip(0) =~= lv);
        assert(depth_view(out@) =~= Seq::<(int, int)>::empty());
    }
    while i < n
        invariant
            n == levels@.len(),
            lv == levels_view(levels@),
            levels_ok(lv),
            levels_fit(levels@, s),
            totals_within(lv, s),
            i <= n,
            s <= 28,
            depth_of(lv) == depth_view(out@) + depth_of(lv.skip(i as int)),
        decreases n - i,
    {
        let level = &levels[i];
        proof {
            let sk = lv.skip(i as int);
            assert(sk[0] == lv[i as int]);
            assert(sk.drop_first() =~= lv.skip(i + 1));
            assert(lv[i as int] == level@);
            assert(queue_ok(lv[i as int].orders));
            assert(queue_fits(levels@[i as int].orders@, s));
            assert(remaining_sum(lv[i as int].orders) <= bound_at(s));
        }
        let total = level_total(&level.orders, Ghost(s));
        if total.is_positive() {
            let ghost out0 = depth_view(out@);
            out.push((level.price, total));
            proof {
                assert(depth_view(out@) =~= out0.push((level.price.val(), total.val())));
                assert(depth_view(out@) + depth_of(lv.skip(i + 1)) =~= out0 + depth_of(lv.skip(i as int)));
            }
        }
        i = i + 1;
    }
    proof {
        assert(lv.skip(n as int) =~= Seq::<LevelView>::empty());
        assert(depth_view(out@) + depth_of(lv.skip(n as int)) =~= depth_view(out@));
    }
    out
}

impl OrderBook {
    /// Aggregated depth: for each side, in ascending price, each level's
    /// price and the total left to fill there.
    /// Some common scale holds every price, quantity and per-level total
    /// of the book.
    pub open spec fn depth_fits(&self) -> bool {
        exists|s: nat|
            s <= 28 && self.fits(s) && totals_within(self@.bids, s) && totals_within(
                self@.asks,
                s,
            )
    }

    pub fn get_depth(&self) -> (depth: (Vec<(Dec, Dec)>, Vec<(Dec, Dec)>))
        requires
            self.wf(),
            self.depth_fits(),
        ensures
            depth_view(depth.0@) == depth_of(self@.bids),
            depth_view(depth.1@) == depth_of(self@.asks),
    {
        let ghost s = choose|s: nat|
            s <= 28 && self.fits(s) && totals_within(self@.bids, s) && totals_within(self@.asks, s);
        (side_depth(&self.bids, Ghost(s)), side_depth(&self.asks, Ghost(s)))
    }
}


proof fn lemma_without_user_twice(orders: Seq<OrderView>, user: Seq<char>)
    ensures
        without_user(without_user(orders, user), user) == without_user(orders, user),
        orders_of_user(without_user(orders, user), user) == Seq::<OrderView>::empty(),
    decreases orders.len(),
{
    if orders.len() > 0 {
        lemma_without_user_twice(orders.drop_first(), user);
        if orders[0].user_id != user {
            let w = seq![orders[0]] + without_user(orders.drop_first(), user);
            assert(w[0] == orders[0]);
            assert(w.drop_first() =~= without_user(orders.drop_first(), user));
        }
    }
}

proof fn lemma_strip_user_twice(levels: Seq<LevelView>, user: Seq<char>)
    ensures
        strip_user(strip_user(levels, user), user) == strip_user(levels, user),
        orders_of_user(flatten(strip_user(levels, user)), user) == Seq::<OrderView>::empty(),
    decreases levels.len(),
{
    if levels.len() > 0 {
        lemma_strip_user_twice(levels.drop_first(), user);
        let kept = without_user(levels[0].orders, user);
        let rest = strip_user(levels.drop_first(), user);
        lemma_without_user_twice(levels[0].orders, user);
        if kept.len() > 0 {
            let l = LevelView { price: levels[0].price, orders: kept };
            let st = seq![l] + rest;
            assert(st[0] == l);
            assert(st.drop_first() =~= rest);
            assert(flatten(st) == kept + flatten(rest));
            lemma_orders_of_user_append(kept, flatten(rest), user);
            assert(orders_of_user(flatten(st), user) =~= Seq::<OrderView>::empty());
        }
    }
}

/// Cancelling all orders of a user a second time finds none and leaves the
/// book as the first cancellation left it.
pub proof fn law_cancel_all_twice(book: BookView, user: Seq<char>)
    ensures
        ({
            let once = BookView {
                bids: strip_user(book.bids, user),
                asks: strip_user(book.asks, user),
                ..book
            };
            &&& orders_of_user(book_orders(once), user) == Seq::<OrderView>::empty()
            &&& (BookView {
                bids: strip_user(once.bids, user),
                asks: strip_user(once.asks, user),
                ..once
            }) == once
        }),
{
    lemma_strip_user_twice(book.bids, user);
    lemma_strip_user_twice(book.asks, user);
    let once = BookView { bids: strip_user(book.bids, user), asks: strip_user(book.asks, user), ..book };
    lemma_orders_of_user_append(flatten(once.bids), flatten(once.asks), user);
    assert(orders_of_user(book_orders(once), user) =~= Seq::<OrderView>::empty());
}


/// What the crossing makers of a queue have left to fill.
pub open spec fn queue_liquidity(makers: Seq<OrderView>, side: OrderSide, limit: int) -> int
    decreases makers.len(),
{
    if makers.len() == 0 {
        0
    } else {
        let m = makers[0];
        let here = if crosses(side, limit, m.price) {
            m.quantity - m.filled
        } else {
            0
        };
        here + queue_liquidity(makers.drop_first(), side, limit)
    }
}

/// What the crossing makers of the levels have left to fill.
pub open spec fn levels_liquidity(levels: Seq<LevelView>, side: OrderSide, limit: int) -> int
    decreases levels.len(),
{
    if levels.len() == 0 {
        0
    } else {
        queue_liquidity(levels[0].orders, side, limit) + levels_liquidity(levels.drop_first(), side, limit)
    }
}

/// The quantity resting on the opposite side at prices a taker of `side`
/// with limit `limit` accepts.
pub open spec fn crossing_liquidity(book: BookView, side: OrderSide, limit: int) -> int {
    levels_liquidity(opposite_in_priority(book, side), side, limit)
}

proof fn lemma_queue_executed(makers: Seq<OrderView>, side: OrderSide, limit: int, qty: int, e: int, tid: int)
    requires
        queue_ok(makers),
        0 <= e <= qty,
    ensures
        match_queue(makers, side, limit, qty, e, tid).executed == min_int(
            qty,
            e + queue_liquidity(makers, side, limit),
        ),
        queue_liquidity(makers, side, limit) >= 0,
    decreases makers.len(),
{
    if makers.len() > 0 {
        let m = makers[0];
        assert(resting_ok(makers[0]));
        assert forall|k: int| 0 <= k < makers.drop_first().len() implies #[trigger] resting_ok(
            makers.drop_first()[k],
        ) by {
            assert(makers.drop_first()[k] == makers[k + 1]);
            assert(resting_ok(makers[k + 1]));
        }
        if crosses(side, limit, m.price) && e < qty {
            let f = min_int(qty - e, m.quantity - m.filled);
            lemma_queue_executed(makers.drop_first(), side, limit, qty, e + f, tid + 1);
        } else {
            lemma_queue_executed(makers.drop_first(), side, limit, qty, e, tid);
        }
    }
}

proof fn lemma_levels_executed(levels: Seq<LevelView>, side: OrderSide, limit: int, qty: int, e: int, tid: int)
    requires
        levels_ok(levels),
        0 <= e <= qty,
    ensures
        match_levels(levels, side, limit, qty, e, tid).executed == min_int(
            qty,
            e + levels_liquidity(levels, side, limit),
        ),
        levels_liquidity(levels, side, limit) >= 0,
    decreases levels.len(),
{
    if levels.len() > 0 {
        assert(queue_ok(levels[0].orders));
        lemma_queue_executed(levels[0].orders, side, limit, qty, e, tid);
        let q = match_queue(levels[0].orders, side, limit, qty, e, tid);
        assert forall|i: int| 0 <= i < levels.drop_first().len() implies #[trigger] queue_ok(
            levels.drop_first()[i].orders,
        ) by {
            assert(levels.drop_first()[i] == levels[i + 1]);
            assert(queue_ok(levels[i + 1].orders));
        }
        lemma_levels_executed(levels.drop_first(), side, limit, qty, q.executed, q.trade_id);
    }
}

/// Law: an order executes as much as it can.  Its executed quantity is the
/// smaller of its own quantity and what the opposite side has left at
/// prices it accepts.
pub proof fn law_executes_what_crosses(book: BookView, taker: OrderView)
    requires
        side_wf(book.bids),
        side_wf(book.asks),
        0 <= taker.quantity,
    ensures
        match_taker(book, taker).executed == min_int(
            taker.quantity,
            crossing_liquidity(book, taker.side, taker.price),
        ),
{
    let opp = opposite_in_priority(book, taker.side);
    assert(levels_ok(opp)) by {
        if taker.side == OrderSide::Sell {
            assert forall|i: int| 0 <= i < opp.len() implies #[trigger] queue_ok(opp[i].orders) by {
                assert(opp[i] == book.bids[book.bids.len() - 1 - i]);
                assert(queue_ok(book.bids[book.bids.len() - 1 - i].orders));
            }
        }
    }
    lemma_levels_executed(opp, taker.side, taker.price, taker.quantity, 0, book.trade_id);
}


/// Number of resting orders on both sides of a book.
pub open spec fn book_size(book: BookView) -> int {
    count_orders(book.bids) + count_orders(book.asks)
}

proof fn lemma_queue_rest_len(makers: Seq<OrderView>, side: OrderSide, limit: int, qty: int, e: int, tid: int)
    ensures
        match_queue(makers, side, limit, qty, e, tid).rest.len() <= makers.len(),
    decreases makers.len(),
{
    if makers.len() > 0 {
        let m = makers[0];
        if crosses(side, limit, m.price) && e < qty {
            let f = min_int(qty - e, m.quantity - m.filled);
            lemma_queue_rest_len(makers.drop_first(), side, limit, qty, e + f, tid + 1);
        } else {
            lemma_queue_rest_len(makers.drop_first(), side, limit, qty, e, tid);
        }
    }
}

proof fn lemma_levels_count(levels: Seq<LevelView>, side: OrderSide, limit: int, qty: int, e: int, tid: int)
    ensures
        count_orders(match_levels(levels, side, limit, qty, e, tid).levels) <= count_orders(levels),
    decreases levels.len(),
{
    if levels.len() > 0 {
        lemma_queue_rest_len(levels[0].orders, side, limit, qty, e, tid);
        let q = match_queue(levels[0].orders, side, limit, qty, e, tid);
        lemma_levels_count(levels.drop_first(), side, limit, qty, q.executed, q.trade_id);
        let r = match_levels(levels.drop_first(), side, limit, qty, q.executed, q.trade_id);
        if q.rest.len() > 0 {
            let l = seq![LevelView { price: levels[0].price, orders: q.rest }];
            lemma_count_orders_append(l, r.levels);
            assert(l.drop_first() =~= Seq::<LevelView>::empty());
            assert(count_orders(l.drop_first()) == 0);
            assert(count_orders(l) == q.rest.len());
        }
    }
}

proof fn lemma_count_insert(levels: Seq<LevelView>, o: OrderView)
    ensures
        count_orders(insert_order(levels, o)) == count_orders(levels) + 1,
    decreases levels.len(),
{
    let l = seq![LevelView { price: o.price, orders: seq![o] }];
    assert(l.drop_first() =~= Seq::<LevelView>::empty());
    assert(count_orders(l.drop_first()) == 0);
    assert(count_orders(l) == 1);
    if levels.len() == 0 {
    } else if o.price < levels[0].price {
        lemma_count_orders_append(l, levels);
    } else if o.price == levels[0].price {
        let u = levels.update(0, LevelView { price: levels[0].price, orders: levels[0].orders.push(o) });
        assert(u.drop_first() =~= levels.drop_first());
    } else {
        lemma_count_insert(levels.drop_first(), o);
        let h = seq![levels[0]];
        assert(h.drop_first() =~= Seq::<LevelView>::empty());
        assert(count_orders(h.drop_first()) == 0);
        assert(h + insert_order(levels.drop_first(), o) == insert_order(levels, o));
        lemma_count_orders_append(h, insert_order(levels.drop_first(), o));
    }
}

/// The orders a taker can trade against are among the book's orders.
pub proof fn lemma_opposite_count_bound(book: BookView, side: OrderSide)
    ensures
        0 <= opposite_count(book, side) <= book_size(book),
{
    lemma_count_orders_nonneg(book.bids);
    lemma_count_orders_nonneg(book.asks);
}

/// Processing an order adds at most one resting order to the book, and
/// uses at most one trade id per order it trades against.
pub proof fn lemma_book_size_after(book: BookView, taker: OrderView)
    ensures
        book_size(book_after(book, taker)) <= book_size(book) + 1,
        match_taker(book, taker).fills.len() <= opposite_count(book, taker.side),
        opposite_count(book, taker.side) <= book_size(book),
        0 <= opposite_count(book, taker.side),
{
    let m = match_taker(book, taker);
    let opp = opposite_in_priority(book, taker.side);
    lemma_levels_count(opp, taker.side, taker.price, taker.quantity, 0, book.trade_id);
    lemma_count_orders_nonneg(book.bids);
    lemma_count_orders_nonneg(book.asks);
    lemma_count_orders_nonneg(m.levels);
    lemma_count_orders_reverse(book.bids);
    lemma_count_orders_reverse(m.levels);
    lemma_count_insert(book.bids, rested(taker, m.executed));
    lemma_count_insert(book.asks, rested(taker, m.executed));
    lemma_levels_fill_count(opp, taker.side, taker.price, taker.quantity, 0, book.trade_id);
}

proof fn lemma_levels_fill_count(levels: Seq<LevelView>, side: OrderSide, limit: int, qty: int, e: int, tid: int)
    ensures
        match_levels(levels, side, limit, qty, e, tid).fills.len() <= count_orders(levels),
    decreases levels.len(),
{
    if levels.len() > 0 {
        lemma_queue_fill_count(levels[0].orders, side, limit, qty, e, tid);
        let q = match_queue(levels[0].orders, side, limit, qty, e, tid);
        lemma_levels_fill_count(levels.drop_first(), side, limit, qty, q.executed, q.trade_id);
    }
}

proof fn lemma_queue_fill_count(makers: Seq<OrderView>, side: OrderSide, limit: int, qty: int, e: int, tid: int)
    ensures
        match_queue(makers, side, limit, qty, e, tid).fills.len() <= makers.len(),
    decreases makers.len(),
{
    if makers.len() > 0 {
        let m = makers[0];
        if crosses(side, limit, m.price) && e < qty {
            let f = min_int(qty - e, m.quantity - m.filled);
            lemma_queue_fill_count(makers.drop_first(), side, limit, qty, e + f, tid + 1);
        } else {
            lemma_queue_fill_count(makers.drop_first(), side, limit, qty, e, tid);
        }
    }
}


/// Holds of the orders that are not of `user`.
pub open spec fn not_of(user: Seq<char>) -> spec_fn(OrderView) -> bool {
    |o: OrderView| o.user_id != user
}

proof fn lemma_filter_single(x: OrderView, p: spec_fn(OrderView) -> bool)
    ensures
        seq![x].filter(p) == (if p(x) { seq![x] } else { Seq::<OrderView>::empty() }),
{
    reveal(Seq::filter);
    let e = Seq::<OrderView>::empty();
    assert(e.filter(p) =~= e);
    e.lemma_filter_push(x, p);
    assert(e.push(x) =~= seq![x]);
}

proof fn lemma_without_user_filter(orders: Seq<OrderView>, user: Seq<char>)
    ensures
        without_user(orders, user) == orders.filter(not_of(user)),
    decreases orders.len(),
{
    reveal(Seq::filter);
    if orders.len() == 0 {
        assert(orders.filter(not_of(user)) =~= orders);
    } else {
        let t = orders.drop_first();
        lemma_without_user_filter(t, user);
        assert(orders =~= seq![orders[0]] + t);
        Seq::filter_distributes_over_add(seq![orders[0]], t, not_of(user));
        lemma_filter_single(orders[0], not_of(user));
        if orders[0].user_id == user {
            assert(seq![orders[0]].filter(not_of(user)) + t.filter(not_of(user)) =~= t.filter(not_of(user)));
        }
    }
}

proof fn lemma_strip_user_filter(levels: Seq<LevelView>, user: Seq<char>)
    ensures
        flatten(strip_user(levels, user)) == flatten(levels).filter(not_of(user)),
    decreases levels.len(),
{
    reveal(Seq::filter);
    if levels.len() == 0 {
        assert(flatten(levels).filter(not_of(user)) =~= flatten(levels));
    } else {
        let rest = levels.drop_first();
        lemma_strip_user_filter(rest, user);
        lemma_without_user_filter(levels[0].orders, user);
        Seq::filter_distributes_over_add(levels[0].orders, flatten(rest), not_of(user));
        let kept = without_user(levels[0].orders, user);
        if kept.len() > 0 {
            let l = seq![LevelView { price: levels[0].price, orders: kept }];
            lemma_flatten_append(l, strip_user(rest, user));
            assert(l.drop_first() =~= Seq::<LevelView>::empty());
            assert(flatten(l.drop_first()) =~= Seq::<OrderView>::empty());
            assert(l[0].orders == kept);
            assert(flatten(l) == l[0].orders + flatten(l.drop_first()));
            assert(flatten(l) =~= kept);
        } else {
            assert(kept =~= Seq::<OrderView>::empty());
            assert(kept + flatten(strip_user(rest, user)) =~= flatten(strip_user(rest, user)));
        }
    }
}

/// Law: cancelling all orders of a user takes out exactly that user's
/// orders.  The orders resting afterwards are the orders resting before
/// that are not the user's, in the same order: every other user's order
/// stays on the book.
pub proof fn law_cancel_all_keeps_other_users(book: BookView, user: Seq<char>)
    ensures
        book_orders(
            BookView { bids: strip_user(book.bids, user), asks: strip_user(book.asks, user), ..book },
        ) == book_orders(book).filter(not_of(user)),
{
    lemma_strip_user_filter(book.bids, user);
    lemma_strip_user_filter(book.asks, user);
    Seq::filter_distributes_over_add(flatten(book.bids), flatten(book.asks), not_of(user));
}


/// Resting an order puts it among the orders of its own side.
pub proof fn lemma_insert_order_holds(levels: Seq<LevelView>, o: OrderView)
    ensures
        flatten(insert_order(levels, o)).contains(o),
    decreases levels.len(),
{
    let l = seq![LevelView { price: o.price, orders: seq![o] }];
    assert(l.drop_first() =~= Seq::<LevelView>::empty());
    assert(flatten(l.drop_first()) =~= Seq::<OrderView>::empty());
    assert(flatten(l) =~= seq![o]);
    assert(flatten(l)[0] == o);
    if levels.len() == 0 {
    } else if o.price < levels[0].price {
        lemma_flatten_append(l, levels);
        assert(flatten(l + levels)[0] == o);
    } else if o.price == levels[0].price {
        let u = levels.update(0, LevelView { price: levels[0].price, orders: levels[0].orders.push(o) });
        assert(u.drop_first() =~= levels.drop_first());
        let n = levels[0].orders.len();
        assert(flatten(u) == u[0].orders + flatten(u.drop_first()));
        assert(flatten(u)[n as int] == o);
    } else {
        lemma_insert_order_holds(levels.drop_first(), o);
        let h = seq![levels[0]];
        let r = insert_order(levels.drop_first(), o);
        lemma_flatten_append(h, r);
        assert(h + r == insert_order(levels, o));
        let k = choose|k: int| 0 <= k < flatten(r).len() && flatten(r)[k] == o;
        assert(flatten(h + r)[flatten(h).len() + k] == o);
    }
}


/// `f` was made against one of `orders`: at that order's price, with that
/// order's id and owner.
pub open spec fn traded_with(f: FillView, orders: Seq<OrderView>) -> bool {
    exists|j: int|
        0 <= j < orders.len() && #[trigger] orders[j].order_id == f.order_id && orders[j].user_id
            == f.other_user_id && orders[j].price == f.price
}

proof fn lemma_queue_fills_from_makers(
    makers: Seq<OrderView>,
    side: OrderSide,
    limit: int,
    qty: int,
    e: int,
    tid: int,
)
    ensures
        forall|k: int|
            0 <= k < match_queue(makers, side, limit, qty, e, tid).fills.len() ==> #[trigger] traded_with(
                match_queue(makers, side, limit, qty, e, tid).fills[k],
                makers,
            ),
    decreases makers.len(),
{
    if makers.len() > 0 {
        let m = makers[0];
        let t = makers.drop_first();
        let r = match_queue(makers, side, limit, qty, e, tid);
        if crosses(side, limit, m.price) && e < qty {
            let f = min_int(qty - e, m.quantity - m.filled);
            lemma_queue_fills_from_makers(t, side, limit, qty, e + f, tid + 1);
            let r2 = match_queue(t, side, limit, qty, e + f, tid + 1);
            assert forall|k: int| 0 <= k < r.fills.len() implies #[trigger] traded_with(r.fills[k], makers) by {
                if k == 0 {
                    assert(makers[0].order_id == r.fills[0].order_id);
                } else {
                    assert(r.fills[k] == r2.fills[k - 1]);
                    assert(traded_with(r2.fills[k - 1], t));
                    let j = choose|j: int|
                        0 <= j < t.len() && #[trigger] t[j].order_id == r2.fills[k - 1].order_id
                            && t[j].user_id == r2.fills[k - 1].other_user_id && t[j].price == r2.fills[k
                            - 1].price;
                    assert(makers[j + 1] == t[j]);
                }
            }
        } else {
            lemma_queue_fills_from_makers(t, side, limit, qty, e, tid);
            let r2 = match_queue(t, side, limit, qty, e, tid);
            assert forall|k: int| 0 <= k < r.fills.len() implies #[trigger] traded_with(r.fills[k], makers) by {
                assert(r.fills[k] == r2.fills[k]);
                assert(traded_with(r2.fills[k], t));
                let j = choose|j: int|
                    0 <= j < t.len() && #[trigger] t[j].order_id == r2.fills[k].order_id && t[j].user_id
                        == r2.fills[k].other_user_id && t[j].price == r2.fills[k].price;
                assert(makers[j + 1] == t[j]);
            }
        }
    }
}

proof fn lemma_levels_fills_from_makers(
    levels: Seq<LevelView>,
    side: OrderSide,
    limit: int,
    qty: int,
    e: int,
    tid: int,
)
    ensures
        forall|k: int|
            0 <= k < match_levels(levels, side, limit, qty, e, tid).fills.len() ==> #[trigger] traded_with(
                match_levels(levels, side, limit, qty, e, tid).fills[k],
                flatten(levels),
            ),
    decreases levels.len(),
{
    if levels.len() > 0 {
        let o0 = levels[0].orders;
        let rest = levels.drop_first();
        let q = match_queue(o0, side, limit, qty, e, tid);
        lemma_queue_fills_from_makers(o0, side, limit, qty, e, tid);
        lemma_levels_fills_from_makers(rest, side, limit, qty, q.executed, q.trade_id);
        let r2 = match_levels(rest, side, limit, qty, q.executed, q.trade_id);
        let r = match_levels(levels, side, limit, qty, e, tid);
        assert(flatten(levels) == o0 + flatten(rest));
        assert forall|k: int| 0 <= k < r.fills.len() implies #[trigger] traded_with(r.fills[k], flatten(levels)) by {
            if k < q.fills.len() {
                assert(r.fills[k] == q.fills[k]);
                assert(traded_with(q.fills[k], o0));
                let j = choose|j: int|
                    0 <= j < o0.len() && #[trigger] o0[j].order_id == q.fills[k].order_id && o0[j].user_id
                        == q.fills[k].other_user_id && o0[j].price == q.fills[k].price;
                assert(flatten(levels)[j] == o0[j]);
            } else {
                let k2 = k - q.fills.len();
                assert(r.fills[k] == r2.fills[k2]);
                assert(traded_with(r2.fills[k2], flatten(rest)));
                let fr = flatten(rest);
                let j = choose|j: int|
                    0 <= j < fr.len() && #[trigger] fr[j].order_id == r2.fills[k2].order_id && fr[j].user_id
                        == r2.fills[k2].other_user_id && fr[j].price == r2.fills[k2].price;
                assert(flatten(levels)[o0.len() + j] == fr[j]);
            }
        }
    }
}

/// Law: every fill of an order is made against a resting order of the
/// opposite side, at that resting order's price (not the taker's), naming
/// that order and its owner.
pub proof fn law_fills_at_makers_prices(book: BookView, taker: OrderView)
    ensures
        forall|k: int|
            0 <= k < match_taker(book, taker).fills.len() ==> #[trigger] traded_with(
                match_taker(book, taker).fills[k],
                flatten(opposite_in_priority(book, taker.side)),
            ),
{
    lemma_levels_fills_from_makers(
        opposite_in_priority(book, taker.side),
        taker.side,
        taker.price,
        taker.quantity,
        0,
        book.trade_id,
    );
}

} // verus!
