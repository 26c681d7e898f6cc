//! The market-data events the engine publishes to websocket clients: one
//! trade event per fill, and the depth of the price levels an order
//! touched.

use vstd::prelude::*;
use vstd::string::*;

use crate::dec::Dec;
use crate::engine::{find_book, Engine};
use crate::orderbook::{depth_of, depth_view, opposite, side_of, BookView};
use crate::text::str_eq;
use crate::types::{fills_view, Fill, FillView, OrderSide};

verus! {

/// A trade in a market, as published on its trade stream.
#[derive(Clone, Debug)]
pub struct TradeEvent {
    pub stream: String,
    pub trade_id: i64,
    /// The maker of the fill is the user who placed the order.
    pub self_trade: bool,
    pub price: Dec,
    pub quantity: Dec,
    pub market: String,
    pub timestamp: i64,
}

/// The levels of a market's depth that an order touched, as published on
/// its depth stream.
#[derive(Clone, Debug)]
pub struct DepthUpdate {
    pub stream: String,
    pub market: String,
    pub bids: Vec<(Dec, Dec)>,
    pub asks: Vec<(Dec, Dec)>,
}

pub struct TradeEventView {
    pub stream: Seq<char>,
    pub trade_id: i64,
    pub self_trade: bool,
    pub price: int,
    pub quantity: int,
    pub market: Seq<char>,
    pub timestamp: i64,
}

impl View for TradeEvent {
    type V = TradeEventView;

    open spec fn view(&self) -> TradeEventView {
        TradeEventView {
            stream: self.stream@,
            trade_id: self.trade_id,
            self_trade: self.self_trade,
            price: self.price.val(),
            quantity: self.quantity.val(),
            market: self.market@,
            timestamp: self.timestamp,
        }
    }
}

pub open spec fn events_view(v: Seq<TradeEvent>) -> Seq<TradeEventView> {
    v.map_values(|e: TradeEvent| e@)
}

/// The name of a market's stream of a kind.
pub open spec fn stream_name(kind: Seq<char>, market: Seq<char>) -> Seq<char> {
    kind + "."@ + market
}

/// The trade events of the fills of an order of `user` in `market`.
pub open spec fn trade_events(
    user: Seq<char>,
    market: Seq<char>,
    fills: Seq<FillView>,
    timestamp: i64,
) -> Seq<TradeEventView>
    decreases fills.len(),
{
    if fills.len() == 0 {
        Seq::empty()
    } else {
        let f = fills.last();
        trade_events(user, market, fills.drop_last(), timestamp).push(
            TradeEventView {
                stream: stream_name("trade"@, market),
                trade_id: f.trade_id as i64,
                self_trade: f.other_user_id == user,
                price: f.price,
                quantity: f.quantity,
                market,
                timestamp,
            },
        )
    }
}

/// The entries of a depth whose price is that of some fill.
pub open spec fn at_fill_prices(depth: Seq<(int, int)>, fills: Seq<FillView>) -> Seq<(int, int)>
    decreases depth.len(),
{
    if depth.len() == 0 {
        Seq::empty()
    } else {
        let rest = at_fill_prices(depth.drop_last(), fills);
        if exists|k: int| 0 <= k < fills.len() && #[trigger] fills[k].price == depth.last().0 {
            rest.push(depth.last())
        } else {
            rest
        }
    }
}

/// The entries of a depth at `price`.
pub open spec fn at_price(depth: Seq<(int, int)>, price: int) -> Seq<(int, int)>
    decreases depth.len(),
{
    if depth.len() == 0 {
        Seq::empty()
    } else {
        let rest = at_price(depth.drop_last(), price);
        if depth.last().0 == price {
            rest.push(depth.last())
        } else {
            rest
        }
    }
}

/// `r` is the depth update for an order of `side` at `price` in `market`
/// that traded `fills`, on `books`.
pub open spec fn depth_answer(
    books: Seq<crate::orderbook::BookView>,
    market: Seq<char>,
    price: int,
    side: OrderSide,
    fills: Seq<FillView>,
    r: Option<DepthUpdate>,
) -> bool {
    match find_book(books, market) {
        None => r is None,
        Some(b) => r matches Some(u) && {
            let bids = depth_of(books[b].bids);
            let asks = depth_of(books[b].asks);
            &&& u.stream@ == stream_name("depth"@, market)
            &&& u.market@ == market
            &&& match side {
                OrderSide::Buy => depth_view(u.bids@) == at_price(bids, price) && depth_view(
                    u.asks@,
                ) == at_fill_prices(asks, fills),
                OrderSide::Sell => depth_view(u.bids@) == at_fill_prices(bids, fills) && depth_view(
                    u.asks@,
                ) == at_price(asks, price),
            }
        },
    }
}

fn stream_of(kind: &str, market: &str) -> (r: String)
    ensures
        r@ == stream_name(kind@, market@),
{
    let mut r = String::from_str(kind);
    r.append(".");
    r.append(market);
    r
}

/// The trade events of the fills of an order of `user_id` in `market`.
pub fn publish_ws_trades(market: &str, user_id: &str, fills: &Vec<Fill>, timestamp: i64) -> (r: Vec<
    TradeEvent,
>)
    ensures
        events_view(r@) == trade_events(user_id@, market@, fills_view(fills@), timestamp),
{
    let ghost fv = fills_view(fills@);
    let mut out: Vec<TradeEvent> = Vec::new();
    let n = fills.len();
    let mut j: usize = 0;
    proof {
        assert(fv.take(0) =~= Seq::<FillView>::empty());
        assert(events_view(out@) =~= Seq::<TradeEventView>::empty());
    }
    while j < n
        invariant
            n == fills@.len(),
            fv == fills_view(fills@),
            j <= n,
            events_view(out@) == trade_events(user_id@, market@, fv.take(j as int), timestamp),
        decreases n - j,
    {
        let f = &fills[j];
        let ghost before = events_view(out@);
        proof {
            let t = fv.take(j + 1);
            assert(t.drop_last() =~= fv.take(j as int));
            assert(t.last() == f@);
        }
        let e = TradeEvent {
            stream: stream_of("trade", market),
            trade_id: f.trade_id,
            self_trade: str_eq(f.other_user_id.as_str(), user_id),
            price: f.price,
            quantity: f.quantity,
            market: String::from_str(market),
            timestamp,
        };
        out.push(e);
        proof {
            assert(events_view(out@) =~= before.push(e@));
        }
        j = j + 1;
    }
    proof {
        assert(fv.take(n as int) =~= fv);
    }
    out
}

/// Whether some fill is at `price`.
fn some_fill_at(fills: &Vec<Fill>, price: &Dec) -> (r: bool)
    ensures
        r == exists|k: int| 0 <= k < fills_view(fills@).len() && #[trigger] fills_view(fills@)[k].price == price.val(),
{
    let n = fills.len();
    let mut k: usize = 0;
    while k < n
        invariant
            n == fills@.len(),
            k <= n,
            forall|j: int| 0 <= j < k ==> #[trigger] fills_view(fills@)[j].price != price.val(),
        decreases n - k,
    {
        proof {
            assert(fills_view(fills@)[k as int] == fills@[k as int]@);
        }
        if fills[k].price.same_value(price) {
            proof {
                assert(fills_view(fills@)[k as int].price == price.val());
            }
            return true;
        }
        k = k + 1;
    }
    false
}

/// The entries of `depth` whose price is that of some fill.
fn keep_fill_prices(depth: Vec<(Dec, Dec)>, fills: &Vec<Fill>) -> (r: Vec<(Dec, Dec)>)
    ensures
        depth_view(r@) == at_fill_prices(depth_view(depth@), fills_view(fills@)),
{
    let ghost dv = depth_view(depth@);
    let mut out: Vec<(Dec, Dec)> = Vec::new();
    let n = depth.len();
    let mut j: usize = 0;
    proof {
        assert(dv.take(0) =~= Seq::<(int, int)>::empty());
        assert(depth_view(out@) =~= Seq::<(int, int)>::empty());
    }
    while j < n
        invariant
            n == depth@.len(),
            dv == depth_view(depth@),
            j <= n,
            depth_view(out@) == at_fill_prices(dv.take(j as int), fills_view(fills@)),
        decreases n - j,
    {
        let e = depth[j];
        let ghost before = depth_view(out@);
        proof {
            let t = dv.take(j + 1);
            assert(t.drop_last() =~= dv.take(j as int));
            assert(t.last() == (e.0.val(), e.1.val()));
        }
        if some_fill_at(fills, &e.0) {
            out.push(e);
            proof {
                assert(depth_view(out@) =~= before.push((e.0.val(), e.1.val())));
            }
        }
        j = j + 1;
    }
    proof {
        assert(dv.take(n as int) =~= dv);
    }
    out
}

/// The entries of `depth` at `price`.
fn keep_price(depth: Vec<(Dec, Dec)>, price: &Dec) -> (r: Vec<(Dec, Dec)>)
    ensures
        depth_view(r@) == at_price(depth_view(depth@), price.val()),
{
    let ghost dv = depth_view(depth@);
    let mut out: Vec<(Dec, Dec)> = Vec::new();
    let n = depth.len();
    let mut j: usize = 0;
    proof {
        assert(dv.take(0) =~= Seq::<(int, int)>::empty());
        assert(depth_view(out@) =~= Seq::<(int, int)>::empty());
    }
    while j < n
        invariant
            n == depth@.len(),
            dv == depth_view(depth@),
            j <= n,
            depth_view(out@) == at_price(dv.take(j as int), price.val()),
        decreases n - j,
    {
        let e = depth[j];
        let ghost before = depth_view(out@);
        proof {
            let t = dv.take(j + 1);
            assert(t.drop_last() =~= dv.take(j as int));
            assert(t.last() == (e.0.val(), e.1.val()));
        }
        if e.0.same_value(price) {
            out.push(e);
            proof {
                assert(depth_view(out@) =~= before.push((e.0.val(), e.1.val())));
            }
        }
        j = j + 1;
    }
    proof {
        assert(dv.take(n as int) =~= dv);
    }
    out
}

impl Engine {
    /// The depth of the levels an order of `side` at `price` touched in
    /// `market`: on its own side the level of its price, on the other side
    /// the levels of the prices it traded at.  Nothing when the market has
    /// no book.
    pub fn publish_ws_depth_updates(
        &self,
        market: &str,
        price: &Dec,
        side: OrderSide,
        fills: &Vec<Fill>,
    ) -> (r: Option<DepthUpdate>)
        requires
            self.wf(),
            forall|b: int| 0 <= b < self.orderbooks@.len() ==> #[trigger] self.orderbooks@[b].depth_fits(),
        ensures
            depth_answer(self.books(), market@, price.val(), side, fills_view(fills@), r),
    {
        let b = match self.find_orderbook(market) {
            Ok(b) => b,
            Err(_) => return None,
        };
        proof {
            assert(self.books()[b as int] == self.orderbooks@[b as int]@);
            assert(self.orderbooks@[b as int].wf());
            assert(self.orderbooks@[b as int].depth_fits());
        }
        let (depth_bids, depth_asks) = self.orderbooks[b].get_depth();
        let (bids, asks) = match side {
            OrderSide::Buy => (keep_price(depth_bids, price), keep_fill_prices(depth_asks, fills)),
            OrderSide::Sell => (keep_fill_prices(depth_bids, fills), keep_price(depth_asks, price)),
        };
        Some(
            DepthUpdate {
                stream: stream_of("depth", market),
                market: String::from_str(market),
                bids,
                asks,
            },
        )
    }
}


proof fn lemma_push_contains(s: Seq<(int, int)>, x: (int, int), e: (int, int))
    ensures
        s.push(x).contains(e) <==> s.contains(e) || e == x,
{
    if s.contains(e) {
        let k = choose|k: int| 0 <= k < s.len() && s[k] == e;
        assert(s.push(x)[k] == e);
    }
    if e == x {
        assert(s.push(x)[s.len() as int] == e);
    }
    if s.push(x).contains(e) {
        let k = choose|k: int| 0 <= k < s.push(x).len() && s.push(x)[k] == e;
        if k < s.len() {
            assert(s[k] == e);
        }
    }
}

proof fn lemma_at_price_contains(depth: Seq<(int, int)>, price: int, e: (int, int))
    ensures
        at_price(depth, price).contains(e) <==> depth.contains(e) && e.0 == price,
    decreases depth.len(),
{
    if depth.len() > 0 {
        let d = depth.drop_last();
        let x = depth.last();
        lemma_at_price_contains(d, price, e);
        assert(depth =~= d.push(x));
        lemma_push_contains(d, x, e);
        lemma_push_contains(at_price(d, price), x, e);
    }
}

proof fn lemma_at_fill_prices_contains(depth: Seq<(int, int)>, fills: Seq<FillView>, e: (int, int))
    ensures
        at_fill_prices(depth, fills).contains(e) <==> depth.contains(e) && exists|k: int|
            0 <= k < fills.len() && #[trigger] fills[k].price == e.0,
    decreases depth.len(),
{
    if depth.len() > 0 {
        let d = depth.drop_last();
        let x = depth.last();
        lemma_at_fill_prices_contains(d, fills, e);
        assert(depth =~= d.push(x));
        lemma_push_contains(d, x, e);
        lemma_push_contains(at_fill_prices(d, fills), x, e);
    }
}

/// Law: the depth update an order publishes shows, on the order's own side
/// (bids for a buy, asks for a sell), exactly the levels of the book at the
/// order's price, and on the other side exactly the levels at prices it
/// traded at.
pub proof fn law_depth_update_sides(
    books: Seq<BookView>,
    market: Seq<char>,
    price: int,
    side: OrderSide,
    fills: Seq<FillView>,
    r: Option<DepthUpdate>,
)
    requires
        depth_answer(books, market, price, side, fills, r),
        find_book(books, market) is Some,
    ensures
        ({
            let book = books[find_book(books, market)->0];
            let u = r->0;
            let (own, other) = match side {
                OrderSide::Buy => (depth_view(u.bids@), depth_view(u.asks@)),
                OrderSide::Sell => (depth_view(u.asks@), depth_view(u.bids@)),
            };
            &&& r is Some
            &&& forall|e: (int, int)|
                #[trigger] own.contains(e) <==> depth_of(side_of(book, side)).contains(e) && e.0
                    == price
            &&& forall|e: (int, int)|
                #[trigger] other.contains(e) <==> depth_of(side_of(book, opposite(side))).contains(e)
                    && exists|k: int| 0 <= k < fills.len() && #[trigger] fills[k].price == e.0
        }),
{
    let book = books[find_book(books, market)->0];
    let u = r->0;
    let (own, other) = match side {
        OrderSide::Buy => (depth_view(u.bids@), depth_view(u.asks@)),
        OrderSide::Sell => (depth_view(u.asks@), depth_view(u.bids@)),
    };
    assert forall|e: (int, int)|
        #[trigger] own.contains(e) <==> depth_of(side_of(book, side)).contains(e) && e.0 == price by {
        lemma_at_price_contains(depth_of(book.bids), price, e);
        lemma_at_price_contains(depth_of(book.asks), price, e);
    }
    assert forall|e: (int, int)|
        #[trigger] other.contains(e) <==> depth_of(side_of(book, opposite(side))).contains(e)
            && exists|k: int| 0 <= k < fills.len() && #[trigger] fills[k].price == e.0 by {
        lemma_at_fill_prices_contains(depth_of(book.bids), fills, e);
        lemma_at_fill_prices_contains(depth_of(book.asks), fills, e);
    }
}

} // verus!
