//! The records the engine hands to the database writer: open orders,
//! trades and balances, and the rows the read side serves (candles and
//! tickers).

use vstd::prelude::*;
use vstd::string::*;

use crate::dec::Dec;
use crate::engine::{
    book_ticker, first_order_of, has_order_of, now_millis, user_at, has_user, Engine, UserView,
};
use crate::orderbook::{book_orders, BookView};
use crate::types::{asset_symbol, fills_view, Fill, FillView, Order, OrderSide, OrderStatus, OrderView};

verus! {

/// An open order as the database keeps it.
#[derive(Clone, Debug)]
pub struct DbOpenOrder {
    pub order_id: String,
    pub user_id: String,
    pub market: String,
    pub side: String,
    pub price: Dec,
    pub quantity: Dec,
    pub filled_quantity: Dec,
    pub order_status: String,
    pub timestamp: i64,
}

/// A balance as the database keeps it.
#[derive(Clone, Debug)]
pub struct DbUserBalance {
    pub user_id: String,
    pub asset: String,
    pub available: Dec,
    pub locked: Dec,
}

/// A trade as the database keeps it.
#[derive(Clone, Debug)]
pub struct DbTrade {
    pub trade_id: i64,
    pub market: String,
    pub price: Dec,
    pub quantity: Dec,
    pub user_id: String,
    pub other_user_id: String,
    pub order_id: String,
    pub timestamp: i64,
}

/// A write for the database writer.
#[derive(Clone, Debug)]
pub enum DatabaseRequests {
    InsertTrade(DbTrade),
    UpsertOrder(DbOpenOrder),
    DeleteOrder { order_id: String },
    UpsertBalance(DbUserBalance),
}

/// One candle of a market, as the read side serves it.
#[derive(Clone, Debug)]
pub struct KlineData {
    pub open: String,
    pub close: String,
    pub high: String,
    pub low: String,
    pub quote_volume: String,
    pub start: String,
    pub end: String,
    pub trades: String,
    pub volume: String,
}

/// The day's summary of a market, as the read side serves it.
#[derive(Clone, Debug)]
pub struct TickerData {
    pub symbol: String,
    pub first_price: String,
    pub high: String,
    pub low: String,
    pub last_price: String,
    pub price_change: String,
    pub price_change_percent: String,
    pub quote_volume: String,
    pub trades: String,
    pub volume: String,
}

pub struct OrderRecordView {
    pub order_id: Seq<char>,
    pub user_id: Seq<char>,
    pub market: Seq<char>,
    pub side: Seq<char>,
    pub price: int,
    pub quantity: int,
    pub filled: int,
    pub status: Seq<char>,
    pub timestamp: i64,
}

pub struct TradeRecordView {
    pub trade_id: i64,
    pub market: Seq<char>,
    pub price: int,
    pub quantity: int,
    pub user_id: Seq<char>,
    pub other_user_id: Seq<char>,
    pub order_id: Seq<char>,
}

pub struct BalanceRecordView {
    pub user_id: Seq<char>,
    pub asset: Seq<char>,
    pub available: int,
    pub locked: int,
}

/// A write, with the time a trade was recorded left out.
pub enum DbRequestView {
    InsertTrade(TradeRecordView),
    UpsertOrder(OrderRecordView),
    DeleteOrder(Seq<char>),
    UpsertBalance(BalanceRecordView),
}

impl View for DbOpenOrder {
    type V = OrderRecordView;

    open spec fn view(&self) -> OrderRecordView {
        OrderRecordView {
            order_id: self.order_id@,
            user_id: self.user_id@,
            market: self.market@,
            side: self.side@,
            price: self.price.val(),
            quantity: self.quantity.val(),
            filled: self.filled_quantity.val(),
            status: self.order_status@,
            timestamp: self.timestamp,
        }
    }
}

impl View for DatabaseRequests {
    type V = DbRequestView;

    open spec fn view(&self) -> DbRequestView {
        match self {
            DatabaseRequests::InsertTrade(t) => DbRequestView::InsertTrade(
                TradeRecordView {
                    trade_id: t.trade_id,
                    market: t.market@,
                    price: t.price.val(),
                    quantity: t.quantity.val(),
                    user_id: t.user_id@,
                    other_user_id: t.other_user_id@,
                    order_id: t.order_id@,
                },
            ),
            DatabaseRequests::UpsertOrder(o) => DbRequestView::UpsertOrder(o@),
            DatabaseRequests::DeleteOrder { order_id } => DbRequestView::DeleteOrder(order_id@),
            DatabaseRequests::UpsertBalance(b) => DbRequestView::UpsertBalance(
                BalanceRecordView {
                    user_id: b.user_id@,
                    asset: b.asset@,
                    available: b.available.val(),
                    locked: b.locked.val(),
                },
            ),
        }
    }
}

pub open spec fn requests_view(v: Seq<DatabaseRequests>) -> Seq<DbRequestView> {
    v.map_values(|r: DatabaseRequests| r@)
}

pub open spec fn side_name(side: OrderSide) -> Seq<char> {
    match side {
        OrderSide::Buy => "Buy"@,
        OrderSide::Sell => "Sell"@,
    }
}

pub open spec fn status_name(status: OrderStatus) -> Seq<char> {
    match status {
        OrderStatus::Pending => "Pending"@,
        OrderStatus::Filled => "Filled"@,
        OrderStatus::PartiallyFilled => "PartiallyFilled"@,
        OrderStatus::Cancelled => "Cancelled"@,
    }
}

fn side_text(side: OrderSide) -> (r: String)
    ensures
        r@ == side_name(side),
{
    match side {
        OrderSide::Buy => String::from_str("Buy"),
        OrderSide::Sell => String::from_str("Sell"),
    }
}

fn status_text(status: OrderStatus) -> (r: String)
    ensures
        r@ == status_name(status),
{
    match status {
        OrderStatus::Pending => String::from_str("Pending"),
        OrderStatus::Filled => String::from_str("Filled"),
        OrderStatus::PartiallyFilled => String::from_str("PartiallyFilled"),
        OrderStatus::Cancelled => String::from_str("Cancelled"),
    }
}

/// The record of an order as it stands, in `market`.
pub open spec fn order_record(o: OrderView, market: Seq<char>) -> OrderRecordView {
    OrderRecordView {
        order_id: o.order_id,
        user_id: o.user_id,
        market,
        side: side_name(o.side),
        price: o.price,
        quantity: o.quantity,
        filled: o.filled,
        status: status_name(o.status),
        timestamp: o.timestamp,
    }
}

/// Writes an order as it stands.
pub fn persist_order_to_db(order: &Order, market: &str) -> (r: DatabaseRequests)
    ensures
        r@ == DbRequestView::UpsertOrder(order_record(order@, market@)),
{
    DatabaseRequests::UpsertOrder(
        DbOpenOrder {
            order_id: order.order_id.clone(),
            user_id: order.user_id.clone(),
            market: String::from_str(market),
            side: side_text(order.side),
            price: order.price,
            quantity: order.quantity,
            filled_quantity: order.filled_quantity,
            order_status: status_text(order.order_status),
            timestamp: order.timestamp,
        },
    )
}

/// Removes an order.
pub fn delete_order_from_db(order_id: &str) -> (r: DatabaseRequests)
    ensures
        r@ == DbRequestView::DeleteOrder(order_id@),
{
    DatabaseRequests::DeleteOrder { order_id: String::from_str(order_id) }
}

/// Writes a balance.
pub fn persist_balance_to_db(user_id: &str, asset: &str, available: Dec, locked: Dec) -> (r:
    DatabaseRequests)
    ensures
        r@ == DbRequestView::UpsertBalance(
            BalanceRecordView {
                user_id: user_id@,
                asset: asset@,
                available: available.val(),
                locked: locked.val(),
            },
        ),
{
    DatabaseRequests::UpsertBalance(
        DbUserBalance {
            user_id: String::from_str(user_id),
            asset: String::from_str(asset),
            available,
            locked,
        },
    )
}

/// Book `b` is the first holding an order `order_id` of `user`.
pub open spec fn first_holder(books: Seq<BookView>, user: Seq<char>, order_id: Seq<char>, b: int) -> bool {
    &&& 0 <= b < books.len()
    &&& has_order_of(book_orders(books[b]), user, order_id)
    &&& forall|c: int| 0 <= c < b ==> !#[trigger] has_order_of(book_orders(books[c]), user, order_id)
}

/// Where an order rests: the ticker of the first book holding it, and the
/// first such order there.
pub open spec fn located(books: Seq<BookView>, user: Seq<char>, order_id: Seq<char>) -> Option<
    (Seq<char>, OrderView),
> {
    if exists|b: int| #[trigger] first_holder(books, user, order_id, b) {
        let b = choose|b: int| #[trigger] first_holder(books, user, order_id, b);
        let all = book_orders(books[b]);
        let k = choose|k: int| #[trigger] first_order_of(all, user, order_id, k);
        Some((book_ticker(books[b]), all[k]))
    } else {
        None
    }
}

proof fn lemma_first_holder_unique(books: Seq<BookView>, user: Seq<char>, order_id: Seq<char>, b: int)
    requires
        first_holder(books, user, order_id, b),
    ensures
        (choose|c: int| #[trigger] first_holder(books, user, order_id, c)) == b,
{
    let c = choose|c: int| #[trigger] first_holder(books, user, order_id, c);
    assert(first_holder(books, user, order_id, c));
    if c < b {
        assert(!has_order_of(book_orders(books[c]), user, order_id));
    }
    if b < c {
        assert(!has_order_of(book_orders(books[b]), user, order_id));
    }
}

proof fn lemma_first_order_unique(all: Seq<OrderView>, user: Seq<char>, order_id: Seq<char>, k: int)
    requires
        first_order_of(all, user, order_id, k),
    ensures
        (choose|j: int| #[trigger] first_order_of(all, user, order_id, j)) == k,
{
    let j = choose|j: int| #[trigger] first_order_of(all, user, order_id, j);
    assert(first_order_of(all, user, order_id, j));
    if j < k {
        assert(!crate::orderbook::is_order_of(all[j], user, order_id));
    }
    if k < j {
        assert(!crate::orderbook::is_order_of(all[k], user, order_id));
    }
}

impl Engine {
    /// The ticker of the first book holding an order `order_id` of
    /// `user_id`, with a copy of that order.
    pub fn locate_order(&self, user_id: &str, order_id: &str) -> (r: Option<(String, Order)>)
        ensures
            match located(self.books(), user_id@, order_id@) {
                None => r is None,
                Some(x) => r matches Some(y) && y.0@ == x.0 && y.1@ == x.1,
            },
    {
        let ghost books = self.books();
        let n = self.orderbooks.len();
        let mut b: usize = 0;
        while b < n
            invariant
                n == self.orderbooks@.len(),
                books == self.books(),
                b <= n,
                forall|c: int| 0 <= c < b ==> !#[trigger] has_order_of(book_orders(books[c]), user_id@, order_id@),
            decreases n - b,
        {
            proof {
                assert(books[b as int] == self.orderbooks@[b as int]@);
            }
            match self.orderbooks[b].get_open_order(user_id, order_id) {
                Some(o) => {
                    let ghost all = book_orders(books[b as int]);
                    proof {
                        let k = choose|k: int|
                            0 <= k < all.len() && all[k] == o@ && crate::orderbook::is_order_of(
                                o@,
                                user_id@,
                                order_id@,
                            ) && forall|j: int|
                                0 <= j < k ==> !#[trigger] crate::orderbook::is_order_of(
                                    all[j],
                                    user_id@,
                                    order_id@,
                                );
                        assert(first_order_of(all, user_id@, order_id@, k));
                        assert(has_order_of(all, user_id@, order_id@));
                        assert(first_holder(books, user_id@, order_id@, b as int));
                        lemma_first_holder_unique(books, user_id@, order_id@, b as int);
                        lemma_first_order_unique(all, user_id@, order_id@, k);
                    }
                    return Some((self.orderbooks[b].ticker(), o.duplicate()));
                },
                None => {},
            }
            b = b + 1;
        }
        proof {
            assert(!exists|c: int| #[trigger] first_holder(books, user_id@, order_id@, c));
        }
        None
    }
}

/// The record of the incoming order after matching: still open with what
/// executed so far, in the market of the book it rests on (else the market
/// it was sent to); or removed when it filled completely.
pub open spec fn taker_record(
    books: Seq<BookView>,
    o: OrderView,
    taker_market: Seq<char>,
    executed: int,
) -> DbRequestView {
    let market = match located(books, o.user_id, o.order_id) {
        Some(x) => x.0,
        None => taker_market,
    };
    if executed < o.quantity {
        DbRequestView::UpsertOrder(
            OrderRecordView {
                order_id: o.order_id,
                user_id: o.user_id,
                market,
                side: side_name(o.side),
                price: o.price,
                quantity: o.quantity,
                filled: executed,
                status: if executed > 0 {
                    "PartiallyFilled"@
                } else {
                    "Pending"@
                },
                timestamp: o.timestamp,
            },
        )
    } else {
        DbRequestView::DeleteOrder(o.order_id)
    }
}

/// The record of the maker of a fill: still open and partially filled
/// when it rests on a book with something left, else removed.
pub open spec fn maker_record(books: Seq<BookView>, f: FillView) -> DbRequestView {
    match located(books, f.other_user_id, f.order_id) {
        Some(x) => if x.1.filled >= x.1.quantity {
            DbRequestView::DeleteOrder(f.order_id)
        } else {
            DbRequestView::UpsertOrder(
                OrderRecordView {
                    order_id: x.1.order_id,
                    user_id: x.1.user_id,
                    market: x.0,
                    side: side_name(x.1.side),
                    price: x.1.price,
                    quantity: x.1.quantity,
                    filled: x.1.filled,
                    status: "PartiallyFilled"@,
                    timestamp: x.1.timestamp,
                },
            )
        },
        None => DbRequestView::DeleteOrder(f.order_id),
    }
}

pub open spec fn maker_records(books: Seq<BookView>, fills: Seq<FillView>) -> Seq<DbRequestView>
    decreases fills.len(),
{
    if fills.len() == 0 {
        Seq::empty()
    } else {
        maker_records(books, fills.drop_last()).push(maker_record(books, fills.last()))
    }
}

/// The trade records of the fills of an order of `user` in `market`, the
/// time each was recorded left out.
pub open spec fn trade_records(user: Seq<char>, market: Seq<char>, fills: Seq<FillView>) -> Seq<
    DbRequestView,
>
    decreases fills.len(),
{
    if fills.len() == 0 {
        Seq::empty()
    } else {
        let f = fills.last();
        trade_records(user, market, fills.drop_last()).push(
            DbRequestView::InsertTrade(
                TradeRecordView {
                    trade_id: f.trade_id as i64,
                    market,
                    price: f.price,
                    quantity: f.quantity,
                    user_id: user,
                    other_user_id: f.other_user_id,
                    order_id: f.order_id,
                },
            ),
        )
    }
}

/// The balance records of all assets of a user, in the order it holds
/// them; none for an unknown user.
pub open spec fn balance_records(users: Seq<UserView>, user: Seq<char>) -> Seq<DbRequestView> {
    if has_user(users, user) {
        let assets = users[user_at(users, user)].assets;
        Seq::new(
            assets.len(),
            |k: int|
                DbRequestView::UpsertBalance(
                    BalanceRecordView {
                        user_id: user,
                        asset: asset_symbol(assets[k].asset),
                        available: assets[k].available,
                        locked: assets[k].locked,
                    },
                ),
        )
    } else {
        Seq::empty()
    }
}

impl Engine {
    /// The writes recording an order after it met the book, and the makers
    /// it traded with.
    pub fn update_db_orders(
        &self,
        order: &Order,
        taker_market: &str,
        executed_quantity: Dec,
        fills: &Vec<Fill>,
    ) -> (r: Vec<DatabaseRequests>)
        ensures
            requests_view(r@) == seq![
                taker_record(self.books(), order@, taker_market@, executed_quantity.val()),
            ] + maker_records(self.books(), fills_view(fills@)),
    {
        let ghost books = self.books();
        let mut out: Vec<DatabaseRequests> = Vec::new();
        let market = match self.locate_order(order.user_id.as_str(), order.order_id.as_str()) {
            Some((t, _)) => t,
            None => String::from_str(taker_market),
        };
        if executed_quantity.lt(&order.quantity) {
            let status = if executed_quantity.is_positive() {
                String::from_str("PartiallyFilled")
            } else {
                String::from_str("Pending")
            };
            out.push(
                DatabaseRequests::UpsertOrder(
                    DbOpenOrder {
                        order_id: order.order_id.clone(),
                        user_id: order.user_id.clone(),
                        market,
                        side: side_text(order.side),
                        price: order.price,
                        quantity: order.quantity,
                        filled_quantity: executed_quantity,
                        order_status: status,
                        timestamp: order.timestamp,
                    },
                ),
            );
        } else {
            out.push(DatabaseRequests::DeleteOrder { order_id: order.order_id.clone() });
        }
        let ghost fv = fills_view(fills@);
        let n = fills.len();
        let mut j: usize = 0;
        proof {
            assert(fv.take(0) =~= Seq::<FillView>::empty());
            assert(requests_view(out@) =~= seq![
                taker_record(books, order@, taker_market@, executed_quantity.val()),
            ] + maker_records(books, fv.take(0)));
        }
        while j < n
            invariant
                n == fills@.len(),
                fv == fills_view(fills@),
                books == self.books(),
                j <= n,
                requests_view(out@) == seq![
                    taker_record(books, order@, taker_market@, executed_quantity.val()),
                ] + maker_records(books, fv.take(j as int)),
            decreases n - j,
        {
            let f = &fills[j];
            let ghost before = requests_view(out@);
            proof {
                let t = fv.take(j + 1);
                assert(t.drop_last() =~= fv.take(j as int));
                assert(t.last() == f@);
            }
            let rec = match self.locate_order(f.other_user_id.as_str(), f.order_id.as_str()) {
                Some((mkt, maker)) => {
                    if maker.quantity.le(&maker.filled_quantity) {
                        DatabaseRequests::DeleteOrder { order_id: f.order_id.clone() }
                    } else {
                        DatabaseRequests::UpsertOrder(
                            DbOpenOrder {
                                order_id: maker.order_id.clone(),
                                user_id: maker.user_id.clone(),
                                market: mkt,
                                side: side_text(maker.side),
                                price: maker.price,
                                quantity: maker.quantity,
                                filled_quantity: maker.filled_quantity,
                                order_status: String::from_str("PartiallyFilled"),
                                timestamp: maker.timestamp,
                            },
                        )
                    }
                },
                None => DatabaseRequests::DeleteOrder { order_id: f.order_id.clone() },
            };
            out.push(rec);
            proof {
                assert(rec@ == maker_record(books, f@));
                assert(requests_view(out@) =~= before.push(rec@));
                assert(maker_records(books, fv.take(j + 1)) == maker_records(books, fv.take(j as int)).push(
                    maker_record(books, f@),
                ));
                assert(requests_view(out@) =~= seq![
                    taker_record(books, order@, taker_market@, executed_quantity.val()),
                ] + maker_records(books, fv.take(j + 1)));
            }
            j = j + 1;
        }
        proof {
            assert(fv.take(n as int) =~= fv);
        }
        out
    }

    /// The balance records of all assets of a user, for the database.
    pub fn sync_user_balances_to_db(&self, user_id: &str) -> (r: Vec<DatabaseRequests>)
        requires
            crate::engine::users_wf(self.users()),
        ensures
            requests_view(r@) == balance_records(self.users(), user_id@),
    {
        let mut out: Vec<DatabaseRequests> = Vec::new();
        let i = match self.find_user(user_id) {
            Some(i) => i,
            None => {
                proof {
                    assert(requests_view(out@) =~= balance_records(self.users(), user_id@));
                }
                return out;
            },
        };
        let ghost assets = self.users()[i as int].assets;
        let bal = &self.balances[i].balance;
        proof {
            assert(self.users()[i as int] == self.balances@[i as int]@);
        }
        let n = bal.len();
        let mut k: usize = 0;
        while k < n
            invariant
                n == bal@.len(),
                assets == crate::engine::assets_view(bal@),
                k <= n,
                assets == self.users()[i as int].assets,
                has_user(self.users(), user_id@),
                i == user_at(self.users(), user_id@),
                requests_view(out@) =~= balance_records(self.users(), user_id@).take(k as int),
            decreases n - k,
        {
            let e = &bal[k];
            let name = e.asset.to_string();
            let rec = persist_balance_to_db(user_id, name.as_str(), e.amount.available, e.amount.locked);
            let ghost before = requests_view(out@);
            out.push(rec);
            proof {
                assert(assets[k as int] == e@);
                assert(requests_view(out@) =~= before.push(rec@));
            }
            k = k + 1;
        }
        out
    }
}

/// The trade records of the fills of an order of `user_id` in `market`,
/// each stamped with the time it is recorded.
pub fn create_db_trades(user_id: &str, market: &str, fills: &Vec<Fill>) -> (r: Vec<DatabaseRequests>)
    ensures
        requests_view(r@) == trade_records(user_id@, market@, fills_view(fills@)),
{
    let ghost fv = fills_view(fills@);
    let mut out: Vec<DatabaseRequests> = Vec::new();
    let n = fills.len();
    let mut j: usize = 0;
    proof {
        assert(fv.take(0) =~= Seq::<FillView>::empty());
        assert(requests_view(out@) =~= Seq::<DbRequestView>::empty());
    }
    while j < n
        invariant
            n == fills@.len(),
            fv == fills_view(fills@),
            j <= n,
            requests_view(out@) == trade_records(user_id@, market@, fv.take(j as int)),
        decreases n - j,
    {
        let f = &fills[j];
        let ghost before = requests_view(out@);
        proof {
            let t = fv.take(j + 1);
            assert(t.drop_last() =~= fv.take(j as int));
            assert(t.last() == f@);
        }
        let rec = DatabaseRequests::InsertTrade(
            DbTrade {
                trade_id: f.trade_id,
                market: String::from_str(market),
                price: f.price,
                quantity: f.quantity,
                user_id: String::from_str(user_id),
                other_user_id: f.other_user_id.clone(),
                order_id: f.order_id.clone(),
                timestamp: now_millis(),
            },
        );
        out.push(rec);
        proof {
            assert(requests_view(out@) =~= before.push(rec@));
        }
        j = j + 1;
    }
    proof {
        assert(fv.take(n as int) =~= fv);
    }
    out
}

/// What chrono makes of a date written `%Y-%m-%d %H:%M:%S%.f %:z`: the
/// same instant in UTC, in chrono's own writing of it; nothing when the
/// text is not such a date.
pub uninterp spec fn utc_text(text: Seq<char>) -> Option<Seq<char>>;

/// Calls `chrono::DateTime::parse_from_str` with the format
/// `%Y-%m-%d %H:%M:%S%.f %:z`, and writes the result in UTC with
/// `with_timezone(&Utc).to_string()`.  Claimed of it: the result depends on
/// the text alone; it is named `utc_text`.
#[verifier::external_body]
fn chrono_utc_text(text: &str) -> (r: Option<String>)
    ensures
        match r {
            Some(t) => utc_text(text@) == Some(t@),
            None => utc_text(text@) is None,
        },
{
    match chrono::DateTime::parse_from_str(text, "%Y-%m-%d %H:%M:%S%.f %:z") {
        Ok(d) => Some(d.with_timezone(&chrono::Utc).to_string()),
        Err(_) => None,
    }
}

/// The UTC writing of a candle's start or end as the database reports it,
/// whose zero offset may carry seconds (`+00:00:00`).
pub fn parse_custom_date(date_str: &str) -> (r: Option<String>)
    ensures
        match r {
            Some(t) => utc_text(crate::text::shorten_zero_offsets(date_str@)) == Some(t@),
            None => utc_text(crate::text::shorten_zero_offsets(date_str@)) is None,
        },
{
    let simplified = crate::text::shorten_zero_offsets_of(date_str);
    chrono_utc_text(simplified.as_str())
}

} // verus!
