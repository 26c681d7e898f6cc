//! Bringing the engine back to the state the database saved: the open
//! orders onto their books, the balances onto their users.

use vstd::prelude::*;
use vstd::string::*;

use crate::dec::{fits_at, Dec};
use crate::engine::{
    amount_fits, asset_at, assets_unique, assets_view, balances_fit, entries_fit, find_book,
    has_asset, has_user, lemma_asset_at, lemma_user_at, user_at, user_fits, users_view, users_wf,
    with_user, Amount, AssetBalance, AssetView, Engine, UserBalances, UserView,
};
use crate::orderbook::{
    flatten, lemma_insert_order_holds, levels_fit, opposite, order_fits, rest_on, resting_ok, side_of,
    BookView, OrderBook,
};
use crate::records::{side_name, status_name};
use crate::text::str_eq;
use crate::types::{asset_named, Asset, AssetPair, Order, OrderSide, OrderStatus, OrderType, OrderView};

verus! {

/// An open order as the database saved it.
#[derive(Clone, Debug)]
pub struct OpenOrderRow {
    pub order_id: String,
    pub user_id: String,
    pub market: String,
    pub side: String,
    pub price: Dec,
    pub quantity: Dec,
    pub filled_quantity: Dec,
    pub order_status: String,
    pub timestamp: i64,
}

/// A balance as the database saved it.
#[derive(Clone, Debug)]
pub struct UserBalanceRow {
    pub user_id: String,
    pub asset: String,
    pub available: Dec,
    pub locked: Dec,
}

pub struct OrderRowView {
    pub order_id: Seq<char>,
    pub user_id: Seq<char>,
    pub market: Seq<char>,
    pub side: Seq<char>,
    pub price: int,
    pub quantity: int,
    pub filled: int,
    pub status: Seq<char>,
    pub timestamp: i64,
}

pub struct BalanceRowView {
    pub user_id: Seq<char>,
    pub asset: Seq<char>,
    pub available: int,
    pub locked: int,
}

impl View for OpenOrderRow {
    type V = OrderRowView;

    open spec fn view(&self) -> OrderRowView {
        OrderRowView {
            order_id: self.order_id@,
            user_id: self.user_id@,
            market: self.market@,
            side: self.side@,
            price: self.price.val(),
            quantity: self.quantity.val(),
            filled: self.filled_quantity.val(),
            status: self.order_status@,
            timestamp: self.timestamp,
        }
    }
}

impl View for UserBalanceRow {
    type V = BalanceRowView;

    open spec fn view(&self) -> BalanceRowView {
        BalanceRowView {
            user_id: self.user_id@,
            asset: self.asset@,
            available: self.available.val(),
            locked: self.locked.val(),
        }
    }
}

pub open spec fn order_rows_view(v: Seq<OpenOrderRow>) -> Seq<OrderRowView> {
    v.map_values(|r: OpenOrderRow| r@)
}

pub open spec fn balance_rows_view(v: Seq<UserBalanceRow>) -> Seq<BalanceRowView> {
    v.map_values(|r: UserBalanceRow| r@)
}

pub open spec fn side_named(s: Seq<char>) -> Option<OrderSide> {
    if s == "Buy"@ {
        Some(OrderSide::Buy)
    } else if s == "Sell"@ {
        Some(OrderSide::Sell)
    } else {
        None
    }
}

/// The statuses an order resting on a book can have.
pub open spec fn resting_status_named(s: Seq<char>) -> Option<OrderStatus> {
    if s == "Pending"@ {
        Some(OrderStatus::Pending)
    } else if s == "PartiallyFilled"@ {
        Some(OrderStatus::PartiallyFilled)
    } else {
        None
    }
}

/// The limit order a saved row describes; none when its side or status is
/// not one a resting order has.
pub open spec fn row_order(r: OrderRowView) -> Option<OrderView> {
    match (side_named(r.side), resting_status_named(r.status)) {
        (Some(side), Some(status)) => Some(
            OrderView {
                price: r.price,
                quantity: r.quantity,
                filled: r.filled,
                order_id: r.order_id,
                user_id: r.user_id,
                side,
                order_type: OrderType::Limit,
                status,
                timestamp: r.timestamp,
            },
        ),
        _ => None,
    }
}

/// The books after resting the saved orders, in the order they were read;
/// an order for a market without a book is dropped.
pub open spec fn restored_books(books: Seq<BookView>, rows: Seq<OrderRowView>) -> Seq<BookView>
    decreases rows.len(),
{
    if rows.len() == 0 {
        books
    } else {
        let prev = restored_books(books, rows.drop_last());
        let r = rows.last();
        match row_order(r) {
            None => prev,
            Some(o) => match find_book(prev, r.market) {
                None => prev,
                Some(b) => prev.update(b, rest_on(prev[b], o)),
            },
        }
    }
}

/// Saved open orders have something left to fill.
pub open spec fn rows_resting(rows: Seq<OrderRowView>) -> bool {
    forall|k: int| 0 <= k < rows.len() ==> 0 <= #[trigger] rows[k].filled < rows[k].quantity
}

/// The saved quantities fit at scale `s1` and the saved prices at `s - s1`.
pub open spec fn order_rows_fit(rows: Seq<OpenOrderRow>, s1: nat, s: nat) -> bool {
    forall|k: int|
        0 <= k < rows.len() ==> fits_at(#[trigger] rows[k].price, (s - s1) as nat) && fits_at(
            rows[k].quantity,
            s1,
        ) && fits_at(rows[k].filled_quantity, s1)
}

pub open spec fn balance_rows_fit(rows: Seq<UserBalanceRow>, s: nat) -> bool {
    forall|k: int| 0 <= k < rows.len() ==> fits_at(#[trigger] rows[k].available, s) && fits_at(rows[k].locked, s)
}

/// The users with `user`'s balance in `asset` set to the given amounts;
/// the user and the asset are added when missing.
pub open spec fn set_entry(users: Seq<UserView>, user: Seq<char>, a: AssetView) -> Seq<UserView> {
    if has_user(users, user) {
        let i = user_at(users, user);
        let assets = users[i].assets;
        let na = if has_asset(assets, a.asset) {
            assets.update(asset_at(assets, a.asset), a)
        } else {
            assets.push(a)
        };
        users.update(i, UserView { user_id: user, assets: na })
    } else {
        users.push(UserView { user_id: user, assets: seq![a] })
    }
}

/// The saved balances grouped by user, a later row for the same user and
/// asset replacing an earlier one; rows of unknown assets are dropped.
pub open spec fn group_rows(rows: Seq<BalanceRowView>) -> Seq<UserView>
    decreases rows.len(),
{
    if rows.len() == 0 {
        Seq::empty()
    } else {
        let prev = group_rows(rows.drop_last());
        let r = rows.last();
        match asset_named(r.asset) {
            None => prev,
            Some(a) => set_entry(
                prev,
                r.user_id,
                AssetView { asset: a, available: r.available, locked: r.locked },
            ),
        }
    }
}

/// The users after each saved user replaces its balances by the saved
/// ones, in the order of the groups.
pub open spec fn restored_users(users: Seq<UserView>, groups: Seq<UserView>) -> Seq<UserView>
    decreases groups.len(),
{
    if groups.len() == 0 {
        users
    } else {
        let g = groups.last();
        with_user(restored_users(users, groups.drop_last()), g.user_id, g.assets)
    }
}

impl Engine {
    /// Rests the saved open orders on the books of their markets.
    #[verifier::spinoff_prover]
    pub fn restore_orders(&mut self, saved_orders: &Vec<OpenOrderRow>)
        requires
            old(self).wf(),
            rows_resting(order_rows_view(saved_orders@)),
        ensures
            final(self).wf(),
            final(self).balances == old(self).balances,
            final(self).books() == restored_books(old(self).books(), order_rows_view(saved_orders@)),
            forall|s1: nat, s: nat|
                #[trigger] old(self).fits(s1, s) && #[trigger] order_rows_fit(saved_orders@, s1, s)
                    ==> final(self).fits(s1, s),
    {
        let ghost rv = order_rows_view(saved_orders@);
        let ghost books0 = self.books();
        let n = saved_orders.len();
        let mut j: usize = 0;
        proof {
            assert(rv.take(0) =~= Seq::<OrderRowView>::empty());
        }
        while j < n
            invariant
                n == saved_orders@.len(),
                rv == order_rows_view(saved_orders@),
                rows_resting(rv),
                j <= n,
                self.wf(),
                self.balances == old(self).balances,
                self.books() == restored_books(books0, rv.take(j as int)),
                books0 == old(self).books(),
                forall|s1: nat, s: nat|
                    #[trigger] old(self).fits(s1, s) && #[trigger] order_rows_fit(saved_orders@, s1, s) ==> self.fits(
                        s1,
                        s,
                    ),
            decreases n - j,
        {
            let row = &saved_orders[j];
            let ghost prev = self.books();
            proof {
                let t = rv.take(j + 1);
                assert(t.drop_last() =~= rv.take(j as int));
                assert(t.last() == row@);
                assert(rv[j as int] == row@);
            }
            let side = if str_eq(row.side.as_str(), "Buy") {
                Some(OrderSide::Buy)
            } else if str_eq(row.side.as_str(), "Sell") {
                Some(OrderSide::Sell)
            } else {
                None
            };
            let status = if str_eq(row.order_status.as_str(), "Pending") {
                Some(OrderStatus::Pending)
            } else if str_eq(row.order_status.as_str(), "PartiallyFilled") {
                Some(OrderStatus::PartiallyFilled)
            } else {
                None
            };
            match (side, status) {
                (Some(side), Some(status)) => {
                    let order = Order {
                        price: row.price,
                        quantity: row.quantity,
                        filled_quantity: row.filled_quantity,
                        order_id: row.order_id.clone(),
                        user_id: row.user_id.clone(),
                        side,
                        order_type: OrderType::Limit,
                        order_status: status,
                        timestamp: row.timestamp,
                    };
                    proof {
                        assert(row_order(row@) == Some(order@));
                        assert(0 <= rv[j as int].filled < rv[j as int].quantity);
                    }
                    match self.find_orderbook(row.market.as_str()) {
                        Ok(b) => {
                            let ghost e0 = *self;
                            let mut book = self.orderbooks.remove(b);
                            proof {
                                assert(book == e0.orderbooks@[b as int]);
                                assert(book.wf());
                            }
                            let ghost book0 = book;
                            book.rest_order(order);
                            self.orderbooks.insert(b, book);
                            proof {
                                assert(self.orderbooks@ =~= e0.orderbooks@.update(b as int, book));
                                assert(self.books() =~= prev.update(b as int, rest_on(prev[b as int], order@)));
                                assert forall|x: int| 0 <= x < self.orderbooks@.len() implies #[trigger] self.orderbooks@[x].wf() by {
                                    if x != b {
                                        assert(self.orderbooks@[x] == e0.orderbooks@[x]);
                                    }
                                }
                                assert forall|s1: nat, s: nat|
                                    #[trigger] old(self).fits(s1, s) && #[trigger] order_rows_fit(saved_orders@, s1, s) implies self.fits(s1, s) by {
                                    assert(e0.fits(s1, s));
                                    assert(fits_at(saved_orders@[j as int].price, (s - s1) as nat));
                                    assert(order_fits(order, s1));
                                    assert(book0.fits(s1));
                                    assert(book0.prices_fit((s - s1) as nat));
                                    assert forall|x: int| 0 <= x < self.orderbooks@.len() implies #[trigger] self.orderbooks@[x].fits(s1)
                                        && self.orderbooks@[x].prices_fit((s - s1) as nat) by {
                                        if x != b {
                                            assert(self.orderbooks@[x] == e0.orderbooks@[x]);
                                        }
                                    }
                                }
                            }
                        },
                        Err(_) => {},
                    }
                },
                _ => {
                    proof {
                        assert(row_order(row@) is None);
                    }
                },
            }
            j = j + 1;
        }
        proof {
            assert(rv.take(n as int) =~= rv);
        }
    }
}

impl Engine {
    /// Gives each user of the saved balances those balances, replacing what
    /// it held.
    #[verifier::spinoff_prover]
    pub fn restore_balances(&mut self, saved_balances: &Vec<UserBalanceRow>)
        requires
            old(self).wf(),
        ensures
            final(self).wf(),
            final(self).orderbooks == old(self).orderbooks,
            final(self).users() == restored_users(
                old(self).users(),
                group_rows(balance_rows_view(saved_balances@)),
            ),
            forall|s: nat|
                #[trigger] balances_fit(old(self).balances@, s) && balance_rows_fit(saved_balances@, s)
                    ==> balances_fit(final(self).balances@, s),
    {
        let ghost rv = balance_rows_view(saved_balances@);
        let mut groups = Engine::new();
        let n = saved_balances.len();
        let mut j: usize = 0;
        proof {
            assert(rv.take(0) =~= Seq::<BalanceRowView>::empty());
            assert(groups.users().len() == groups.balances@.len());
            assert forall|s: nat| #[trigger] balance_rows_fit(saved_balances@, s) implies balances_fit(
                groups.balances@,
                s,
            ) by {}
        }
        while j < n
            invariant
                n == saved_balances@.len(),
                rv == balance_rows_view(saved_balances@),
                j <= n,
                groups.wf(),
                groups.users() == group_rows(rv.take(j as int)),
                forall|s: nat|
                    #[trigger] balance_rows_fit(saved_balances@, s) ==> balances_fit(groups.balances@, s),
            decreases n - j,
        {
            let row = &saved_balances[j];
            proof {
                let t = rv.take(j + 1);
                assert(t.drop_last() =~= rv.take(j as int));
                assert(t.last() == row@);
            }
            match Asset::from_str(row.asset.as_str()) {
                Ok(a) => {
                    let entry = AssetBalance {
                        asset: a,
                        amount: Amount { available: row.available, locked: row.locked },
                    };
                    proof {
                        assert forall|s: nat| #[trigger] balance_rows_fit(saved_balances@, s) implies amount_fits(entry.amount, s) by {
                            assert(fits_at(saved_balances@[j as int].available, s));
                        }
                    }
                    groups.set_balance(row.user_id.as_str(), entry);
                },
                Err(_) => {},
            }
            j = j + 1;
        }
        proof {
            assert(rv.take(n as int) =~= rv);
        }
        let ghost users0 = self.users();
        let ghost gv = groups.users();
        let ghost orig = groups.balances@;
        let mut list = groups.balances;
        let m = list.len();
        let mut k: usize = 0;
        proof {
            assert(gv.take(0) =~= Seq::<UserView>::empty());
            assert(list@ =~= orig.skip(0));
        }
        while list.len() > 0
            invariant
                m == orig.len(),
                k + list@.len() == m,
                list@ == orig.skip(k as int),
                gv == users_view(orig),
                users_wf(gv),
                self.wf(),
                self.orderbooks == old(self).orderbooks,
                self.users() == restored_users(users0, gv.take(k as int)),
                users0 == old(self).users(),
                forall|s: nat|
                    #[trigger] balance_rows_fit(saved_balances@, s) ==> balances_fit(orig, s),
                forall|s: nat|
                    #[trigger] balances_fit(old(self).balances@, s) && balance_rows_fit(saved_balances@, s)
                        ==> balances_fit(self.balances@, s),
            decreases list@.len(),
        {
            let entry = list.remove(0);
            proof {
                assert(entry == orig[k as int]);
                assert(gv[k as int] == entry@);
                assert(assets_unique(gv[k as int].assets));
                assert(list@ =~= orig.skip(k + 1));
                let t = gv.take(k + 1);
                assert(t.drop_last() =~= gv.take(k as int));
                assert(t.last() == entry@);
            }
            let ghost before = *self;
            let UserBalances { user_id, balance } = entry;
            self.put_user(user_id.as_str(), balance);
            proof {
                assert forall|s: nat|
                    #[trigger] balances_fit(old(self).balances@, s) && balance_rows_fit(saved_balances@, s)
                        implies balances_fit(self.balances@, s) by {
                    assert(balances_fit(before.balances@, s));
                    assert(user_fits(orig[k as int], s));
                    assert(entries_fit(balance@, s));
                }
            }
            k = k + 1;
        }
        proof {
            assert(gv.take(m as int) =~= gv);
        }
    }

    /// Brings back the saved state: open orders onto the books of their
    /// markets, balances onto their users.
    pub fn restore_from_db(&mut self, saved_orders: &Vec<OpenOrderRow>, saved_balances: &Vec<UserBalanceRow>)
        requires
            old(self).wf(),
            rows_resting(order_rows_view(saved_orders@)),
        ensures
            final(self).wf(),
            final(self).books() == restored_books(old(self).books(), order_rows_view(saved_orders@)),
            final(self).users() == restored_users(
                old(self).users(),
                group_rows(balance_rows_view(saved_balances@)),
            ),
            forall|s1: nat, s: nat|
                #[trigger] old(self).fits(s1, s) && order_rows_fit(saved_orders@, s1, s) && balance_rows_fit(
                    saved_balances@,
                    s,
                ) ==> final(self).fits(s1, s),
    {
        self.restore_orders(saved_orders);
        let ghost mid = *self;
        self.restore_balances(saved_balances);
        proof {
            assert(self.books() == mid.books());
            assert forall|s1: nat, s: nat|
                #[trigger] old(self).fits(s1, s) && order_rows_fit(saved_orders@, s1, s) && balance_rows_fit(
                    saved_balances@,
                    s,
                ) implies self.fits(s1, s) by {
                assert(order_rows_fit(saved_orders@, s1, s));
                assert(mid.fits(s1, s));
                assert(balances_fit(mid.balances@, s));
            }
        }
    }
}

impl Engine {
    /// Opens the SOL/USDC market, its trade ids continuing after the latest
    /// saved trade, and brings back the saved orders and balances.
    pub fn init_engine(
        &mut self,
        latest_trade_id: i64,
        saved_orders: &Vec<OpenOrderRow>,
        saved_balances: &Vec<UserBalanceRow>,
    )
        requires
            old(self).wf(),
            latest_trade_id < i64::MAX,
            rows_resting(order_rows_view(saved_orders@)),
        ensures
            final(self).wf(),
            final(self).books() == restored_books(
                old(self).books().push(
                    BookView {
                        bids: Seq::empty(),
                        asks: Seq::empty(),
                        asset_pair: AssetPair { base: Asset::Sol, quote: Asset::Usdc },
                        trade_id: latest_trade_id + 1,
                    },
                ),
                order_rows_view(saved_orders@),
            ),
            final(self).users() == restored_users(
                old(self).users(),
                group_rows(balance_rows_view(saved_balances@)),
            ),
            forall|s1: nat, s: nat|
                #[trigger] old(self).fits(s1, s) && order_rows_fit(saved_orders@, s1, s) && balance_rows_fit(
                    saved_balances@,
                    s,
                ) ==> final(self).fits(s1, s),
    {
        let book = OrderBook::new(AssetPair { base: Asset::Sol, quote: Asset::Usdc }, latest_trade_id + 1);
        let ghost b0 = self.books();
        let ghost book_new = book;
        self.orderbooks.push(book);
        proof {
            assert(self.books() =~= b0.push(book@));
            assert forall|s1: nat, s: nat| #[trigger] old(self).fits(s1, s) implies self.fits(s1, s) by {
                assert(levels_fit(book_new.bids@, s1) && levels_fit(book_new.asks@, s1));
                assert forall|b: int| 0 <= b < self.orderbooks@.len() implies #[trigger] self.orderbooks@[b].fits(
                    s1,
                ) by {
                    if b < old(self).orderbooks@.len() {
                        assert(self.orderbooks@[b] == old(self).orderbooks@[b]);
                    } else {
                        assert(self.orderbooks@[b] == book_new);
                    }
                }
            }
            assert forall|b: int| 0 <= b < self.orderbooks@.len() implies #[trigger] self.orderbooks@[b].wf() by {
                if b < old(self).orderbooks@.len() {
                    assert(self.orderbooks@[b] == old(self).orderbooks@[b]);
                }
            }
        }
        self.restore_from_db(saved_orders, saved_balances);
    }
}


/// Law: the side an order is saved under reads back as that side.
pub proof fn law_saved_side_reads_back(side: OrderSide)
    ensures
        side_named(side_name(side)) == Some(side),
{
    reveal_strlit("Buy");
    reveal_strlit("Sell");
    assert("Buy"@ != "Sell"@) by {
        assert("Buy"@.len() != "Sell"@.len());
    }
}

/// Law: the status of a resting order, as saved, reads back as that status.
pub proof fn law_saved_status_reads_back(status: OrderStatus)
    requires
        status == OrderStatus::Pending || status == OrderStatus::PartiallyFilled,
    ensures
        resting_status_named(status_name(status)) == Some(status),
{
    reveal_strlit("Pending");
    reveal_strlit("PartiallyFilled");
    assert("Pending"@ != "PartiallyFilled"@) by {
        assert("Pending"@.len() != "PartiallyFilled"@.len());
    }
}

/// Law: a saved resting order comes back onto its market's book, on the
/// side it was saved under (asks for a sell, bids for a buy), with its
/// saved amounts and status; the other books are untouched.
pub proof fn law_saved_order_is_restored(
    books: Seq<BookView>,
    r: OrderRowView,
    side: OrderSide,
    status: OrderStatus,
)
    requires
        r.side == side_name(side),
        r.status == status_name(status),
        status == OrderStatus::Pending || status == OrderStatus::PartiallyFilled,
        find_book(books, r.market) is Some,
    ensures
        ({
            let b = find_book(books, r.market)->0;
            let o = OrderView {
                price: r.price,
                quantity: r.quantity,
                filled: r.filled,
                order_id: r.order_id,
                user_id: r.user_id,
                side,
                order_type: OrderType::Limit,
                status,
                timestamp: r.timestamp,
            };
            let after = restored_books(books, seq![r]);
            &&& after == books.update(b, rest_on(books[b], o))
            &&& flatten(side_of(after[b], side)).contains(o)
            &&& side_of(after[b], opposite(side)) == side_of(books[b], opposite(side))
        }),
{
    law_saved_side_reads_back(side);
    law_saved_status_reads_back(status);
    let rows = seq![r];
    assert(rows.drop_last() =~= Seq::<OrderRowView>::empty());
    assert(rows.last() == r);
    assert(restored_books(books, rows.drop_last()) == books);
    crate::engine::lemma_find_book_range(books, r.market);
    let b = find_book(books, r.market)->0;
    assert(row_order(r) is Some);
    let o = row_order(r)->0;
    assert(restored_books(books, rows) == books.update(b, rest_on(books[b], o)));
    match side {
        OrderSide::Buy => lemma_insert_order_holds(books[b].bids, o),
        OrderSide::Sell => lemma_insert_order_holds(books[b].asks, o),
    }
}

} // verus!
