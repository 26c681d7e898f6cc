//! Properties of the engine that span several operations: funds are moved
//! between balances, never created or destroyed; what locking takes,
//! cancelling gives back; a market's ticker names its own assets.

use vstd::prelude::*;

use crate::dec::product_value;
use crate::engine::{
    adjusted, apply_update, apply_updates, asset_at, assets_unique, cancel_all_outcome,
    cancel_outcome, cancel_target, create_outcome, fill_update, fill_updates, find_book,
    order_match, release_updates, CancelAllView, CancelView,
    has_asset, has_user, lemma_apply_update_keys, lemma_asset_at, lemma_same_keys,
    lemma_two_updates_apply, lock_of, lock_result, lock_updates, new_order_view, parse_market,
    market_parts, unlock_of, unlock_updates, user_at, users_wf, AmountType, AssetView, BalanceUpdate,
    CreateOrderView, UserView,
};
use crate::orderbook::{book_orders, orders_of_user, remaining, BookView};
use crate::types::{asset_named, asset_symbol, lemma_asset_symbols_distinct, ticker_of, Asset, FillView, OrderSide};

verus! {

/// What a user holds of `asset`, available and locked together.
pub open spec fn holding(u: UserView, asset: Asset) -> int {
    if has_asset(u.assets, asset) {
        u.assets[asset_at(u.assets, asset)].available + u.assets[asset_at(
            u.assets,
            asset,
        )].locked
    } else {
        0
    }
}

/// What all users together hold of `asset`.
pub open spec fn total_of(users: Seq<UserView>, asset: Asset) -> int
    decreases users.len(),
{
    if users.len() == 0 {
        0
    } else {
        total_of(users.drop_last(), asset) + holding(users.last(), asset)
    }
}

/// The sum of the amounts of the adjustments to `asset`.
pub open spec fn amount_sum(ups: Seq<BalanceUpdate>, asset: Asset) -> int
    decreases ups.len(),
{
    if ups.len() == 0 {
        0
    } else {
        (if ups[0].asset == asset {
            ups[0].amount
        } else {
            0
        }) + amount_sum(ups.drop_first(), asset)
    }
}

proof fn lemma_total_update(users: Seq<UserView>, i: int, v: UserView, asset: Asset)
    requires
        0 <= i < users.len(),
    ensures
        total_of(users.update(i, v), asset) == total_of(users, asset) - holding(users[i], asset)
            + holding(v, asset),
    decreases users.len(),
{
    let n = users.update(i, v);
    if i == users.len() - 1 {
        assert(n.drop_last() =~= users.drop_last());
    } else {
        assert(n.drop_last() =~= users.drop_last().update(i, v));
        lemma_total_update(users.drop_last(), i, v, asset);
    }
}

/// One adjustment changes the total of its asset by its amount and no
/// other total.
proof fn lemma_update_total(users: Seq<UserView>, u: BalanceUpdate, asset: Asset)
    requires
        users_wf(users),
        apply_update(users, u) is Ok,
    ensures
        total_of(apply_update(users, u)->Ok_0, asset) == total_of(users, asset) + (if u.asset
            == asset {
            u.amount
        } else {
            0
        }),
{
    let i = user_at(users, u.user);
    let assets = users[i].assets;
    let k = asset_at(assets, u.asset);
    let na = assets.update(k, adjusted(assets[k], u.amount, u.kind));
    let nu = UserView { user_id: users[i].user_id, assets: na };
    lemma_apply_update_keys(users, u);
    let next = apply_update(users, u)->Ok_0;
    assert(next == users.update(i, nu));
    lemma_total_update(users, i, nu, asset);
    assert(next[i] == nu);
    assert(assets_unique(na));
    assert(assets_unique(assets));
    if has_asset(assets, asset) {
        let k2 = asset_at(assets, asset);
        assert(na[k2].asset == asset);
        lemma_asset_at(na, k2);
        if k2 == k {
        } else {
            assert(na[k2] == assets[k2]);
            assert(u.asset != asset) by {
                lemma_asset_at(assets, k);
            }
        }
    } else {
        assert(!has_asset(na, asset)) by {
            if has_asset(na, asset) {
                let k3 = asset_at(na, asset);
                assert(assets[k3].asset == asset);
            }
        }
        assert(u.asset != asset);
    }
}

/// Adjustments that all apply change the total of each asset by the sum
/// of their amounts in it.
proof fn lemma_updates_total(users: Seq<UserView>, ups: Seq<BalanceUpdate>, asset: Asset)
    requires
        users_wf(users),
        apply_updates(users, ups).1 is None,
    ensures
        total_of(apply_updates(users, ups).0, asset) == total_of(users, asset) + amount_sum(
            ups,
            asset,
        ),
    decreases ups.len(),
{
    if ups.len() > 0 {
        lemma_update_total(users, ups[0], asset);
        let next = apply_update(users, ups[0])->Ok_0;
        assert(users_wf(next)) by {
            let i = user_at(users, ups[0].user);
            lemma_apply_update_keys(users, ups[0]);
        }
        lemma_updates_total(next, ups.drop_first(), asset);
    }
}

proof fn lemma_amount_sum_append(a: Seq<BalanceUpdate>, b: Seq<BalanceUpdate>, asset: Asset)
    ensures
        amount_sum(a + b, asset) == amount_sum(a, asset) + amount_sum(b, asset),
    decreases a.len(),
{
    if a.len() > 0 {
        assert((a + b).drop_first() =~= a.drop_first() + b);
        lemma_amount_sum_append(a.drop_first(), b, asset);
    } else {
        assert(a + b =~= b);
    }
}

proof fn lemma_fill_update_sum(
    taker: Seq<char>,
    side: OrderSide,
    base: Asset,
    quote: Asset,
    f: FillView,
    asset: Asset,
)
    ensures
        amount_sum(fill_update(taker, side, base, quote, f), asset) == 0,
{
    let ups = fill_update(taker, side, base, quote, f);
    let d1 = ups.drop_first();
    let d2 = d1.drop_first();
    let d3 = d2.drop_first();
    let d4 = d3.drop_first();
    assert(d4.len() == 0);
    assert(d3[0] == ups[3]);
    assert(d2[0] == ups[2]);
    assert(d1[0] == ups[1]);
    let a0 = if ups[0].asset == asset { ups[0].amount } else { 0 };
    let a1 = if ups[1].asset == asset { ups[1].amount } else { 0 };
    let a2 = if ups[2].asset == asset { ups[2].amount } else { 0 };
    let a3 = if ups[3].asset == asset { ups[3].amount } else { 0 };
    assert(amount_sum(d4, asset) == 0);
    assert(amount_sum(d3, asset) == a3);
    assert(amount_sum(d2, asset) == a2 + a3);
    assert(amount_sum(d1, asset) == a1 + a2 + a3);
    assert(amount_sum(ups, asset) == a0 + a1 + a2 + a3);
}

proof fn lemma_fill_updates_sum(
    taker: Seq<char>,
    side: OrderSide,
    base: Asset,
    quote: Asset,
    fills: Seq<FillView>,
    asset: Asset,
)
    ensures
        amount_sum(fill_updates(taker, side, base, quote, fills), asset) == 0,
    decreases fills.len(),
{
    if fills.len() > 0 {
        lemma_fill_updates_sum(taker, side, base, quote, fills.drop_last(), asset);
        lemma_fill_update_sum(taker, side, base, quote, fills.last(), asset);
        lemma_amount_sum_append(
            fill_updates(taker, side, base, quote, fills.drop_last()),
            fill_update(taker, side, base, quote, fills.last()),
            asset,
        );
    }
}

/// Settling the fills of an order moves funds between the taker and the
/// makers and never creates or destroys any: when every adjustment
/// applies, what all users together hold of each asset is unchanged.
pub proof fn law_settlement_conserves_totals(
    users: Seq<UserView>,
    taker: Seq<char>,
    side: OrderSide,
    base: Asset,
    quote: Asset,
    fills: Seq<FillView>,
    asset: Asset,
)
    requires
        users_wf(users),
        apply_updates(users, fill_updates(taker, side, base, quote, fills)).1 is None,
    ensures
        total_of(apply_updates(users, fill_updates(taker, side, base, quote, fills)).0, asset)
            == total_of(users, asset),
{
    lemma_updates_total(users, fill_updates(taker, side, base, quote, fills), asset);
    lemma_fill_updates_sum(taker, side, base, quote, fills, asset);
}

} // verus!

verus! {

proof fn lemma_lock_sum(user: Seq<char>, a: Asset, amount: int, asset: Asset)
    ensures
        amount_sum(lock_updates(user, a, amount), asset) == 0,
        amount_sum(unlock_updates(user, a, amount), asset) == 0,
{
    let l = lock_updates(user, a, amount);
    let u = unlock_updates(user, a, amount);
    assert(l.drop_first().drop_first().len() == 0);
    assert(u.drop_first().drop_first().len() == 0);
    assert(l.drop_first()[0] == l[1]);
    assert(u.drop_first()[0] == u[1]);
    assert(amount_sum(l.drop_first().drop_first(), asset) == 0);
    assert(amount_sum(u.drop_first().drop_first(), asset) == 0);
    assert(amount_sum(l.drop_first(), asset) == (if l[1].asset == asset { l[1].amount } else { 0 }));
    assert(amount_sum(u.drop_first(), asset) == (if u[1].asset == asset { u[1].amount } else { 0 }));
}

/// Locking funds for an order moves them from available to locked within
/// the user's own balance: what all users hold of each asset is unchanged.
pub proof fn law_lock_conserves_totals(users: Seq<UserView>, o: CreateOrderView, asset: Asset)
    requires
        users_wf(users),
        lock_result(users, o) is Ok,
    ensures
        total_of(lock_result(users, o)->Ok_0, asset) == total_of(users, asset),
{
    let pair = parse_market(o.market)->0;
    let a = lock_of(o, pair.0, pair.1).0;
    let x = lock_of(o, pair.0, pair.1).1;
    let ups = lock_updates(o.user_id, a, x);
    lemma_two_updates_apply(users, ups);
    lemma_updates_total(users, ups, asset);
    lemma_lock_sum(o.user_id, a, x, asset);
}

/// Releasing funds after locking the same amount of the same asset gives
/// back exactly the balances there were before.
pub proof fn law_unlock_undoes_lock(users: Seq<UserView>, user: Seq<char>, asset: Asset, amount: int)
    requires
        users_wf(users),
        has_user(users, user),
        has_asset(users[user_at(users, user)].assets, asset),
    ensures
        apply_updates(apply_updates(users, lock_updates(user, asset, amount)).0, unlock_updates(
            user,
            asset,
            amount,
        )) == (users, None::<crate::engine::Failure>),
{
    let lk = lock_updates(user, asset, amount);
    let ul = unlock_updates(user, asset, amount);
    let i = user_at(users, user);
    let k = asset_at(users[i].assets, asset);
    lemma_two_updates_apply(users, lk);
    let n1 = apply_update(users, lk[0])->Ok_0;
    lemma_apply_update_keys(users, lk[0]);
    lemma_same_keys(users, n1, user, asset);
    let n2 = apply_updates(users, lk).0;
    lemma_same_keys(users, n2, user, asset);
    lemma_two_updates_apply(n2, ul);
    let n3 = apply_update(n2, ul[0])->Ok_0;
    lemma_apply_update_keys(n2, ul[0]);
    lemma_same_keys(n2, n3, user, asset);
    let n4 = apply_updates(n2, ul).0;
    assert(user_at(n1, user) == i && user_at(n2, user) == i && user_at(n3, user) == i);
    assert(asset_at(n1[i].assets, asset) == k);
    assert(asset_at(n2[i].assets, asset) == k);
    assert(asset_at(n3[i].assets, asset) == k);
    assert(n4[i].assets =~= users[i].assets) by {
        assert forall|j: int| 0 <= j < users[i].assets.len() implies n4[i].assets[j]
            == users[i].assets[j] by {
            if j != k {
                assert(n1[i].assets[j] == users[i].assets[j]);
                assert(n2[i].assets[j] == n1[i].assets[j]);
                assert(n3[i].assets[j] == n2[i].assets[j]);
            }
        }
    }
    assert(n4 =~= users) by {
        assert forall|j: int| 0 <= j < users.len() implies n4[j] == users[j] by {
            if j != i {
                assert(n1[j] == users[j]);
                assert(n2[j] == n1[j]);
                assert(n3[j] == n2[j]);
            }
        }
    }
}

/// What cancelling an order that rests untouched releases is exactly what
/// placing it locked.
pub proof fn law_cancel_releases_what_was_locked(
    o: CreateOrderView,
    order_id: Seq<char>,
    timestamp: i64,
    base: Asset,
    quote: Asset,
)
    ensures
        unlock_of(new_order_view(o, order_id, timestamp), base, quote) == lock_of(o, base, quote),
{
    let t = new_order_view(o, order_id, timestamp);
    assert(remaining(t) == o.quantity);
    assert(o.quantity * o.price == o.price * o.quantity) by (nonlinear_arith);
}


/// Placing an order that is accepted moves funds between users and never
/// creates or destroys any: what all users hold of each asset is the same
/// before and after.
pub proof fn law_placing_conserves_totals(
    books: Seq<BookView>,
    users: Seq<UserView>,
    o: CreateOrderView,
    order_id: Seq<char>,
    timestamp: i64,
    asset: Asset,
)
    requires
        users_wf(users),
        create_outcome(books, users, o, order_id, timestamp).2 is None,
    ensures
        total_of(create_outcome(books, users, o, order_id, timestamp).1, asset) == total_of(
            users,
            asset,
        ),
{
    let locked = lock_result(users, o)->Ok_0;
    let pair = parse_market(o.market)->0;
    let a = lock_of(o, pair.0, pair.1).0;
    let x = lock_of(o, pair.0, pair.1).1;
    lemma_two_updates_apply(users, lock_updates(o.user_id, a, x));
    law_lock_conserves_totals(users, o, asset);
    let b = find_book(books, o.market)->0;
    let m = order_match(books[b], o);
    law_settlement_conserves_totals(locked, o.user_id, o.side, pair.0, pair.1, m.fills, asset);
}

/// Cancelling an order releases its funds to its owner: what all users
/// hold of each asset is unchanged.
pub proof fn law_cancel_conserves_totals(
    books: Seq<BookView>,
    users: Seq<UserView>,
    c: CancelView,
    asset: Asset,
)
    requires
        users_wf(users),
        cancel_outcome(books, users, c).2 is None,
    ensures
        total_of(cancel_outcome(books, users, c).1, asset) == total_of(users, asset),
{
    let pair = parse_market(c.market)->0;
    let b = find_book(books, c.market)->0;
    let o = cancel_target(books[b], c)->0;
    let ups = unlock_updates(o.user_id, unlock_of(o, pair.0, pair.1).0, unlock_of(o, pair.0, pair.1).1);
    lemma_updates_total(users, ups, asset);
    lemma_lock_sum(o.user_id, unlock_of(o, pair.0, pair.1).0, unlock_of(o, pair.0, pair.1).1, asset);
}

proof fn lemma_release_sum(orders: Seq<crate::types::OrderView>, base: Asset, quote: Asset, asset: Asset)
    ensures
        amount_sum(release_updates(orders, base, quote), asset) == 0,
    decreases orders.len(),
{
    if orders.len() > 0 {
        let o = orders.last();
        lemma_release_sum(orders.drop_last(), base, quote, asset);
        lemma_lock_sum(o.user_id, unlock_of(o, base, quote).0, unlock_of(o, base, quote).1, asset);
        lemma_amount_sum_append(
            release_updates(orders.drop_last(), base, quote),
            unlock_updates(o.user_id, unlock_of(o, base, quote).0, unlock_of(o, base, quote).1),
            asset,
        );
    }
}

/// Cancelling all orders of a user releases each order's funds to its
/// owner: what all users hold of each asset is unchanged.
pub proof fn law_cancel_all_conserves_totals(
    books: Seq<BookView>,
    users: Seq<UserView>,
    c: CancelAllView,
    asset: Asset,
)
    requires
        users_wf(users),
        cancel_all_outcome(books, users, c).2 is None,
    ensures
        total_of(cancel_all_outcome(books, users, c).1, asset) == total_of(users, asset),
{
    let pair = parse_market(c.market)->0;
    let b = find_book(books, c.market)->0;
    let cancelled = orders_of_user(book_orders(books[b]), c.user_id);
    lemma_updates_total(users, release_updates(cancelled, pair.0, pair.1), asset);
    lemma_release_sum(cancelled, pair.0, pair.1, asset);
}


proof fn lemma_symbol_plain(a: Asset)
    ensures
        forall|i: int| 0 <= i < asset_symbol(a).len() ==> asset_symbol(a)[i] != '_',
        asset_named(asset_symbol(a)) == Some(a),
{
    reveal_strlit("USDC");
    reveal_strlit("USDT");
    reveal_strlit("BTC");
    reveal_strlit("ETH");
    reveal_strlit("SOL");
    lemma_asset_symbols_distinct();
    assert(exists|b: Asset| asset_symbol(b) == asset_symbol(a));
    let c = choose|b: Asset| asset_symbol(b) == asset_symbol(a);
    assert(asset_symbol(c) == asset_symbol(a));
}

/// Parsing the symbol an asset is written with gives back that asset.
pub proof fn law_asset_symbol_round_trip(a: Asset)
    ensures
        asset_named(asset_symbol(a)) == Some(a),
{
    lemma_symbol_plain(a);
}

/// The ticker of a pair of assets is a market name that denotes that very
/// pair.
pub proof fn law_ticker_names_its_assets(base: Asset, quote: Asset)
    ensures
        parse_market(ticker_of(base, quote)) == Some((base, quote)),
{
    reveal_strlit("_");
    lemma_symbol_plain(base);
    lemma_symbol_plain(quote);
    let t = ticker_of(base, quote);
    assert(t == asset_symbol(base) + seq!['_'] + asset_symbol(quote));
    crate::text::lemma_split_join(asset_symbol(base), asset_symbol(quote), '_');
    crate::text::lemma_split_plain(asset_symbol(quote), '_');
    assert(market_parts(t) =~= seq![asset_symbol(base), asset_symbol(quote)]);
}

} // verus!
