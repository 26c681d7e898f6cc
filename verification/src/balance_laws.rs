//! What settling a fill and cancelling an order do to each balance: who
//! gains or gives up what, and in which part (available or locked).

use vstd::prelude::*;

use crate::dec::product_value;
use crate::engine::{
    apply_update, apply_updates, asset_at, balance_of, cancel_outcome, cancel_target, fill_updates,
    find_book, has_asset, has_user, lemma_apply_update_keys, lock_result, CreateOrderView, lemma_asset_at, lemma_same_keys,
    lemma_user_at, parse_market, user_at, users_wf, AmountType, BalanceUpdate, CancelView,
    UserView,
};
use crate::orderbook::{sum_quantities, BookView};
use crate::types::{Asset, FillView, OrderSide};

verus! {

/// The sum of the adjustments to the available part of `user`'s `asset`.
pub open spec fn available_change(ups: Seq<BalanceUpdate>, user: Seq<char>, asset: Asset) -> int
    decreases ups.len(),
{
    if ups.len() == 0 {
        0
    } else {
        (if ups[0].user == user && ups[0].asset == asset && ups[0].kind == AmountType::Available {
            ups[0].amount
        } else {
            0
        }) + available_change(ups.drop_first(), user, asset)
    }
}

/// The sum of the adjustments to the locked part of `user`'s `asset`.
pub open spec fn locked_change(ups: Seq<BalanceUpdate>, user: Seq<char>, asset: Asset) -> int
    decreases ups.len(),
{
    if ups.len() == 0 {
        0
    } else {
        (if ups[0].user == user && ups[0].asset == asset && ups[0].kind == AmountType::Locked {
            ups[0].amount
        } else {
            0
        }) + locked_change(ups.drop_first(), user, asset)
    }
}

/// One adjustment that applies changes the part it names of the balance it
/// names by its amount, and nothing else.
proof fn lemma_update_balance(users: Seq<UserView>, u: BalanceUpdate, user: Seq<char>, asset: Asset)
    requires
        users_wf(users),
        apply_update(users, u) is Ok,
    ensures
        users_wf(apply_update(users, u)->Ok_0),
        balance_of(apply_update(users, u)->Ok_0, user, asset) is Some <==> balance_of(users, user, asset) is Some,
        balance_of(users, user, asset) is Some ==> {
            let b0 = balance_of(users, user, asset)->0;
            let b1 = balance_of(apply_update(users, u)->Ok_0, user, asset)->0;
            let hit = u.user == user && u.asset == asset;
            &&& b1.asset == b0.asset
            &&& b1.available == b0.available + (if hit && u.kind == AmountType::Available {
                u.amount
            } else {
                0
            })
            &&& b1.locked == b0.locked + (if hit && u.kind == AmountType::Locked {
                u.amount
            } else {
                0
            })
        },
{
    lemma_apply_update_keys(users, u);
    let next = apply_update(users, u)->Ok_0;
    lemma_same_keys(users, next, user, asset);
    let i = user_at(users, u.user);
    let k = asset_at(users[i].assets, u.asset);
    if balance_of(users, user, asset) is Some {
        let j = user_at(users, user);
        let m = asset_at(users[j].assets, asset);
        assert(users[j].user_id == user);
        assert(users[i].user_id == u.user);
        if j == i {
            assert(user == u.user);
            assert(users[i].assets[m].asset == asset);
            assert(users[i].assets[k].asset == u.asset);
            if m == k {
                assert(asset == u.asset);
            } else {
                assert(asset != u.asset);
                assert(next[i].assets[m] == users[i].assets[m]);
            }
        } else {
            assert(user != u.user);
            assert(next[j] == users[j]);
        }
    }
}

/// Adjustments that all apply change each part of each balance by the sum
/// of their amounts for it.
proof fn lemma_updates_balance(users: Seq<UserView>, ups: Seq<BalanceUpdate>, user: Seq<char>, asset: Asset)
    requires
        users_wf(users),
        apply_updates(users, ups).1 is None,
        balance_of(users, user, asset) is Some,
    ensures
        users_wf(apply_updates(users, ups).0),
        balance_of(apply_updates(users, ups).0, user, asset) is Some,
        balance_of(apply_updates(users, ups).0, user, asset)->0.available == balance_of(
            users,
            user,
            asset,
        )->0.available + available_change(ups, user, asset),
        balance_of(apply_updates(users, ups).0, user, asset)->0.locked == balance_of(
            users,
            user,
            asset,
        )->0.locked + locked_change(ups, user, asset),
    decreases ups.len(),
{
    if ups.len() > 0 {
        assert(apply_update(users, ups[0]) is Ok);
        lemma_update_balance(users, ups[0], user, asset);
        let next = apply_update(users, ups[0])->Ok_0;
        lemma_updates_balance(next, ups.drop_first(), user, asset);
    }
}

/// What one adjustment adds to the available part of `user`'s `asset`.
pub open spec fn available_term(u: BalanceUpdate, user: Seq<char>, asset: Asset) -> int {
    if u.user == user && u.asset == asset && u.kind == AmountType::Available {
        u.amount
    } else {
        0
    }
}

/// What one adjustment adds to the locked part of `user`'s `asset`.
pub open spec fn locked_term(u: BalanceUpdate, user: Seq<char>, asset: Asset) -> int {
    if u.user == user && u.asset == asset && u.kind == AmountType::Locked {
        u.amount
    } else {
        0
    }
}

proof fn lemma_changes_step(ups: Seq<BalanceUpdate>, user: Seq<char>, asset: Asset)
    requires
        ups.len() > 0,
    ensures
        available_change(ups, user, asset) == available_term(ups[0], user, asset) + available_change(
            ups.drop_first(),
            user,
            asset,
        ),
        locked_change(ups, user, asset) == locked_term(ups[0], user, asset) + locked_change(
            ups.drop_first(),
            user,
            asset,
        ),
{
}

proof fn lemma_changes_of_two(ups: Seq<BalanceUpdate>, user: Seq<char>, asset: Asset)
    requires
        ups.len() == 2,
    ensures
        available_change(ups, user, asset) == available_term(ups[0], user, asset) + available_term(
            ups[1],
            user,
            asset,
        ),
        locked_change(ups, user, asset) == locked_term(ups[0], user, asset) + locked_term(
            ups[1],
            user,
            asset,
        ),
{
    let d1 = ups.drop_first();
    assert(d1[0] == ups[1]);
    lemma_changes_step(ups, user, asset);
    lemma_changes_step(d1, user, asset);
    assert(d1.drop_first().len() == 0);
}

proof fn lemma_changes_of_four(ups: Seq<BalanceUpdate>, user: Seq<char>, asset: Asset)
    requires
        ups.len() == 4,
    ensures
        available_change(ups, user, asset) == available_term(ups[0], user, asset) + available_term(
            ups[1],
            user,
            asset,
        ) + available_term(ups[2], user, asset) + available_term(ups[3], user, asset),
        locked_change(ups, user, asset) == locked_term(ups[0], user, asset) + locked_term(
            ups[1],
            user,
            asset,
        ) + locked_term(ups[2], user, asset) + locked_term(ups[3], user, asset),
{
    let d1 = ups.drop_first();
    let d2 = d1.drop_first();
    let d3 = d2.drop_first();
    assert(d1[0] == ups[1] && d2[0] == ups[2] && d3[0] == ups[3]);
    lemma_changes_step(ups, user, asset);
    lemma_changes_step(d1, user, asset);
    lemma_changes_step(d2, user, asset);
    lemma_changes_step(d3, user, asset);
    assert(d3.drop_first().len() == 0);
}

/// A balance before and after, both present.
pub open spec fn both(users0: Seq<UserView>, users1: Seq<UserView>, user: Seq<char>, asset: Asset) -> bool {
    balance_of(users0, user, asset) is Some && balance_of(users1, user, asset) is Some
}

pub open spec fn available(users: Seq<UserView>, user: Seq<char>, asset: Asset) -> int {
    balance_of(users, user, asset)->0.available
}

pub open spec fn locked(users: Seq<UserView>, user: Seq<char>, asset: Asset) -> int {
    balance_of(users, user, asset)->0.locked
}

/// Law: settling one fill of quantity `q` at price `p` between a taker and
/// a different maker gives each side what it bought as available funds
/// and takes what it paid from its locked funds.  A buying taker gains `q`
/// of the base asset (available) and gives up `p·q` of the quote asset
/// (locked); the maker gains `p·q` of the quote asset (available) and gives
/// up `q` of the base asset (locked).  A selling taker gives up `q` of the
/// base asset (locked) and gains `p·q` of the quote asset (available); the
/// maker gives up `p·q` of the quote asset (locked) and gains `q` of the
/// base asset (available).  Every other part stays as it was.
pub proof fn law_fill_settles_each_side(
    users: Seq<UserView>,
    taker: Seq<char>,
    side: OrderSide,
    base: Asset,
    quote: Asset,
    f: FillView,
)
    requires
        users_wf(users),
        base != quote,
        taker != f.other_user_id,
        apply_updates(users, fill_updates(taker, side, base, quote, seq![f])).1 is None,
        balance_of(users, taker, base) is Some,
        balance_of(users, taker, quote) is Some,
        balance_of(users, f.other_user_id, base) is Some,
        balance_of(users, f.other_user_id, quote) is Some,
    ensures
        ({
            let after = apply_updates(users, fill_updates(taker, side, base, quote, seq![f])).0;
            let maker = f.other_user_id;
            let q = f.quantity;
            let paid = product_value(f.price, f.quantity);
            &&& both(users, after, taker, base) && both(users, after, taker, quote)
            &&& both(users, after, maker, base) && both(users, after, maker, quote)
            &&& match side {
                OrderSide::Buy => {
                    &&& available(after, taker, base) == available(users, taker, base) + q
                    &&& locked(after, taker, base) == locked(users, taker, base)
                    &&& available(after, taker, quote) == available(users, taker, quote)
                    &&& locked(after, taker, quote) == locked(users, taker, quote) - paid
                    &&& available(after, maker, quote) == available(users, maker, quote) + paid
                    &&& locked(after, maker, quote) == locked(users, maker, quote)
                    &&& available(after, maker, base) == available(users, maker, base)
                    &&& locked(after, maker, base) == locked(users, maker, base) - q
                },
                OrderSide::Sell => {
                    &&& available(after, taker, base) == available(users, taker, base)
                    &&& locked(after, taker, base) == locked(users, taker, base) - q
                    &&& available(after, taker, quote) == available(users, taker, quote) + paid
                    &&& locked(after, taker, quote) == locked(users, taker, quote)
                    &&& available(after, maker, quote) == available(users, maker, quote)
                    &&& locked(after, maker, quote) == locked(users, maker, quote) - paid
                    &&& available(after, maker, base) == available(users, maker, base) + q
                    &&& locked(after, maker, base) == locked(users, maker, base)
                },
            }
        }),
{
    let ups = fill_updates(taker, side, base, quote, seq![f]);
    let fs = seq![f];
    assert(fs.drop_last() =~= Seq::<FillView>::empty());
    assert(fs.last() == f);
    assert(fill_updates(taker, side, base, quote, fs.drop_last()) =~= Seq::<BalanceUpdate>::empty());
    assert(ups =~= crate::engine::fill_update(taker, side, base, quote, f));
    let maker = f.other_user_id;
    lemma_updates_balance(users, ups, taker, base);
    lemma_updates_balance(users, ups, taker, quote);
    lemma_updates_balance(users, ups, maker, base);
    lemma_updates_balance(users, ups, maker, quote);
    lemma_changes_of_four(ups, taker, base);
    lemma_changes_of_four(ups, taker, quote);
    lemma_changes_of_four(ups, maker, base);
    lemma_changes_of_four(ups, maker, quote);
}

/// Law: cancelling a resting order releases exactly what it still holds
/// locked, to its owner: for a buy, what is left of it (quantity less
/// filled) times its price, in the quote asset; for a sell, what is left of
/// it, in the base asset.  The amount moves from locked to available; the
/// owner's other asset is untouched.
pub proof fn law_cancel_releases_what_is_left(books: Seq<BookView>, users: Seq<UserView>, c: CancelView)
    requires
        users_wf(users),
        cancel_outcome(books, users, c).2 is None,
    ensures
        ({
            let pair = parse_market(c.market)->0;
            let base = pair.0;
            let quote = pair.1;
            let o = cancel_target(books[find_book(books, c.market)->0], c)->0;
            let after = cancel_outcome(books, users, c).1;
            let left = o.quantity - o.filled;
            let (asset, other, amount) = match o.side {
                OrderSide::Buy => (quote, base, product_value(left, o.price)),
                OrderSide::Sell => (base, quote, left),
            };
            &&& both(users, after, o.user_id, asset)
            &&& available(after, o.user_id, asset) == available(users, o.user_id, asset) + amount
            &&& locked(after, o.user_id, asset) == locked(users, o.user_id, asset) - amount
            &&& base != quote && balance_of(users, o.user_id, other) is Some ==> {
                &&& both(users, after, o.user_id, other)
                &&& available(after, o.user_id, other) == available(users, o.user_id, other)
                &&& locked(after, o.user_id, other) == locked(users, o.user_id, other)
            }
        }),
{
    let pair = parse_market(c.market)->0;
    let b = find_book(books, c.market)->0;
    let o = cancel_target(books[b], c)->0;
    let ua = crate::engine::unlock_of(o, pair.0, pair.1);
    let ups = crate::engine::unlock_updates(o.user_id, ua.0, ua.1);
    assert(apply_updates(users, ups).1 is None);
    assert(apply_update(users, ups[0]) is Ok);
    assert(balance_of(users, o.user_id, ua.0) is Some);
    lemma_updates_balance(users, ups, o.user_id, ua.0);
    lemma_changes_of_two(ups, o.user_id, ua.0);
    let other = if ua.0 == pair.0 { pair.1 } else { pair.0 };
    if pair.0 != pair.1 && balance_of(users, o.user_id, other) is Some {
        lemma_updates_balance(users, ups, o.user_id, other);
        lemma_changes_of_two(ups, o.user_id, other);
    }
}


/// Law: locking funds for an order of a known market and user takes its
/// cost from the user's available funds and adds it to the locked funds:
/// for a buy, price times quantity of the quote asset; for a sell, the
/// quantity of the base asset.  It succeeds exactly when the user holds
/// that asset with at least the cost available, and then the user's other
/// asset is untouched.
pub proof fn law_lock_takes_the_cost(users: Seq<UserView>, o: CreateOrderView)
    requires
        users_wf(users),
        parse_market(o.market) is Some,
    ensures
        ({
            let pair = parse_market(o.market)->0;
            let (asset, other, cost) = match o.side {
                OrderSide::Buy => (pair.1, pair.0, product_value(o.price, o.quantity)),
                OrderSide::Sell => (pair.0, pair.1, o.quantity),
            };
            &&& lock_result(users, o) is Ok <==> balance_of(users, o.user_id, asset) is Some
                && available(users, o.user_id, asset) >= cost
            &&& lock_result(users, o) is Ok ==> {
                let after = lock_result(users, o)->Ok_0;
                &&& both(users, after, o.user_id, asset)
                &&& available(after, o.user_id, asset) == available(users, o.user_id, asset) - cost
                &&& locked(after, o.user_id, asset) == locked(users, o.user_id, asset) + cost
                &&& pair.0 != pair.1 && balance_of(users, o.user_id, other) is Some ==> {
                    &&& both(users, after, o.user_id, other)
                    &&& available(after, o.user_id, other) == available(users, o.user_id, other)
                    &&& locked(after, o.user_id, other) == locked(users, o.user_id, other)
                }
            }
        }),
{
    let pair = parse_market(o.market)->0;
    let la = crate::engine::lock_of(o, pair.0, pair.1);
    if lock_result(users, o) is Ok {
        let ups = crate::engine::lock_updates(o.user_id, la.0, la.1);
        crate::engine::lemma_two_updates_apply(users, ups);
        lemma_updates_balance(users, ups, o.user_id, la.0);
        lemma_changes_of_two(ups, o.user_id, la.0);
        let other = if la.0 == pair.0 { pair.1 } else { pair.0 };
        if pair.0 != pair.1 && balance_of(users, o.user_id, other) is Some {
            lemma_updates_balance(users, ups, o.user_id, other);
            lemma_changes_of_two(ups, o.user_id, other);
        }
    }
}


proof fn lemma_changes_append(a: Seq<BalanceUpdate>, b: Seq<BalanceUpdate>, user: Seq<char>, asset: Asset)
    ensures
        available_change(a + b, user, asset) == available_change(a, user, asset) + available_change(
            b,
            user,
            asset,
        ),
        locked_change(a + b, user, asset) == locked_change(a, user, asset) + locked_change(b, user, asset),
    decreases a.len(),
{
    if a.len() > 0 {
        assert((a + b).drop_first() =~= a.drop_first() + b);
        lemma_changes_append(a.drop_first(), b, user, asset);
        assert((a + b)[0] == a[0]);
    } else {
        assert(a + b =~= b);
    }
}

/// What the taker pays (a buy) or receives (a sell) over all fills.
pub open spec fn total_paid(fills: Seq<FillView>) -> int
    decreases fills.len(),
{
    if fills.len() == 0 {
        0
    } else {
        total_paid(fills.drop_last()) + product_value(fills.last().price, fills.last().quantity)
    }
}

/// Every fill was made against another user than `taker`.
pub open spec fn makers_other_than(fills: Seq<FillView>, taker: Seq<char>) -> bool {
    forall|k: int| 0 <= k < fills.len() ==> #[trigger] fills[k].other_user_id != taker
}

proof fn lemma_taker_changes(
    taker: Seq<char>,
    side: OrderSide,
    base: Asset,
    quote: Asset,
    fills: Seq<FillView>,
)
    requires
        base != quote,
        makers_other_than(fills, taker),
    ensures
        ({
            let ups = fill_updates(taker, side, base, quote, fills);
            match side {
                OrderSide::Buy => {
                    &&& available_change(ups, taker, base) == sum_quantities(fills)
                    &&& locked_change(ups, taker, base) == 0
                    &&& available_change(ups, taker, quote) == 0
                    &&& locked_change(ups, taker, quote) == -total_paid(fills)
                },
                OrderSide::Sell => {
                    &&& available_change(ups, taker, base) == 0
                    &&& locked_change(ups, taker, base) == -sum_quantities(fills)
                    &&& available_change(ups, taker, quote) == total_paid(fills)
                    &&& locked_change(ups, taker, quote) == 0
                },
            }
        }),
    decreases fills.len(),
{
    if fills.len() > 0 {
        let d = fills.drop_last();
        let f = fills.last();
        assert(makers_other_than(d, taker)) by {
            assert forall|k: int| 0 <= k < d.len() implies #[trigger] d[k].other_user_id != taker by {
                assert(d[k] == fills[k]);
            }
        }
        assert(f.other_user_id != taker) by {
            assert(fills[fills.len() - 1] == f);
        }
        lemma_taker_changes(taker, side, base, quote, d);
        let one = crate::engine::fill_update(taker, side, base, quote, f);
        let ups_d = fill_updates(taker, side, base, quote, d);
        lemma_changes_append(ups_d, one, taker, base);
        lemma_changes_append(ups_d, one, taker, quote);
        lemma_changes_of_four(one, taker, base);
        lemma_changes_of_four(one, taker, quote);
        crate::orderbook::lemma_sum_quantities_append(d, seq![f]);
        assert(d + seq![f] =~= fills);
        assert(seq![f].drop_first() =~= Seq::<FillView>::empty());
        assert(sum_quantities(seq![f]) == f.quantity + sum_quantities(seq![f].drop_first()));
    }
}

/// Law: over all the fills of an order, the taker receives as available
/// funds exactly what it bought and gives up from its locked funds exactly
/// what it paid: a buying taker gains the sum of the fill quantities of
/// the base asset and pays the sum of price times quantity of the quote
/// asset; a selling taker gives up the sum of the quantities of the base
/// asset and receives the sum of price times quantity of the quote asset.
pub proof fn law_taker_settles_all_fills(
    users: Seq<UserView>,
    taker: Seq<char>,
    side: OrderSide,
    base: Asset,
    quote: Asset,
    fills: Seq<FillView>,
)
    requires
        users_wf(users),
        base != quote,
        makers_other_than(fills, taker),
        apply_updates(users, fill_updates(taker, side, base, quote, fills)).1 is None,
        balance_of(users, taker, base) is Some,
        balance_of(users, taker, quote) is Some,
    ensures
        ({
            let after = apply_updates(users, fill_updates(taker, side, base, quote, fills)).0;
            &&& both(users, after, taker, base) && both(users, after, taker, quote)
            &&& match side {
                OrderSide::Buy => {
                    &&& available(after, taker, base) == available(users, taker, base) + sum_quantities(fills)
                    &&& locked(after, taker, base) == locked(users, taker, base)
                    &&& available(after, taker, quote) == available(users, taker, quote)
                    &&& locked(after, taker, quote) == locked(users, taker, quote) - total_paid(fills)
                },
                OrderSide::Sell => {
                    &&& available(after, taker, base) == available(users, taker, base)
                    &&& locked(after, taker, base) == locked(users, taker, base) - sum_quantities(fills)
                    &&& available(after, taker, quote) == available(users, taker, quote) + total_paid(fills)
                    &&& locked(after, taker, quote) == locked(users, taker, quote)
                },
            }
        }),
{
    let ups = fill_updates(taker, side, base, quote, fills);
    lemma_updates_balance(users, ups, taker, base);
    lemma_updates_balance(users, ups, taker, quote);
    lemma_taker_changes(taker, side, base, quote, fills);
}

} // verus!
