//! The exchange engine: the order books of all markets and the balances of
//! all users, with funds locked while orders rest.

use vstd::prelude::*;
use vstd::string::*;

use crate::dec::{add_at, bound_at, fits_at, lemma_fits_result, max_mantissa, mul_at, one_units, pow10, product_value, sub_at, Dec};
use crate::error::EngineError;
use crate::orderbook::{
    book_orders, depth_of, depth_view, fills_fit, fills_prices_fit, is_order_of, queue_prices_fit, order_fits, orders_of_user,
    book_after, match_levels, match_taker, opposite_count, opposite_in_priority, SideMatch, queue_fits, refs_view, remaining, remove_at, side_of,
    strip_user, totals_within, BookView, LevelView, OrderBook,
};
use crate::text::{split_char, split_spec};
use crate::types::{
    asset_named, asset_symbol, fills_view, orders_view, ticker_of, Asset, AssetPair,
    CancelAllOrders, CancelOrder, CreateOrder, Fill, FillView, GetDepth, GetOpenOrder,
    GetOpenOrders, Order, OrderSide, OrderStatus, OrderType, OrderView, ProcessOrderResult,
};

verus! {

/// Which part of a balance an adjustment applies to.
#[derive(Clone, Copy, Debug, PartialEq, Eq, Structural)]
pub enum AmountType {
    Available,
    Locked,
}

/// A balance in one asset: free to use, and locked by resting orders.
#[derive(Clone, Copy, Debug)]
pub struct Amount {
    pub available: Dec,
    pub locked: Dec,
}

/// One asset's balance of a user.
#[derive(Clone, Copy, Debug)]
pub struct AssetBalance {
    pub asset: Asset,
    pub amount: Amount,
}

/// The balances of one user, one entry per asset.
#[derive(Clone, Debug)]
pub struct UserBalances {
    pub user_id: String,
    pub balance: Vec<AssetBalance>,
}

/// Core exchange engine holding all order books and user balances in memory.
pub struct Engine {
    pub orderbooks: Vec<OrderBook>,
    /// One entry per user.
    pub balances: Vec<UserBalances>,
}

pub struct AssetView {
    pub asset: Asset,
    pub available: int,
    pub locked: int,
}

pub struct UserView {
    pub user_id: Seq<char>,
    pub assets: Seq<AssetView>,
}

impl View for AssetBalance {
    type V = AssetView;

    open spec fn view(&self) -> AssetView {
        AssetView {
            asset: self.asset,
            available: self.amount.available.val(),
            locked: self.amount.locked.val(),
        }
    }
}

impl View for UserBalances {
    type V = UserView;

    open spec fn view(&self) -> UserView {
        UserView { user_id: self.user_id@, assets: assets_view(self.balance@) }
    }
}

pub open spec fn assets_view(v: Seq<AssetBalance>) -> Seq<AssetView> {
    v.map_values(|a: AssetBalance| a@)
}

pub open spec fn users_view(v: Seq<UserBalances>) -> Seq<UserView> {
    v.map_values(|u: UserBalances| u@)
}

/// No asset appears twice.
pub open spec fn assets_unique(assets: Seq<AssetView>) -> bool {
    forall|i: int, j: int|
        0 <= i < assets.len() && 0 <= j < assets.len() && i != j ==> #[trigger] assets[i].asset
            != #[trigger] assets[j].asset
}

/// No user appears twice, and no asset twice within a user.
pub open spec fn users_wf(users: Seq<UserView>) -> bool {
    &&& forall|i: int, j: int|
        0 <= i < users.len() && 0 <= j < users.len() && i != j ==> #[trigger] users[i].user_id
            != #[trigger] users[j].user_id
    &&& forall|i: int| 0 <= i < users.len() ==> #[trigger] assets_unique(users[i].assets)
}

pub open spec fn has_user(users: Seq<UserView>, user: Seq<char>) -> bool {
    exists|i: int| 0 <= i < users.len() && #[trigger] users[i].user_id == user
}

/// The position of `user` (meaningful when present).
pub open spec fn user_at(users: Seq<UserView>, user: Seq<char>) -> int {
    choose|i: int| 0 <= i < users.len() && #[trigger] users[i].user_id == user
}

pub open spec fn has_asset(assets: Seq<AssetView>, asset: Asset) -> bool {
    exists|k: int| 0 <= k < assets.len() && #[trigger] assets[k].asset == asset
}

/// The position of `asset` (meaningful when present).
pub open spec fn asset_at(assets: Seq<AssetView>, asset: Asset) -> int {
    choose|k: int| 0 <= k < assets.len() && #[trigger] assets[k].asset == asset
}

/// The balance of `user` in `asset`, if the user holds one.
pub open spec fn balance_of(users: Seq<UserView>, user: Seq<char>, asset: Asset) -> Option<
    AssetView,
> {
    if has_user(users, user) && has_asset(users[user_at(users, user)].assets, asset) {
        Some(users[user_at(users, user)].assets[asset_at(users[user_at(users, user)].assets, asset)])
    } else {
        None
    }
}

/// An adjustment of one part of one balance.
pub struct BalanceUpdate {
    pub user: Seq<char>,
    pub asset: Asset,
    pub amount: int,
    pub kind: AmountType,
}

/// Why a request was refused.
pub enum Failure {
    UserNotFound(Seq<char>),
    NoBalanceForAsset(Seq<char>),
    InvalidMarketFormat(Seq<char>),
    UnsupportedAsset(Seq<char>),
    InsufficientFunds,
    OrderBookNotFound(Seq<char>),
    OrderNotFound,
    InvalidPrice,
    InvalidQuantity,
}

/// `e` is the error reporting `f`.
pub open spec fn reports(e: EngineError, f: Failure) -> bool {
    match f {
        Failure::UserNotFound(u) => e matches EngineError::UserNotFound(s) && s@ == u,
        Failure::NoBalanceForAsset(a) => e matches EngineError::NoBalanceForAsset(s) && s@ == a,
        Failure::InvalidMarketFormat(m) => e matches EngineError::InvalidMarketFormat(s) && s@ == m,
        Failure::UnsupportedAsset(a) => e matches EngineError::UnsupportedAsset(s) && s@ == a,
        Failure::InsufficientFunds => e is InsufficientFunds,
        Failure::OrderBookNotFound(m) => e matches EngineError::OrderBookNotFound(s) && s@ == m,
        Failure::OrderNotFound => e is OrderNotFound,
        Failure::InvalidPrice => e is InvalidPrice,
        Failure::InvalidQuantity => e is InvalidQuantity,
    }
}

/// The message of the error reporting `f`.
pub open spec fn failure_message(f: Failure) -> Seq<char> {
    match f {
        Failure::UserNotFound(u) => "user not found: "@ + u,
        Failure::NoBalanceForAsset(a) => "no balance for asset: "@ + a,
        Failure::InvalidMarketFormat(m) => "invalid market format: "@ + m,
        Failure::UnsupportedAsset(a) => "unsupported asset: "@ + a,
        Failure::InsufficientFunds => "insufficient funds"@,
        Failure::OrderBookNotFound(m) => "no orderbook for market: "@ + m,
        Failure::OrderNotFound => "order not found"@,
        Failure::InvalidPrice => "price must be positive"@,
        Failure::InvalidQuantity => "quantity must be positive"@,
    }
}

pub proof fn lemma_reports_message(e: EngineError, f: Failure)
    requires
        reports(e, f),
    ensures
        crate::error::error_message(e) == failure_message(f),
{
}

pub open spec fn adjusted(a: AssetView, amount: int, kind: AmountType) -> AssetView {
    match kind {
        AmountType::Available => AssetView {
            asset: a.asset,
            available: a.available + amount,
            locked: a.locked,
        },
        AmountType::Locked => AssetView {
            asset: a.asset,
            available: a.available,
            locked: a.locked + amount,
        },
    }
}

/// The adjusted part's new value.
pub open spec fn adjusted_value(a: AssetView, amount: int, kind: AmountType) -> int {
    match kind {
        AmountType::Available => a.available + amount,
        AmountType::Locked => a.locked + amount,
    }
}

/// Applies one adjustment: the user must exist and hold the asset.
pub open spec fn apply_update(users: Seq<UserView>, u: BalanceUpdate) -> Result<
    Seq<UserView>,
    Failure,
> {
    if !has_user(users, u.user) {
        Err(Failure::UserNotFound(u.user))
    } else {
        let i = user_at(users, u.user);
        let assets = users[i].assets;
        if !has_asset(assets, u.asset) {
            Err(Failure::NoBalanceForAsset(asset_symbol(u.asset)))
        } else {
            let k = asset_at(assets, u.asset);
            Ok(
                users.update(
                    i,
                    UserView {
                        user_id: users[i].user_id,
                        assets: assets.update(k, adjusted(assets[k], u.amount, u.kind)),
                    },
                ),
            )
        }
    }
}

/// Applies adjustments in order, stopping at the first that fails; the
/// balances then are those reached before it.
pub open spec fn apply_updates(users: Seq<UserView>, ups: Seq<BalanceUpdate>) -> (
    Seq<UserView>,
    Option<Failure>,
)
    decreases ups.len(),
{
    if ups.len() == 0 {
        (users, None)
    } else {
        match apply_update(users, ups[0]) {
            Err(f) => (users, Some(f)),
            Ok(next) => apply_updates(next, ups.drop_first()),
        }
    }
}

/// Every value the adjustments produce, up to the first failure, is within
/// the bound at scale `s`.
pub open spec fn updates_within(users: Seq<UserView>, ups: Seq<BalanceUpdate>, s: nat) -> bool
    decreases ups.len(),
{
    if ups.len() == 0 {
        true
    } else {
        match apply_update(users, ups[0]) {
            Err(_) => true,
            Ok(next) => {
                let a = users[user_at(users, ups[0].user)].assets[asset_at(
                    users[user_at(users, ups[0].user)].assets,
                    ups[0].asset,
                )];
                let v = adjusted_value(a, ups[0].amount, ups[0].kind);
                &&& -bound_at(s) <= v <= bound_at(s)
                &&& updates_within(next, ups.drop_first(), s)
            },
        }
    }
}

/// Every balance amount fits at scale `s`.
pub open spec fn balances_fit(users: Seq<UserBalances>, s: nat) -> bool {
    forall|i: int| 0 <= i < users.len() ==> #[trigger] user_fits(users[i], s)
}

pub open spec fn user_fits(user: UserBalances, s: nat) -> bool {
    forall|k: int| 0 <= k < user.balance@.len() ==> #[trigger] amount_fits(user.balance@[k].amount, s)
}

/// Every amount of the entries fits at scale `s`.
pub open spec fn entries_fit(v: Seq<AssetBalance>, s: nat) -> bool {
    forall|k: int| 0 <= k < v.len() ==> #[trigger] amount_fits(v[k].amount, s)
}

pub open spec fn amount_fits(a: Amount, s: nat) -> bool {
    fits_at(a.available, s) && fits_at(a.locked, s)
}

/// An adjustment to make: its amount as a decimal.
#[derive(Clone, Debug)]
pub struct BalanceChange {
    pub user_id: String,
    pub asset: Asset,
    pub amount: Dec,
    pub kind: AmountType,
}

impl View for BalanceChange {
    type V = BalanceUpdate;

    open spec fn view(&self) -> BalanceUpdate {
        BalanceUpdate {
            user: self.user_id@,
            asset: self.asset,
            amount: self.amount.val(),
            kind: self.kind,
        }
    }
}

pub open spec fn changes_view(v: Seq<BalanceChange>) -> Seq<BalanceUpdate> {
    v.map_values(|c: BalanceChange| c@)
}

pub open spec fn changes_fit(v: Seq<BalanceChange>, s: nat) -> bool {
    forall|j: int| 0 <= j < v.len() ==> fits_at(#[trigger] v[j].amount, s)
}

pub proof fn lemma_user_at(users: Seq<UserView>, i: int)
    requires
        users_wf(users),
        0 <= i < users.len(),
    ensures
        has_user(users, users[i].user_id),
        user_at(users, users[i].user_id) == i,
{
    let j = user_at(users, users[i].user_id);
    assert(users[j].user_id == users[i].user_id);
}

pub proof fn lemma_asset_at(assets: Seq<AssetView>, k: int)
    requires
        assets_unique(assets),
        0 <= k < assets.len(),
    ensures
        has_asset(assets, assets[k].asset),
        asset_at(assets, assets[k].asset) == k,
{
    let j = asset_at(assets, assets[k].asset);
    assert(assets[j].asset == assets[k].asset);
}

impl Engine {
    pub open spec fn users(&self) -> Seq<UserView> {
        users_view(self.balances@)
    }

    pub open spec fn wf(&self) -> bool {
        &&& users_wf(self.users())
        &&& forall|b: int| 0 <= b < self.orderbooks@.len() ==> #[trigger] self.orderbooks@[b].wf()
    }

    /// Position of `user_id` among the users.
    pub(crate) fn find_user(&self, user_id: &str) -> (r: Option<usize>)
        requires
            users_wf(self.users()),
        ensures
            r is None <==> !has_user(self.users(), user_id@),
            r matches Some(i) ==> i < self.balances@.len() && i == user_at(self.users(), user_id@),
    {
        let n = self.balances.len();
        let mut i: usize = 0;
        while i < n
            invariant
                n == self.balances@.len(),
                users_wf(self.users()),
                i <= n,
                forall|j: int| 0 <= j < i ==> #[trigger] self.users()[j].user_id != user_id@,
            decreases n - i,
        {
            if crate::text::str_eq(self.balances[i].user_id.as_str(), user_id) {
                proof {
                    assert(self.users()[i as int].user_id == user_id@);
                    lemma_user_at(self.users(), i as int);
                }
                return Some(i);
            }
            proof {
                assert(self.users()[i as int] == self.balances@[i as int]@);
            }
            i = i + 1;
        }
        None
    }
}

/// Position of `asset` in a user's balances.
fn find_asset(balance: &Vec<AssetBalance>, asset: Asset) -> (r: Option<usize>)
    requires
        assets_unique(assets_view(balance@)),
    ensures
        r is None <==> !has_asset(assets_view(balance@), asset),
        r matches Some(k) ==> k < balance@.len() && k == asset_at(assets_view(balance@), asset),
{
    let n = balance.len();
    let mut k: usize = 0;
    while k < n
        invariant
            n == balance@.len(),
            assets_unique(assets_view(balance@)),
            k <= n,
            forall|j: int| 0 <= j < k ==> #[trigger] assets_view(balance@)[j].asset != asset,
        decreases n - k,
    {
        if balance[k].asset == asset {
            proof {
                assert(assets_view(balance@)[k as int].asset == asset);
                lemma_asset_at(assets_view(balance@), k as int);
            }
            return Some(k);
        }
        k = k + 1;
    }
    None
}

impl Engine {
    /// Adjusts one part of one balance by `amount`.
    #[verifier::spinoff_prover]
    fn update_balance_with_lock(
        &mut self,
        user_id: &str,
        asset: Asset,
        amount: Dec,
        amount_type: AmountType,
        Ghost(s): Ghost<nat>,
    ) -> (r: Result<(), EngineError>)
        requires
            old(self).wf(),
            balances_fit(old(self).balances@, s),
            fits_at(amount, s),
            updates_within(
                old(self).users(),
                seq![
                    BalanceUpdate {
                        user: user_id@,
                        asset,
                        amount: amount.val(),
                        kind: amount_type,
                    },
                ],
                s,
            ),
        ensures
            final(self).wf(),
            final(self).orderbooks == old(self).orderbooks,
            balances_fit(final(self).balances@, s),
            forall|t: nat|
                #[trigger] balances_fit(old(self).balances@, t) && fits_at(amount, t) && updates_within(
                    old(self).users(),
                    seq![
                        BalanceUpdate {
                            user: user_id@,
                            asset,
                            amount: amount.val(),
                            kind: amount_type,
                        },
                    ],
                    t,
                ) ==> balances_fit(final(self).balances@, t),
            ({
                let u = BalanceUpdate {
                    user: user_id@,
                    asset,
                    amount: amount.val(),
                    kind: amount_type,
                };
                match apply_update(old(self).users(), u) {
                    Ok(next) => r is Ok && final(self).users() == next,
                    Err(f) => r matches Err(e) && reports(e, f) && final(self).users() == old(
                        self,
                    ).users(),
                }
            }),
    {
        let ghost u = BalanceUpdate { user: user_id@, asset, amount: amount.val(), kind: amount_type };
        let ghost users0 = self.users();
        let ghost exec0 = self.balances@;
        let i = match self.find_user(user_id) {
            Some(i) => i,
            None => {
                return Err(EngineError::UserNotFound(String::from_str(user_id)));
            },
        };
        let k = match find_asset(&self.balances[i].balance, asset) {
            Some(k) => k,
            None => {
                return Err(EngineError::NoBalanceForAsset(asset.to_string()));
            },
        };
        proof {
            assert(users0[i as int] == exec0[i as int]@);
            assert(assets_unique(users0[i as int].assets));
        }
        let mut user = self.balances.remove(i);
        let ghost user0 = user;
        let mut entry = user.balance.remove(k);
        let ghost entry_old = entry;
        proof {
            assert(users0[i as int].assets[k as int] == entry@);
            assert(user_fits(exec0[i as int], s));
            assert(amount_fits(exec0[i as int].balance@[k as int].amount, s));
        }
        match amount_type {
            AmountType::Available => {
                entry.amount.available = add_at(entry.amount.available, amount, Ghost(s));
            },
            AmountType::Locked => {
                entry.amount.locked = add_at(entry.amount.locked, amount, Ghost(s));
            },
        }
        let ghost entry_new = entry;
        assert(fits_at(entry_new.amount.available, s) && fits_at(entry_new.amount.locked, s));
        user.balance.insert(k, entry);
        let ghost user_new = user;
        self.balances.insert(i, user);
        proof {
            let a0 = users0[i as int].assets;
            let na = a0.update(k as int, adjusted(a0[k as int], amount.val(), amount_type));
            assert(assets_view(user_new.balance@) =~= na);
            assert(self.users() =~= users0.update(
                i as int,
                UserView { user_id: users0[i as int].user_id, assets: na },
            ));
            assert(user_new.user_id == user0.user_id);
            assert forall|a: int, b: int|
                0 <= a < na.len() && 0 <= b < na.len() && a != b implies #[trigger] na[a].asset
                != #[trigger] na[b].asset by {
                assert(na[a].asset == a0[a].asset);
                assert(na[b].asset == a0[b].asset);
            }
            let nu = self.users();
            assert forall|a: int, b: int|
                0 <= a < nu.len() && 0 <= b < nu.len() && a != b implies #[trigger] nu[a].user_id
                != #[trigger] nu[b].user_id by {
                assert(nu[a].user_id == users0[a].user_id);
                assert(nu[b].user_id == users0[b].user_id);
            }
            assert forall|a: int| 0 <= a < nu.len() implies #[trigger] assets_unique(nu[a].assets) by {
                if a != i {
                    assert(nu[a] == users0[a]);
                }
            }
            assert forall|a: int| 0 <= a < self.balances@.len() implies #[trigger] user_fits(
                self.balances@[a],
                s,
            ) by {
                if a != i {
                    assert(self.balances@[a] == exec0[a]);
                } else {
                    assert(self.balances@[a] == user_new);
                    assert(user0 == exec0[a]);
                    assert(user_new.balance@ == user0.balance@.remove(k as int).insert(
                        k as int,
                        entry_new,
                    ));
                    assert(user_fits(exec0[a], s));
                    assert forall|b: int| 0 <= b < user_new.balance@.len() implies #[trigger] amount_fits(
                        user_new.balance@[b].amount,
                        s,
                    ) by {
                        if b != k {
                            assert(user_new.balance@[b] == exec0[a].balance@[b]);
                        }
                    }
                }
            }
            assert(balances_fit(self.balances@, s));
            assert forall|t: nat|
                #[trigger] balances_fit(exec0, t) && fits_at(amount, t) && updates_within(
                    users0,
                    seq![u],
                    t,
                ) implies balances_fit(self.balances@, t) by {
                assert(seq![u][0] == u);
                assert(apply_update(users0, u) is Ok);
                assert(user_at(users0, u.user) == i);
                assert(asset_at(users0[i as int].assets, u.asset) == k);
                assert(user_fits(exec0[i as int], t));
                assert(exec0[i as int].balance@[k as int] == entry_old);
                assert(amount_fits(entry_old.amount, t));
                assert(entry_old@ == users0[i as int].assets[k as int]);
                match amount_type {
                    AmountType::Available => {
                        lemma_fits_result(entry_new.amount.available, entry_old.amount.available, amount, t);
                        assert(entry_new.amount.locked == entry_old.amount.locked);
                    },
                    AmountType::Locked => {
                        lemma_fits_result(entry_new.amount.locked, entry_old.amount.locked, amount, t);
                        assert(entry_new.amount.available == entry_old.amount.available);
                    },
                }
                assert forall|a: int| 0 <= a < self.balances@.len() implies #[trigger] user_fits(
                    self.balances@[a],
                    t,
                ) by {
                    if a != i {
                        assert(self.balances@[a] == exec0[a]);
                    } else {
                        assert(self.balances@[a] == user_new);
                        assert(user_fits(exec0[a], t));
                        assert forall|b: int| 0 <= b < user_new.balance@.len() implies #[trigger] amount_fits(
                            user_new.balance@[b].amount,
                            t,
                        ) by {
                            if b != k {
                                assert(user_new.balance@[b] == exec0[a].balance@[b]);
                            } else {
                                assert(user_new.balance@[b] == entry_new);
                            }
                        }
                    }
                }
            }
        }
        Ok(())
    }
}

pub proof fn lemma_within_first(users: Seq<UserView>, ups: Seq<BalanceUpdate>, s: nat)
    requires
        ups.len() > 0,
        updates_within(users, ups, s),
    ensures
        updates_within(users, seq![ups[0]], s),
{
    let one = seq![ups[0]];
    assert(one[0] == ups[0]);
    assert(one.drop_first() =~= Seq::<BalanceUpdate>::empty());
    match apply_update(users, ups[0]) {
        Err(_) => {},
        Ok(next) => {
            assert(updates_within(next, one.drop_first(), s));
        },
    }
}

impl Engine {
    /// Applies the changes in order, stopping at the first that fails.
    #[verifier::spinoff_prover]
    fn apply_changes(&mut self, changes: &Vec<BalanceChange>, Ghost(s): Ghost<nat>) -> (r: Result<
        (),
        EngineError,
    >)
        requires
            old(self).wf(),
            balances_fit(old(self).balances@, s),
            changes_fit(changes@, s),
            updates_within(old(self).users(), changes_view(changes@), s),
        ensures
            final(self).wf(),
            final(self).orderbooks == old(self).orderbooks,
            balances_fit(final(self).balances@, s),
            forall|t: nat|
                #[trigger] balances_fit(old(self).balances@, t) && changes_fit(changes@, t) && updates_within(
                    old(self).users(),
                    changes_view(changes@),
                    t,
                ) ==> balances_fit(final(self).balances@, t),
            final(self).users() == apply_updates(old(self).users(), changes_view(changes@)).0,
            match apply_updates(old(self).users(), changes_view(changes@)).1 {
                None => r is Ok,
                Some(f) => r matches Err(e) && reports(e, f),
            },
    {
        let ghost cv = changes_view(changes@);
        let ghost total = apply_updates(self.users(), cv);
        let n = changes.len();
        let mut j: usize = 0;
        proof {
            assert(cv.skip(0) =~= cv);
        }
        while j < n
            invariant
                n == changes@.len(),
                cv == changes_view(changes@),
                j <= n,
                self.wf(),
                self.orderbooks == old(self).orderbooks,
                balances_fit(self.balances@, s),
                changes_fit(changes@, s),
                total == apply_updates(self.users(), cv.skip(j as int)),
                updates_within(self.users(), cv.skip(j as int), s),
                total == apply_updates(old(self).users(), changes_view(changes@)),
                forall|t: nat|
                    #[trigger] balances_fit(old(self).balances@, t) && changes_fit(changes@, t)
                        && updates_within(old(self).users(), cv, t) ==> balances_fit(self.balances@, t)
                        && updates_within(self.users(), cv.skip(j as int), t),
            decreases n - j,
        {
            let c = &changes[j];
            let ghost users_now = self.users();
            let ghost rest = cv.skip(j as int);
            let ghost upd = BalanceUpdate { user: c.user_id@, asset: c.asset, amount: c.amount.val(), kind: c.kind };
            proof {
                assert(rest[0] == cv[j as int]);
                assert(cv[j as int] == c@);
                assert(rest.drop_first() =~= cv.skip(j + 1));
                assert(seq![upd][0] == upd);
                assert(seq![upd].drop_first() =~= Seq::<BalanceUpdate>::empty());
                assert(fits_at(changes@[j as int].amount, s));
                lemma_within_first(users_now, rest, s);
                assert(upd == rest[0]);
                assert(apply_updates(users_now, rest) == match apply_update(users_now, rest[0]) {
                    Err(f) => (users_now, Some(f)),
                    Ok(next) => apply_updates(next, rest.drop_first()),
                });
            }
            let step = self.update_balance_with_lock(c.user_id.as_str(), c.asset, c.amount, c.kind, Ghost(s));
            proof {
                assert forall|t: nat|
                    #[trigger] balances_fit(old(self).balances@, t) && changes_fit(changes@, t)
                        && updates_within(old(self).users(), cv, t) implies balances_fit(self.balances@, t)
                        && (step is Ok ==> updates_within(self.users(), cv.skip(j + 1), t)) by {
                    assert(updates_within(users_now, rest, t));
                    lemma_within_first(users_now, rest, t);
                    assert(fits_at(changes@[j as int].amount, t));
                    if step is Ok {
                        assert(apply_update(users_now, upd) is Ok);
                        assert(self.users() == apply_update(users_now, upd)->Ok_0);
                    }
                }
            }
            match step {
                Ok(()) => {},
                Err(e) => {
                    proof {
                        assert(apply_update(users_now, upd) is Err);
                        let f = apply_update(users_now, upd)->Err_0;
                        assert(reports(e, f));
                        assert(total == (users_now, Some(f)));
                        assert(self.users() == users_now);
                    }
                    return Err(e);
                },
            }
            j = j + 1;
        }
        proof {
            assert(cv.skip(n as int) =~= Seq::<BalanceUpdate>::empty());
        }
        Ok(())
    }
}

/// The pieces of a market name between underscores.
pub open spec fn market_parts(market: Seq<char>) -> Seq<Seq<char>> {
    split_spec(market, '_')
}

/// The base and quote assets a market name denotes: exactly two symbols
/// joined by an underscore.
pub open spec fn parse_market(market: Seq<char>) -> Option<(Asset, Asset)> {
    let p = market_parts(market);
    if p.len() == 2 && asset_named(p[0]) is Some && asset_named(p[1]) is Some {
        Some((asset_named(p[0])->0, asset_named(p[1])->0))
    } else {
        None
    }
}

/// Why a market name denotes no pair of assets.
pub open spec fn market_failure(market: Seq<char>) -> Failure {
    let p = market_parts(market);
    if p.len() != 2 {
        Failure::InvalidMarketFormat(market)
    } else if asset_named(p[0]) is None {
        Failure::UnsupportedAsset(p[0])
    } else {
        Failure::UnsupportedAsset(p[1])
    }
}

pub open spec fn book_ticker(b: BookView) -> Seq<char> {
    ticker_of(b.asset_pair.base, b.asset_pair.quote)
}

pub open spec fn books_view(v: Seq<OrderBook>) -> Seq<BookView> {
    v.map_values(|b: OrderBook| b@)
}

/// The first book whose ticker is `market`.
pub open spec fn find_book(books: Seq<BookView>, market: Seq<char>) -> Option<int>
    decreases books.len(),
{
    if books.len() == 0 {
        None
    } else if book_ticker(books[0]) == market {
        Some(0)
    } else {
        match find_book(books.drop_first(), market) {
            Some(i) => Some(i + 1),
            None => None,
        }
    }
}

pub proof fn lemma_find_book(books: Seq<BookView>, market: Seq<char>, i: int)
    requires
        0 <= i <= books.len(),
        forall|j: int| 0 <= j < i ==> #[trigger] book_ticker(books[j]) != market,
    ensures
        i == books.len() ==> find_book(books, market) is None,
        i < books.len() && book_ticker(books[i]) == market ==> find_book(books, market) == Some(i),
    decreases i,
{
    if i > 0 {
        let t = books.drop_first();
        assert forall|j: int| 0 <= j < i - 1 implies #[trigger] book_ticker(t[j]) != market by {
            assert(t[j] == books[j + 1]);
        }
        assert(book_ticker(books[0]) != market);
        lemma_find_book(t, market, i - 1);
        if i < books.len() {
            assert(t[i - 1] == books[i]);
        }
    }
}

pub proof fn lemma_find_book_range(books: Seq<BookView>, market: Seq<char>)
    ensures
        find_book(books, market) matches Some(i) ==> 0 <= i < books.len() && book_ticker(books[i])
            == market,
    decreases books.len(),
{
    if books.len() > 0 && book_ticker(books[0]) != market {
        lemma_find_book_range(books.drop_first(), market);
        if let Some(i) = find_book(books.drop_first(), market) {
            assert(books.drop_first()[i] == books[i + 1]);
        }
    }
}

/// The users after giving `user` the balances in `assets`, replacing any
/// it had.
pub open spec fn with_user(users: Seq<UserView>, user: Seq<char>, assets: Seq<AssetView>) -> Seq<
    UserView,
> {
    if has_user(users, user) {
        users.update(user_at(users, user), UserView { user_id: user, assets })
    } else {
        users.push(UserView { user_id: user, assets })
    }
}

/// `k` is the first position in `all` of the order `order_id` of `user`.
pub open spec fn first_order_of(all: Seq<OrderView>, user: Seq<char>, order_id: Seq<char>, k: int) -> bool {
    &&& 0 <= k < all.len()
    &&& is_order_of(all[k], user, order_id)
    &&& forall|j: int| 0 <= j < k ==> !#[trigger] is_order_of(all[j], user, order_id)
}

/// `o` is the first order `order_id` of `user` in `all`.
pub open spec fn is_first_order_of(all: Seq<OrderView>, user: Seq<char>, order_id: Seq<char>, o: OrderView) -> bool {
    exists|k: int| #[trigger] first_order_of(all, user, order_id, k) && all[k] == o
}

/// `all` holds an order `order_id` of `user`.
pub open spec fn has_order_of(all: Seq<OrderView>, user: Seq<char>, order_id: Seq<char>) -> bool {
    exists|k: int| 0 <= k < all.len() && #[trigger] is_order_of(all[k], user, order_id)
}

/// The starting amounts, one million and ten thousand, can be held at any
/// scale up to 22.
pub proof fn lemma_starting_amounts_fit(s: nat)
    requires
        s <= 22,
    ensures
        1000000 * one_units() <= bound_at(s),
        10000 * one_units() <= bound_at(s),
        0 <= bound_at(s),
{
    crate::dec::lemma_pow10_mono(6, (28 - s) as nat);
    assert(pow10(6) == 1000000) by {
        reveal_with_fuel(pow10, 7);
    }
    assert(max_mantissa() * 1000000 <= max_mantissa() * pow10((28 - s) as nat)) by (nonlinear_arith)
        requires
            1000000 <= pow10((28 - s) as nat),
            max_mantissa() > 0,
    ;
}

/// The starting balances of a new user: one million USDC and ten
/// thousand SOL available, nothing locked.
pub open spec fn starting_assets() -> Seq<AssetView> {
    seq![
        AssetView { asset: Asset::Usdc, available: 1000000 * one_units(), locked: 0 },
        AssetView { asset: Asset::Sol, available: 10000 * one_units(), locked: 0 },
    ]
}

impl Engine {
    pub open spec fn books(&self) -> Seq<BookView> {
        books_view(self.orderbooks@)
    }

    pub fn new() -> (e: Engine)
        ensures
            e.books() == Seq::<BookView>::empty(),
            e.users() == Seq::<UserView>::empty(),
            e.wf(),
            forall|s1: nat, s: nat| s1 <= s <= 28 ==> #[trigger] e.fits(s1, s),
    {
        let e = Engine { orderbooks: Vec::new(), balances: Vec::new() };
        proof {
            assert(e.books() =~= Seq::<BookView>::empty());
            assert(e.users() =~= Seq::<UserView>::empty());
        }
        e
    }

    /// Gives `user_id` the balances `balance`, replacing any it had.
    pub(crate) fn put_user(&mut self, user_id: &str, balance: Vec<AssetBalance>)
        requires
            old(self).wf(),
            assets_unique(assets_view(balance@)),
        ensures
            final(self).wf(),
            final(self).orderbooks == old(self).orderbooks,
            final(self).users() == with_user(old(self).users(), user_id@, assets_view(balance@)),
            forall|s: nat|
                balances_fit(old(self).balances@, s) && #[trigger] entries_fit(balance@, s)
                    ==> balances_fit(final(self).balances@, s),
    {
        let ghost users0 = self.users();
        let ghost exec0 = self.balances@;
        let ghost assets = assets_view(balance@);
        let ghost bal0 = balance;
        let entry = UserBalances { user_id: String::from_str(user_id), balance };
        let ghost entry0 = entry;
        match self.find_user(user_id) {
            Some(i) => {
                self.balances.remove(i);
                self.balances.insert(i, entry);
                proof {
                    assert(self.balances@ =~= exec0.update(i as int, entry0));
                    assert(self.users() =~= users0.update(
                        i as int,
                        UserView { user_id: user_id@, assets },
                    ));
                }
            },
            None => {
                self.balances.push(entry);
                proof {
                    assert(self.balances@ =~= exec0.push(entry0));
                    assert(self.users() =~= users0.push(UserView { user_id: user_id@, assets }));
                }
            },
        }
        proof {
            let nu = self.users();
            assert forall|a: int, b: int|
                0 <= a < nu.len() && 0 <= b < nu.len() && a != b implies #[trigger] nu[a].user_id
                != #[trigger] nu[b].user_id by {
                if a < users0.len() && nu[a] != users0[a] {
                    assert(nu[a].user_id == users0[a].user_id);
                }
                if b < users0.len() && nu[b] != users0[b] {
                    assert(nu[b].user_id == users0[b].user_id);
                }
                if a == users0.len() {
                    assert(!has_user(users0, user_id@));
                    assert(nu[b] == users0[b]);
                }
                if b == users0.len() {
                    assert(!has_user(users0, user_id@));
                    assert(nu[a] == users0[a]);
                }
            }
            assert forall|a: int| 0 <= a < nu.len() implies #[trigger] assets_unique(nu[a].assets) by {
                if a < users0.len() && nu[a] != users0[a] {
                    assert(nu[a].assets == assets);
                }
            }
            assert forall|s: nat|
                balances_fit(exec0, s) && #[trigger] entries_fit(bal0@, s) implies balances_fit(
                self.balances@,
                s,
            ) by {
                assert forall|a: int| 0 <= a < self.balances@.len() implies #[trigger] user_fits(
                    self.balances@[a],
                    s,
                ) by {
                    if a < exec0.len() && self.balances@[a] != exec0[a] {
                        assert(self.balances@[a] == entry0);
                    }
                    if a >= exec0.len() {
                        assert(self.balances@[a] == entry0);
                    }
                }
            }
        }
    }

    /// Sets `user_id`'s balance in the entry's asset to the entry; the user
    /// and the asset are added when missing.
    #[verifier::spinoff_prover]
    pub(crate) fn set_balance(&mut self, user_id: &str, entry: AssetBalance)
        requires
            old(self).wf(),
        ensures
            final(self).wf(),
            final(self).orderbooks == old(self).orderbooks,
            final(self).users() == crate::restore::set_entry(old(self).users(), user_id@, entry@),
            forall|s: nat|
                balances_fit(old(self).balances@, s) && #[trigger] amount_fits(entry.amount, s)
                    ==> balances_fit(final(self).balances@, s),
    {
        let ghost users0 = self.users();
        let ghost exec0 = self.balances@;
        match self.find_user(user_id) {
            Some(i) => {
                let mut u = self.balances.remove(i);
                let ghost u0 = u;
                proof {
                    assert(u0 == exec0[i as int]);
                    assert(users0[i as int] == u0@);
                    assert(assets_unique(users0[i as int].assets));
                }
                match find_asset(&u.balance, entry.asset) {
                    Some(k) => {
                        u.balance.remove(k);
                        u.balance.insert(k, entry);
                        proof {
                            assert(u.balance@ =~= u0.balance@.update(k as int, entry));
                            assert(assets_view(u.balance@) =~= assets_view(u0.balance@).update(
                                k as int,
                                entry@,
                            ));
                        }
                    },
                    None => {
                        u.balance.push(entry);
                        proof {
                            assert(assets_view(u.balance@) =~= assets_view(u0.balance@).push(entry@));
                        }
                    },
                }
                let ghost u1 = u;
                self.balances.insert(i, u);
                proof {
                    assert(self.balances@ =~= exec0.update(i as int, u1));
                    let a0 = users0[i as int].assets;
                    let na = assets_view(u1.balance@);
                    assert(self.users() =~= users0.update(
                        i as int,
                        UserView { user_id: user_id@, assets: na },
                    ));
                    assert(self.users() == crate::restore::set_entry(users0, user_id@, entry@));
                    assert forall|a: int, b: int|
                        0 <= a < na.len() && 0 <= b < na.len() && a != b implies #[trigger] na[a].asset
                        != #[trigger] na[b].asset by {
                        if a < a0.len() && b < a0.len() {
                            if na[a] != a0[a] {
                                lemma_asset_at(a0, b);
                            }
                            if na[b] != a0[b] {
                                lemma_asset_at(a0, a);
                            }
                        }
                        if a >= a0.len() {
                            assert(!has_asset(a0, entry.asset));
                            assert(na[b] == a0[b]);
                        }
                        if b >= a0.len() {
                            assert(!has_asset(a0, entry.asset));
                            assert(na[a] == a0[a]);
                        }
                    }
                    let nu = self.users();
                    assert forall|a: int, b: int|
                        0 <= a < nu.len() && 0 <= b < nu.len() && a != b implies #[trigger] nu[a].user_id
                        != #[trigger] nu[b].user_id by {
                        assert(nu[a].user_id == users0[a].user_id);
                        assert(nu[b].user_id == users0[b].user_id);
                    }
                    assert forall|a: int| 0 <= a < nu.len() implies #[trigger] assets_unique(nu[a].assets) by {
                        if a != i {
                            assert(nu[a] == users0[a]);
                        }
                    }
                    assert forall|s: nat|
                        balances_fit(exec0, s) && #[trigger] amount_fits(entry.amount, s) implies balances_fit(
                        self.balances@,
                        s,
                    ) by {
                        assert(user_fits(u0, s));
                        assert forall|a: int| 0 <= a < self.balances@.len() implies #[trigger] user_fits(
                            self.balances@[a],
                            s,
                        ) by {
                            if a != i {
                                assert(self.balances@[a] == exec0[a]);
                            } else {
                                assert forall|k: int| 0 <= k < u1.balance@.len() implies #[trigger] amount_fits(
                                    u1.balance@[k].amount,
                                    s,
                                ) by {
                                    if k < u0.balance@.len() && u1.balance@[k] != u0.balance@[k] {
                                        assert(u1.balance@[k] == entry);
                                    }
                                    if k >= u0.balance@.len() {
                                        assert(u1.balance@[k] == entry);
                                    }
                                }
                            }
                        }
                    }
                }
            },
            None => {
                let mut v: Vec<AssetBalance> = Vec::new();
                v.push(entry);
                let nu_entry = UserBalances { user_id: String::from_str(user_id), balance: v };
                let ghost e1 = nu_entry;
                self.balances.push(nu_entry);
                proof {
                    assert(self.balances@ =~= exec0.push(e1));
                    assert(assets_view(e1.balance@) =~= seq![entry@]);
                    assert(self.users() =~= users0.push(
                        UserView { user_id: user_id@, assets: seq![entry@] },
                    ));
                    let nu = self.users();
                    assert forall|a: int, b: int|
                        0 <= a < nu.len() && 0 <= b < nu.len() && a != b implies #[trigger] nu[a].user_id
                        != #[trigger] nu[b].user_id by {
                        if a == users0.len() {
                            assert(nu[b] == users0[b]);
                        }
                        if b == users0.len() {
                            assert(nu[a] == users0[a]);
                        }
                    }
                    assert forall|a: int| 0 <= a < nu.len() implies #[trigger] assets_unique(nu[a].assets) by {
                        if a < users0.len() {
                            assert(nu[a] == users0[a]);
                        }
                    }
                    assert forall|s: nat|
                        balances_fit(exec0, s) && #[trigger] amount_fits(entry.amount, s) implies balances_fit(
                        self.balances@,
                        s,
                    ) by {
                        assert forall|a: int| 0 <= a < self.balances@.len() implies #[trigger] user_fits(
                            self.balances@[a],
                            s,
                        ) by {
                            if a < exec0.len() {
                                assert(self.balances@[a] == exec0[a]);
                            } else {
                                assert(self.balances@[a] == e1);
                                assert(e1.balance@[0] == entry);
                            }
                        }
                    }
                }
            },
        }
    }

    /// Gives `user_id` the starting balances, replacing any it had.
    /// Those balances fit at every scale up to 22.
    pub fn init_user_balance(&mut self, user_id: &str)
        requires
            old(self).wf(),
        ensures
            final(self).wf(),
            final(self).orderbooks == old(self).orderbooks,
            final(self).users() == with_user(old(self).users(), user_id@, starting_assets()),
            forall|s: nat|
                #[trigger] balances_fit(old(self).balances@, s) && s <= 22 ==> balances_fit(
                    final(self).balances@,
                    s,
                ),
    {
        let mut balance: Vec<AssetBalance> = Vec::new();
        balance.push(
            AssetBalance {
                asset: Asset::Usdc,
                amount: Amount { available: Dec::from_int(1000000), locked: Dec::zero() },
            },
        );
        balance.push(
            AssetBalance {
                asset: Asset::Sol,
                amount: Amount { available: Dec::from_int(10000), locked: Dec::zero() },
            },
        );
        proof {
            assert(assets_view(balance@) =~= starting_assets());
            assert forall|s: nat| s <= 22 implies #[trigger] entries_fit(balance@, s) by {
                lemma_starting_amounts_fit(s);
                assert(balance@[0].amount.available.val() == 1000000 * one_units());
                assert(balance@[1].amount.available.val() == 10000 * one_units());
                assert forall|k: int| 0 <= k < balance@.len() implies #[trigger] amount_fits(
                    balance@[k].amount,
                    s,
                ) by {}
            }
        }
        let ghost bal = balance@;
        self.put_user(user_id, balance);
        proof {
            assert forall|s: nat| #[trigger] balances_fit(old(self).balances@, s) && s <= 22 implies balances_fit(
                self.balances@,
                s,
            ) by {
                assert(entries_fit(bal, s));
            }
        }
    }

    /// The base and quote assets of a market name such as `SOL_USDC`.
    pub fn parse_market_assets(market: &str) -> (r: Result<(Asset, Asset), EngineError>)
        ensures
            match parse_market(market@) {
                Some(pair) => r == Ok::<(Asset, Asset), EngineError>(pair),
                None => r matches Err(e) && reports(e, market_failure(market@)),
            },
    {
        let parts = split_char(market, '_');
        if parts.len() != 2 {
            return Err(EngineError::InvalidMarketFormat(String::from_str(market)));
        }
        proof {
            assert(parts@[0]@ == market_parts(market@)[0]);
            assert(parts@[1]@ == market_parts(market@)[1]);
        }
        let base = match Asset::from_str(parts[0].as_str()) {
            Ok(a) => a,
            Err(_) => {
                return Err(EngineError::UnsupportedAsset(parts[0].clone()));
            },
        };
        let quote = match Asset::from_str(parts[1].as_str()) {
            Ok(a) => a,
            Err(_) => {
                return Err(EngineError::UnsupportedAsset(parts[1].clone()));
            },
        };
        Ok((base, quote))
    }

    /// Position of the first book whose ticker is `market`.
    pub(crate) fn find_orderbook(&self, market: &str) -> (r: Result<usize, EngineError>)
        ensures
            match r {
                Ok(i) => find_book(self.books(), market@) == Some(i as int) && i
                    < self.orderbooks@.len(),
                Err(e) => find_book(self.books(), market@) is None && (e matches EngineError::OrderBookNotFound(m)
                    && m@ == market@),
            },
    {
        let n = self.orderbooks.len();
        let mut i: usize = 0;
        while i < n
            invariant
                n == self.orderbooks@.len(),
                i <= n,
                forall|j: int| 0 <= j < i ==> #[trigger] book_ticker(self.books()[j]) != market@,
            decreases n - i,
        {
            let t = self.orderbooks[i].ticker();
            proof {
                assert(self.books()[i as int] == self.orderbooks@[i as int]@);
            }
            if crate::text::str_eq(t.as_str(), market) {
                proof {
                    lemma_find_book(self.books(), market@, i as int);
                }
                return Ok(i);
            }
            i = i + 1;
        }
        proof {
            lemma_find_book(self.books(), market@, n as int);
        }
        Err(EngineError::OrderBookNotFound(String::from_str(market)))
    }

    /// The available balance of `user_id` in `asset`, if it holds one.
    pub fn get_available_balance(&self, user_id: &str, asset: &Asset) -> (r: Option<Dec>)
        requires
            self.wf(),
        ensures
            match balance_of(self.users(), user_id@, *asset) {
                Some(a) => r matches Some(d) && d.val() == a.available,
                None => r is None,
            },
    {
        let i = match self.find_user(user_id) {
            Some(i) => i,
            None => return None,
        };
        proof {
            assert(self.users()[i as int] == self.balances@[i as int]@);
        }
        let k = match find_asset(&self.balances[i].balance, *asset) {
            Some(k) => k,
            None => return None,
        };
        Some(self.balances[i].balance[k].amount.available)
    }

    /// The locked balance of `user_id` in `asset`, if it holds one.
    pub fn get_locked_balance(&self, user_id: &str, asset: &Asset) -> (r: Option<Dec>)
        requires
            self.wf(),
        ensures
            match balance_of(self.users(), user_id@, *asset) {
                Some(a) => r matches Some(d) && d.val() == a.locked,
                None => r is None,
            },
    {
        let i = match self.find_user(user_id) {
            Some(i) => i,
            None => return None,
        };
        proof {
            assert(self.users()[i as int] == self.balances@[i as int]@);
        }
        let k = match find_asset(&self.balances[i].balance, *asset) {
            Some(k) => k,
            None => return None,
        };
        Some(self.balances[i].balance[k].amount.locked)
    }

    /// A copy of the open order `order_id` of `user_id` in the market.
    pub fn get_open_order(&self, open_order: GetOpenOrder) -> (r: Result<Order, EngineError>)
        ensures
            match find_book(self.books(), open_order.market@) {
                None => r matches Err(EngineError::OrderBookNotFound(m)) && m@
                    == open_order.market@,
                Some(b) => match r {
                    Ok(o) => is_first_order_of(
                        book_orders(self.books()[b]),
                        open_order.user_id@,
                        open_order.order_id@,
                        o@,
                    ),
                    Err(e) => e is OrderNotFound && !has_order_of(
                        book_orders(self.books()[b]),
                        open_order.user_id@,
                        open_order.order_id@,
                    ),
                },
            },
    {
        let b = match self.find_orderbook(open_order.market.as_str()) {
            Ok(b) => b,
            Err(e) => return Err(e),
        };
        proof {
            assert(self.books()[b as int] == self.orderbooks@[b as int]@);
        }
        let ghost all = book_orders(self.books()[b as int]);
        let ghost u = open_order.user_id@;
        let ghost id = open_order.order_id@;
        match self.orderbooks[b].get_open_order(
            open_order.user_id.as_str(),
            open_order.order_id.as_str(),
        ) {
            Some(o) => {
                let c = o.duplicate();
                proof {
                    let k = choose|k: int|
                        0 <= k < all.len() && all[k] == o@ && is_order_of(o@, u, id) && forall|
                            j: int,
                        | 0 <= j < k ==> !#[trigger] is_order_of(all[j], u, id);
                    assert(first_order_of(all, u, id, k));
                }
                Ok(c)
            },
            None => Err(EngineError::OrderNotFound),
        }
    }

    /// Copies of the open orders of a user in a market; none when the
    /// market has no book.
    pub fn get_open_orders(&self, open_orders: GetOpenOrders) -> (r: Vec<Order>)
        ensures
            match find_book(self.books(), open_orders.market@) {
                None => r@.len() == 0,
                Some(b) => orders_view(r@) == orders_of_user(
                    book_orders(self.books()[b]),
                    open_orders.user_id@,
                ),
            },
    {
        let b = match self.find_orderbook(open_orders.market.as_str()) {
            Ok(b) => b,
            Err(_) => return Vec::new(),
        };
        proof {
            assert(self.books()[b as int] == self.orderbooks@[b as int]@);
        }
        let refs = self.orderbooks[b].get_open_orders(open_orders.user_id.as_str());
        let mut out: Vec<Order> = Vec::new();
        let n = refs.len();
        let mut j: usize = 0;
        while j < n
            invariant
                n == refs@.len(),
                j <= n,
                orders_view(out@) == refs_view(refs@).take(j as int),
            decreases n - j,
        {
            let ghost before = orders_view(out@);
            let o = refs[j].duplicate();
            out.push(o);
            proof {
                assert(o@ == refs_view(refs@)[j as int]);
                assert(orders_view(out@) =~= before.push(o@));
                assert(refs_view(refs@).take(j + 1) =~= refs_view(refs@).take(j as int).push(
                    refs_view(refs@)[j as int],
                ));
            }
            j = j + 1;
        }
        proof {
            assert(refs_view(refs@).take(n as int) =~= refs_view(refs@));
        }
        out
    }

    /// The depth of a market; empty when it has no book.
    pub fn get_depth(&self, depth: GetDepth) -> (r: (Vec<(Dec, Dec)>, Vec<(Dec, Dec)>))
        requires
            self.wf(),
            forall|b: int| 0 <= b < self.orderbooks@.len() ==> #[trigger] self.orderbooks@[b].depth_fits(),
        ensures
            match find_book(self.books(), depth.symbol@) {
                None => r.0@.len() == 0 && r.1@.len() == 0,
                Some(b) => depth_view(r.0@) == depth_of(self.books()[b].bids) && depth_view(r.1@)
                    == depth_of(self.books()[b].asks),
            },
    {
        let b = match self.find_orderbook(depth.symbol.as_str()) {
            Ok(b) => b,
            Err(_) => return (Vec::new(), Vec::new()),
        };
        proof {
            assert(self.books()[b as int] == self.orderbooks@[b as int]@);
            assert(self.orderbooks@[b as int].wf());
        }
        self.orderbooks[b].get_depth()
    }
}

} // verus!

verus! {

/// The ghost view of a request for a new order.
pub struct CreateOrderView {
    pub market: Seq<char>,
    pub price: int,
    pub quantity: int,
    pub side: OrderSide,
    pub user_id: Seq<char>,
}

impl View for CreateOrder {
    type V = CreateOrderView;

    open spec fn view(&self) -> CreateOrderView {
        CreateOrderView {
            market: self.market@,
            price: self.price.val(),
            quantity: self.quantity.val(),
            side: self.side,
            user_id: self.user_id@,
        }
    }
}

/// The asset an order locks while it rests, and how much of it: the
/// quote asset for the full price of a buy, the base quantity of a sell.
pub open spec fn lock_of(o: CreateOrderView, base: Asset, quote: Asset) -> (Asset, int) {
    match o.side {
        OrderSide::Buy => (quote, product_value(o.price, o.quantity)),
        OrderSide::Sell => (base, o.quantity),
    }
}

/// Moves `amount` of `asset` from available to locked.
pub open spec fn lock_updates(user: Seq<char>, asset: Asset, amount: int) -> Seq<BalanceUpdate> {
    seq![
        BalanceUpdate { user, asset, amount: -amount, kind: AmountType::Available },
        BalanceUpdate { user, asset, amount, kind: AmountType::Locked },
    ]
}

/// Moves `amount` of `asset` from locked back to available.
pub open spec fn unlock_updates(user: Seq<char>, asset: Asset, amount: int) -> Seq<BalanceUpdate> {
    seq![
        BalanceUpdate { user, asset, amount, kind: AmountType::Available },
        BalanceUpdate { user, asset, amount: -amount, kind: AmountType::Locked },
    ]
}

/// What locking the funds of order `o` does to the balances, or why it
/// is refused: the market must name two assets, the user must exist and
/// hold the asset to lock, and have at least the amount available.
pub open spec fn lock_result(users: Seq<UserView>, o: CreateOrderView) -> Result<
    Seq<UserView>,
    Failure,
> {
    match parse_market(o.market) {
        None => Err(market_failure(o.market)),
        Some(pair) => {
            let asset = lock_of(o, pair.0, pair.1).0;
            let amount = lock_of(o, pair.0, pair.1).1;
            if !has_user(users, o.user_id) {
                Err(Failure::UserNotFound(o.user_id))
            } else if balance_of(users, o.user_id, asset) is None {
                Err(Failure::NoBalanceForAsset(asset_symbol(asset)))
            } else if balance_of(users, o.user_id, asset)->0.available < amount {
                Err(Failure::InsufficientFunds)
            } else {
                Ok(apply_updates(users, lock_updates(o.user_id, asset, amount)).0)
            }
        },
    }
}

/// The amounts locking `o` moves stay within the bound at scale `s`.
pub open spec fn lock_within(users: Seq<UserView>, o: CreateOrderView, s: nat) -> bool {
    match parse_market(o.market) {
        None => true,
        Some(pair) => {
            let asset = lock_of(o, pair.0, pair.1).0;
            let amount = lock_of(o, pair.0, pair.1).1;
            &&& -bound_at(s) <= amount <= bound_at(s)
            &&& updates_within(users, lock_updates(o.user_id, asset, amount), s)
        },
    }
}

/// The same users in the same order, holding the same assets in the same
/// order.
pub open spec fn same_keys(a: Seq<UserView>, b: Seq<UserView>) -> bool {
    &&& a.len() == b.len()
    &&& forall|i: int| 0 <= i < a.len() ==> #[trigger] b[i].user_id == a[i].user_id
    &&& forall|i: int| 0 <= i < a.len() ==> #[trigger] b[i].assets.len() == a[i].assets.len()
    &&& forall|i: int, k: int|
        0 <= i < a.len() && 0 <= k < a[i].assets.len() ==> #[trigger] b[i].assets[k].asset
            == a[i].assets[k].asset
}

pub proof fn lemma_same_keys(a: Seq<UserView>, b: Seq<UserView>, user: Seq<char>, asset: Asset)
    requires
        users_wf(a),
        same_keys(a, b),
    ensures
        users_wf(b),
        has_user(b, user) == has_user(a, user),
        has_user(a, user) ==> user_at(b, user) == user_at(a, user),
        has_user(a, user) ==> has_asset(b[user_at(a, user)].assets, asset) == has_asset(
            a[user_at(a, user)].assets,
            asset,
        ),
        has_user(a, user) && has_asset(a[user_at(a, user)].assets, asset) ==> asset_at(
            b[user_at(a, user)].assets,
            asset,
        ) == asset_at(a[user_at(a, user)].assets, asset),
{
    assert forall|i: int, j: int|
        0 <= i < b.len() && 0 <= j < b.len() && i != j implies #[trigger] b[i].user_id
        != #[trigger] b[j].user_id by {
        assert(a[i].user_id != a[j].user_id);
    }
    assert forall|i: int| 0 <= i < b.len() implies #[trigger] assets_unique(b[i].assets) by {
        assert(assets_unique(a[i].assets));
        assert forall|x: int, y: int|
            0 <= x < b[i].assets.len() && 0 <= y < b[i].assets.len() && x != y implies #[trigger] b[i].assets[x].asset
            != #[trigger] b[i].assets[y].asset by {
            assert(a[i].assets[x].asset != a[i].assets[y].asset);
        }
    }
    if has_user(a, user) {
        let i = user_at(a, user);
        assert(b[i].user_id == user);
        lemma_user_at(b, i);
        if has_asset(a[i].assets, asset) {
            let k = asset_at(a[i].assets, asset);
            assert(b[i].assets[k].asset == asset);
            lemma_asset_at(b[i].assets, k);
        }
        if has_asset(b[i].assets, asset) {
            let k = asset_at(b[i].assets, asset);
            assert(a[i].assets[k].asset == asset);
        }
    } else {
        if has_user(b, user) {
            let i = user_at(b, user);
            assert(a[i].user_id == user);
        }
    }
}

/// An adjustment that applies keeps users and assets where they were.
pub proof fn lemma_apply_update_keys(users: Seq<UserView>, u: BalanceUpdate)
    requires
        users_wf(users),
        has_user(users, u.user),
        has_asset(users[user_at(users, u.user)].assets, u.asset),
    ensures
        apply_update(users, u) is Ok,
        same_keys(users, apply_update(users, u)->Ok_0),
        users_wf(apply_update(users, u)->Ok_0),
{
    let next = apply_update(users, u)->Ok_0;
    let i = user_at(users, u.user);
    let k = asset_at(users[i].assets, u.asset);
    assert forall|x: int, y: int|
        0 <= x < users.len() && 0 <= y < users[x].assets.len() implies #[trigger] next[x].assets[y].asset
        == users[x].assets[y].asset by {
        if x == i && y == k {
        }
    }
    lemma_same_keys(users, next, u.user, u.asset);
}

/// Locking applies both of its adjustments when the user holds the asset.
pub proof fn lemma_two_updates_apply(users: Seq<UserView>, ups: Seq<BalanceUpdate>)
    requires
        users_wf(users),
        ups.len() == 2,
        ups[0].user == ups[1].user,
        ups[0].asset == ups[1].asset,
        has_user(users, ups[0].user),
        has_asset(users[user_at(users, ups[0].user)].assets, ups[0].asset),
    ensures
        apply_updates(users, ups).1 is None,
        apply_updates(users, ups).0 == apply_update(
            apply_update(users, ups[0])->Ok_0,
            ups[1],
        )->Ok_0,
        users_wf(apply_updates(users, ups).0),
        same_keys(users, apply_updates(users, ups).0),
{
    lemma_apply_update_keys(users, ups[0]);
    let n1 = apply_update(users, ups[0])->Ok_0;
    lemma_same_keys(users, n1, ups[0].user, ups[0].asset);
    lemma_apply_update_keys(n1, ups[1]);
    let n2 = apply_update(n1, ups[1])->Ok_0;
    let rest = ups.drop_first();
    assert(rest[0] == ups[1]);
    assert(rest.drop_first() =~= Seq::<BalanceUpdate>::empty());
    assert(apply_updates(n2, rest.drop_first()) == (n2, None::<Failure>));
    assert(apply_updates(n1, rest) == apply_updates(n2, rest.drop_first()));
    assert(apply_updates(users, ups) == apply_updates(n1, rest));
    assert forall|i: int| 0 <= i < users.len() implies #[trigger] n2[i].user_id == users[i].user_id by {
        assert(n1[i].user_id == users[i].user_id);
    }
    assert forall|i: int| 0 <= i < users.len() implies #[trigger] n2[i].assets.len() == users[i].assets.len() by {
        assert(n1[i].assets.len() == users[i].assets.len());
    }
    assert forall|i: int, k: int|
        0 <= i < users.len() && 0 <= k < users[i].assets.len() implies #[trigger] n2[i].assets[k].asset
        == users[i].assets[k].asset by {
        assert(n1[i].assets.len() == users[i].assets.len());
        assert(n1[i].assets[k].asset == users[i].assets[k].asset);
    }
}

/// Locking funds for `o` gets as far as computing an amount: its market
/// names two assets and its user holds the asset to lock.
pub open spec fn lock_reaches_amounts(users: Seq<UserView>, o: CreateOrderView) -> bool {
    match parse_market(o.market) {
        None => false,
        Some(pair) => balance_of(users, o.user_id, lock_of(o, pair.0, pair.1).0) is Some,
    }
}

impl Engine {
    /// Locks the funds an order needs, when amounts fit at the scales given.
    #[verifier::spinoff_prover]
    fn lock_funds_at(&mut self, order: &CreateOrder, Ghost(s1): Ghost<nat>, Ghost(s): Ghost<nat>) -> (r:
        Result<(), EngineError>)
        requires
            old(self).wf(),
            lock_reaches_amounts(old(self).users(), order@) ==> {
                &&& balances_fit(old(self).balances@, s)
                &&& s1 <= s <= 28
                &&& fits_at(order.price, (s - s1) as nat)
                &&& fits_at(order.quantity, s1)
                &&& lock_within(old(self).users(), order@, s)
            },
        ensures
            final(self).wf(),
            final(self).orderbooks == old(self).orderbooks,
            forall|t1: nat, t: nat|
                #[trigger] balances_fit(old(self).balances@, t) && t1 <= t <= 28 && fits_at(
                    order.price,
                    (t - t1) as nat,
                ) && #[trigger] fits_at(order.quantity, t1) && lock_within(old(self).users(), order@, t)
                    ==> balances_fit(final(self).balances@, t),
            match lock_result(old(self).users(), order@) {
                Ok(users) => r is Ok && final(self).users() == users,
                Err(f) => r matches Err(e) && reports(e, f) && final(self).users() == old(
                    self,
                ).users(),
            },
    {
        let ghost users0 = self.users();
        let (base, quote) = match Self::parse_market_assets(order.market.as_str()) {
            Ok(p) => p,
            Err(e) => return Err(e),
        };
        let i = match self.find_user(order.user_id.as_str()) {
            Some(i) => i,
            None => return Err(EngineError::UserNotFound(order.user_id.clone())),
        };
        let asset = match order.side {
            OrderSide::Buy => quote,
            OrderSide::Sell => base,
        };
        proof {
            assert(users0[i as int] == self.balances@[i as int]@);
            assert(asset == lock_of(order@, base, quote).0);
        }
        let k = match find_asset(&self.balances[i].balance, asset) {
            Some(k) => k,
            None => return Err(EngineError::NoBalanceForAsset(asset.to_string())),
        };
        let amount = match order.side {
            OrderSide::Buy => mul_at(order.price, order.quantity, Ghost((s - s1) as nat), Ghost(s1), Ghost(s)),
            OrderSide::Sell => {
                proof {
                    crate::dec::lemma_bound_at_anti(s1, s);
                }
                order.quantity
            },
        };
        proof {
            assert(amount.val() == lock_of(order@, base, quote).1);
            assert(self.balances@[i as int].balance@[k as int]@ == users0[i as int].assets[k as int]);
        }
        if !amount.le(&self.balances[i].balance[k].amount.available) {
            return Err(EngineError::InsufficientFunds);
        }
        let changes = vec![
            BalanceChange {
                user_id: order.user_id.clone(),
                asset,
                amount: amount.neg(),
                kind: AmountType::Available,
            },
            BalanceChange {
                user_id: order.user_id.clone(),
                asset,
                amount,
                kind: AmountType::Locked,
            },
        ];
        let ghost ups = lock_updates(order.user_id@, asset, amount.val());
        proof {
            assert(changes_view(changes@) =~= ups);
            lemma_two_updates_apply(users0, ups);
            assert forall|t1: nat, t: nat|
                #[trigger] balances_fit(old(self).balances@, t) && t1 <= t <= 28 && fits_at(
                    order.price,
                    (t - t1) as nat,
                ) && #[trigger] fits_at(order.quantity, t1) && lock_within(old(self).users(), order@, t)
                implies changes_fit(changes@, t) by {
                assert(amount.val() == lock_of(order@, base, quote).1);
                assert(amount.spec_scale() <= t);
                assert(fits_at(amount, t));
                assert(changes@[0].amount.spec_scale() == amount.spec_scale());
                assert(changes@[0].amount.val() == -amount.val());
                assert(changes@[1].amount == amount);
            }
        }
        let r = self.apply_changes(&changes, Ghost(s));
        proof {
            assert forall|t1: nat, t: nat|
                #[trigger] balances_fit(old(self).balances@, t) && t1 <= t <= 28 && fits_at(
                    order.price,
                    (t - t1) as nat,
                ) && #[trigger] fits_at(order.quantity, t1) && lock_within(old(self).users(), order@, t)
                implies balances_fit(self.balances@, t) by {
                assert(changes_fit(changes@, t));
                assert(updates_within(users0, changes_view(changes@), t));
            }
        }
        r
    }

    /// Locks the funds an order needs: the full price in the quote asset
    /// for a buy, the quantity of the base asset for a sell.
    pub fn check_and_lock_funds(&mut self, order: &CreateOrder) -> (r: Result<(), EngineError>)
        requires
            old(self).wf(),
            lock_reaches_amounts(old(self).users(), order@) ==> exists|s1: nat, s: nat|
                balances_fit(old(self).balances@, s) && s1 <= s <= 28 && fits_at(order.price, (s - s1) as nat) && fits_at(order.quantity, s1) && lock_within(old(self).users(), order@, s),
        ensures
            final(self).wf(),
            final(self).orderbooks == old(self).orderbooks,
            match lock_result(old(self).users(), order@) {
                Ok(users) => r is Ok && final(self).users() == users,
                Err(f) => r matches Err(e) && reports(e, f) && final(self).users() == old(
                    self,
                ).users(),
            },
            forall|t1: nat, t: nat|
                #[trigger] balances_fit(old(self).balances@, t) && t1 <= t <= 28 && fits_at(
                    order.price,
                    (t - t1) as nat,
                ) && #[trigger] fits_at(order.quantity, t1) && lock_within(old(self).users(), order@, t)
                    ==> balances_fit(final(self).balances@, t),
    {
        let ghost (s1, s) = choose|s1: nat, s: nat|
            balances_fit(self.balances@, s) && s1 <= s <= 28 && fits_at(order.price, (s - s1) as nat)
                && fits_at(order.quantity, s1) && lock_within(self.users(), order@, s);
        self.lock_funds_at(order, Ghost(s1), Ghost(s))
    }
}

/// The adjustments settling one fill of a taker's order: each side
/// receives what it bought as available funds and gives up, from its
/// locked funds, what it paid; the maker is the fill's other user.
pub open spec fn fill_update(
    taker: Seq<char>,
    side: OrderSide,
    base: Asset,
    quote: Asset,
    f: FillView,
) -> Seq<BalanceUpdate> {
    let q = f.quantity;
    let qa = product_value(f.price, f.quantity);
    let maker = f.other_user_id;
    match side {
        OrderSide::Buy => seq![
            BalanceUpdate { user: taker, asset: base, amount: q, kind: AmountType::Available },
            BalanceUpdate { user: taker, asset: quote, amount: -qa, kind: AmountType::Locked },
            BalanceUpdate { user: maker, asset: quote, amount: qa, kind: AmountType::Available },
            BalanceUpdate { user: maker, asset: base, amount: -q, kind: AmountType::Locked },
        ],
        OrderSide::Sell => seq![
            BalanceUpdate { user: taker, asset: base, amount: -q, kind: AmountType::Locked },
            BalanceUpdate { user: taker, asset: quote, amount: qa, kind: AmountType::Available },
            BalanceUpdate { user: maker, asset: base, amount: q, kind: AmountType::Available },
            BalanceUpdate { user: maker, asset: quote, amount: -qa, kind: AmountType::Locked },
        ],
    }
}

/// The adjustments settling all fills, in order.
pub open spec fn fill_updates(
    taker: Seq<char>,
    side: OrderSide,
    base: Asset,
    quote: Asset,
    fills: Seq<FillView>,
) -> Seq<BalanceUpdate>
    decreases fills.len(),
{
    if fills.len() == 0 {
        Seq::empty()
    } else {
        fill_updates(taker, side, base, quote, fills.drop_last()) + fill_update(
            taker,
            side,
            base,
            quote,
            fills.last(),
        )
    }
}

/// Each fill's quantity and price in the quote asset stay within the
/// bound at scale `s`.
pub open spec fn fills_within(fills: Seq<FillView>, s: nat) -> bool {
    forall|k: int|
        0 <= k < fills.len() ==> -bound_at(s) <= #[trigger] fills[k].quantity <= bound_at(s)
            && -bound_at(s) <= product_value(fills[k].price, fills[k].quantity) <= bound_at(s)
}

/// The balance changes settling `fills`.
#[verifier::spinoff_prover]
fn fill_changes(
    taker: &String,
    side: OrderSide,
    base: Asset,
    quote: Asset,
    fills: &Vec<Fill>,
    Ghost(s1): Ghost<nat>,
    Ghost(s): Ghost<nat>,
) -> (v: Vec<BalanceChange>)
    requires
        s1 <= s <= 28,
        fills_fit(fills@, s1),
        fills_prices_fit(fills@, (s - s1) as nat),
        fills_within(fills_view(fills@), s),
    ensures
        changes_view(v@) == fill_updates(taker@, side, base, quote, fills_view(fills@)),
        changes_fit(v@, s),
        forall|t1: nat, t: nat|
            #![trigger fills_fit(fills@, t1), fills_within(fills_view(fills@), t)]
            t1 <= t <= 28 && fills_fit(fills@, t1) && fills_prices_fit(fills@, (t - t1) as nat)
                && fills_within(fills_view(fills@), t) ==> changes_fit(
                v@,
                t,
            ),
{
    let ghost fv = fills_view(fills@);
    let mut v: Vec<BalanceChange> = Vec::new();
    let n = fills.len();
    let mut j: usize = 0;
    proof {
        assert(fv.take(0) =~= Seq::<FillView>::empty());
        assert(changes_view(v@) =~= Seq::<BalanceUpdate>::empty());
        crate::dec::lemma_bound_at_anti(s1, s);
    }
    while j < n
        invariant
            n == fills@.len(),
            fv == fills_view(fills@),
            j <= n,
            s1 <= s <= 28,
            fills_fit(fills@, s1),
            fills_prices_fit(fills@, (s - s1) as nat),
            fills_within(fv, s),
            changes_view(v@) == fill_updates(taker@, side, base, quote, fv.take(j as int)),
            changes_fit(v@, s),
            forall|t1: nat, t: nat|
                #![trigger fills_fit(fills@, t1), fills_within(fv, t)]
                t1 <= t <= 28 && fills_fit(fills@, t1) && fills_prices_fit(fills@, (t - t1) as nat)
                    && fills_within(fv, t) ==> changes_fit(v@, t),
        decreases n - j,
    {
        let f = &fills[j];
        proof {
            assert(fv[j as int] == f@);
            assert(-bound_at(s) <= fv[j as int].quantity <= bound_at(s));
            assert(fits_at(fills@[j as int].price, (s - s1) as nat) && fits_at(fills@[j as int].quantity, s1));
            crate::dec::lemma_bound_at_anti(s1, s);
        }
        let qa = mul_at(f.price, f.quantity, Ghost((s - s1) as nat), Ghost(s1), Ghost(s));
        let q = f.quantity;
        let ghost before = v@;
        match side {
            OrderSide::Buy => {
                v.push(BalanceChange { user_id: taker.clone(), asset: base, amount: q, kind: AmountType::Available });
                v.push(BalanceChange { user_id: taker.clone(), asset: quote, amount: qa.neg(), kind: AmountType::Locked });
                v.push(BalanceChange { user_id: f.other_user_id.clone(), asset: quote, amount: qa, kind: AmountType::Available });
                v.push(BalanceChange { user_id: f.other_user_id.clone(), asset: base, amount: q.neg(), kind: AmountType::Locked });
            },
            OrderSide::Sell => {
                v.push(BalanceChange { user_id: taker.clone(), asset: base, amount: q.neg(), kind: AmountType::Locked });
                v.push(BalanceChange { user_id: taker.clone(), asset: quote, amount: qa, kind: AmountType::Available });
                v.push(BalanceChange { user_id: f.other_user_id.clone(), asset: base, amount: q, kind: AmountType::Available });
                v.push(BalanceChange { user_id: f.other_user_id.clone(), asset: quote, amount: qa.neg(), kind: AmountType::Locked });
            },
        }
        proof {
            let t = fv.take(j + 1);
            assert(t.drop_last() =~= fv.take(j as int));
            assert(t.last() == f@);
            assert(changes_view(v@) =~= changes_view(before) + fill_update(taker@, side, base, quote, f@));
            assert forall|x: int| 0 <= x < v@.len() implies fits_at(#[trigger] v@[x].amount, s) by {
                if x < before.len() {
                    assert(v@[x] == before[x]);
                }
            }
            assert forall|t1: nat, t: nat|
                #![trigger fills_fit(fills@, t1), fills_within(fv, t)]
                t1 <= t <= 28 && fills_fit(fills@, t1) && fills_prices_fit(fills@, (t - t1) as nat)
                    && fills_within(fv, t) implies changes_fit(v@, t) by {
                assert(changes_fit(before, t));
                assert(fits_at(fills@[j as int].price, (t - t1) as nat) && fits_at(fills@[j as int].quantity, t1));
                crate::dec::lemma_bound_at_anti(t1, t);
                assert(-bound_at(t) <= fv[j as int].quantity <= bound_at(t));
                assert(fits_at(q, t));
                assert(fits_at(qa, t));
                assert forall|x: int| 0 <= x < v@.len() implies fits_at(#[trigger] v@[x].amount, t) by {
                    if x < before.len() {
                        assert(v@[x] == before[x]);
                    }
                }
            }
        }
        j = j + 1;
    }
    proof {
        assert(fv.take(n as int) =~= fv);
    }
    v
}

impl Engine {
    /// Settles the fills of an order, when amounts fit at the scales given.
    #[verifier::spinoff_prover]
    fn settle_at(
        &mut self,
        base_asset: Asset,
        quote_asset: Asset,
        order: &Order,
        order_result: &ProcessOrderResult,
        Ghost(s1): Ghost<nat>,
        Ghost(s): Ghost<nat>,
    ) -> (r: Result<(), EngineError>)
        requires
            old(self).wf(),
            balances_fit(old(self).balances@, s),
            s1 <= s <= 28,
            fills_fit(order_result.fills@, s1) && fills_prices_fit(order_result.fills@, (s - s1) as nat),
            fills_within(fills_view(order_result.fills@), s),
            updates_within(
                old(self).users(),
                fill_updates(
                    order.user_id@,
                    order.side,
                    base_asset,
                    quote_asset,
                    fills_view(order_result.fills@),
                ),
                s,
            ),
        ensures
            final(self).wf(),
            final(self).orderbooks == old(self).orderbooks,
            balances_fit(final(self).balances@, s),
            forall|t1: nat, t: nat|
                #![trigger balances_fit(old(self).balances@, t), fills_fit(order_result.fills@, t1)]
                balances_fit(old(self).balances@, t) && t1 <= t <= 28 && fills_fit(order_result.fills@, t1) && fills_prices_fit(order_result.fills@, (t - t1) as nat) && fills_within(fills_view(order_result.fills@), t) && updates_within(
                    old(self).users(),
                    fill_updates(
                        order.user_id@,
                        order.side,
                        base_asset,
                        quote_asset,
                        fills_view(order_result.fills@),
                    ),
                    t,
                ) ==> balances_fit(final(self).balances@, t),
            ({
                let ups = fill_updates(
                    order.user_id@,
                    order.side,
                    base_asset,
                    quote_asset,
                    fills_view(order_result.fills@),
                );
                &&& final(self).users() == apply_updates(old(self).users(), ups).0
                &&& match apply_updates(old(self).users(), ups).1 {
                    None => r is Ok,
                    Some(f) => r matches Err(e) && reports(e, f),
                }
            }),
    {
        let changes = fill_changes(
            &order.user_id,
            order.side,
            base_asset,
            quote_asset,
            &order_result.fills,
            Ghost(s1),
            Ghost(s),
        );
        let r = self.apply_changes(&changes, Ghost(s));
        proof {
            assert forall|t1: nat, t: nat|
                #![trigger balances_fit(old(self).balances@, t), fills_fit(order_result.fills@, t1)]
                balances_fit(old(self).balances@, t) && t1 <= t <= 28 && fills_fit(order_result.fills@, t1) && fills_prices_fit(order_result.fills@, (t - t1) as nat) && fills_within(fills_view(order_result.fills@), t) && updates_within(
                    old(self).users(),
                    fill_updates(
                        order.user_id@,
                        order.side,
                        base_asset,
                        quote_asset,
                        fills_view(order_result.fills@),
                    ),
                    t,
                ) implies balances_fit(self.balances@, t) by {
                assert(changes_fit(changes@, t));
            }
        }
        r
    }

    /// Settles the fills of an order between its owner and the makers.
    pub fn update_user_balance(
        &mut self,
        base_asset: Asset,
        quote_asset: Asset,
        order: &Order,
        order_result: &ProcessOrderResult,
    ) -> (r: Result<(), EngineError>)
        requires
            old(self).wf(),
            order_result.fills@.len() > 0 ==> exists|s1: nat, s: nat|
                balances_fit(old(self).balances@, s) && s1 <= s <= 28 && fills_fit(order_result.fills@, s1) && fills_prices_fit(order_result.fills@, (s - s1) as nat) && fills_within(fills_view(order_result.fills@), s) && updates_within(
                    old(self).users(),
                    fill_updates(
                        order.user_id@,
                        order.side,
                        base_asset,
                        quote_asset,
                        fills_view(order_result.fills@),
                    ),
                    s,
                ),
        ensures
            final(self).wf(),
            final(self).orderbooks == old(self).orderbooks,
            forall|t1: nat, t: nat|
                #![trigger balances_fit(old(self).balances@, t), fills_fit(order_result.fills@, t1)]
                balances_fit(old(self).balances@, t) && t1 <= t <= 28 && fills_fit(order_result.fills@, t1) && fills_prices_fit(order_result.fills@, (t - t1) as nat) && fills_within(fills_view(order_result.fills@), t) && updates_within(
                    old(self).users(),
                    fill_updates(
                        order.user_id@,
                        order.side,
                        base_asset,
                        quote_asset,
                        fills_view(order_result.fills@),
                    ),
                    t,
                ) ==> balances_fit(final(self).balances@, t),
            ({
                let ups = fill_updates(
                    order.user_id@,
                    order.side,
                    base_asset,
                    quote_asset,
                    fills_view(order_result.fills@),
                );
                &&& final(self).users() == apply_updates(old(self).users(), ups).0
                &&& match apply_updates(old(self).users(), ups).1 {
                    None => r is Ok,
                    Some(f) => r matches Err(e) && reports(e, f),
                }
            }),
    {
        if order_result.fills.len() == 0 {
            proof {
                let fv = fills_view(order_result.fills@);
                assert(fv.len() == 0);
                assert(fill_updates(order.user_id@, order.side, base_asset, quote_asset, fv) =~= Seq::<
                    BalanceUpdate,
                >::empty());
            }
            return Ok(());
        }
        let ghost (s1, s) = choose|s1: nat, s: nat|
            balances_fit(self.balances@, s) && s1 <= s <= 28 && fills_fit(order_result.fills@, s1) && fills_prices_fit(order_result.fills@, (s - s1) as nat) && fills_within(fills_view(order_result.fills@), s) && updates_within(
                self.users(),
                fill_updates(
                    order.user_id@,
                    order.side,
                    base_asset,
                    quote_asset,
                    fills_view(order_result.fills@),
                ),
                s,
            );
        self.settle_at(base_asset, quote_asset, order, order_result, Ghost(s1), Ghost(s))
    }
}

/// The ghost view of a cancellation request.
pub struct CancelView {
    pub order_id: Seq<char>,
    pub user_id: Seq<char>,
    pub price: int,
    pub side: OrderSide,
    pub market: Seq<char>,
}

impl View for CancelOrder {
    type V = CancelView;

    open spec fn view(&self) -> CancelView {
        CancelView {
            order_id: self.order_id@,
            user_id: self.user_id@,
            price: self.price.val(),
            side: self.side,
            market: self.market@,
        }
    }
}

/// Order `k` of level `i` is the first order `order_id` at the level of
/// `price`.
pub open spec fn cancel_spot(levels: Seq<LevelView>, price: int, order_id: Seq<char>, i: int, k: int) -> bool {
    &&& 0 <= i < levels.len()
    &&& 0 <= k < levels[i].orders.len()
    &&& levels[i].price == price
    &&& levels[i].orders[k].order_id == order_id
    &&& forall|j: int| 0 <= j < k ==> #[trigger] levels[i].orders[j].order_id != order_id
}

pub open spec fn has_cancel_spot(levels: Seq<LevelView>, price: int, order_id: Seq<char>) -> bool {
    exists|i: int, k: int| #[trigger] cancel_spot(levels, price, order_id, i, k)
}

pub open spec fn the_cancel_spot(levels: Seq<LevelView>, price: int, order_id: Seq<char>) -> (int, int) {
    choose|i: int, k: int| #[trigger] cancel_spot(levels, price, order_id, i, k)
}

/// On a well-formed side, at most one place answers a cancellation.
pub proof fn lemma_cancel_spot_unique(
    levels: Seq<LevelView>,
    price: int,
    order_id: Seq<char>,
    i: int,
    k: int,
)
    requires
        crate::orderbook::side_wf(levels),
        cancel_spot(levels, price, order_id, i, k),
    ensures
        has_cancel_spot(levels, price, order_id),
        the_cancel_spot(levels, price, order_id) == (i, k),
{
    let (a, b) = the_cancel_spot(levels, price, order_id);
    assert(cancel_spot(levels, price, order_id, a, b));
    if a < i {
        assert(levels[a].price < levels[i].price);
    }
    if i < a {
        assert(levels[i].price < levels[a].price);
    }
    if b < k {
        assert(levels[i].orders[b].order_id != order_id);
    }
    if k < b {
        assert(levels[a].orders[k].order_id != order_id);
    }
}

/// The book with one side replaced.
pub open spec fn with_side(book: BookView, side: OrderSide, levels: Seq<LevelView>) -> BookView {
    match side {
        OrderSide::Buy => BookView { bids: levels, ..book },
        OrderSide::Sell => BookView { asks: levels, ..book },
    }
}

/// The order a cancellation takes from a book, if any.
pub open spec fn cancel_target(book: BookView, c: CancelView) -> Option<OrderView> {
    let levels = side_of(book, c.side);
    if has_cancel_spot(levels, c.price, c.order_id) {
        let (i, k) = the_cancel_spot(levels, c.price, c.order_id);
        Some(levels[i].orders[k])
    } else {
        None
    }
}

/// The book after a cancellation.
pub open spec fn book_after_cancel(book: BookView, c: CancelView) -> BookView {
    let levels = side_of(book, c.side);
    if has_cancel_spot(levels, c.price, c.order_id) {
        let (i, k) = the_cancel_spot(levels, c.price, c.order_id);
        with_side(book, c.side, remove_at(levels, i, k))
    } else {
        book
    }
}

/// What a resting order holds locked: the quote asset for what is left of
/// a buy at its price, the base asset for what is left of a sell.
pub open spec fn unlock_of(o: OrderView, base: Asset, quote: Asset) -> (Asset, int) {
    match o.side {
        OrderSide::Buy => (quote, product_value(remaining(o), o.price)),
        OrderSide::Sell => (base, remaining(o)),
    }
}

/// Books, balances and answer after a cancellation: the market must name
/// two assets and have a book, the order must rest there; its owner's
/// locked funds for it are then released.
pub open spec fn cancel_outcome(books: Seq<BookView>, users: Seq<UserView>, c: CancelView) -> (
    Seq<BookView>,
    Seq<UserView>,
    Option<Failure>,
) {
    match parse_market(c.market) {
        None => (books, users, Some(market_failure(c.market))),
        Some(pair) => match find_book(books, c.market) {
            None => (books, users, Some(Failure::OrderBookNotFound(c.market))),
            Some(b) => match cancel_target(books[b], c) {
                None => (books, users, Some(Failure::OrderNotFound)),
                Some(o) => {
                    let asset = unlock_of(o, pair.0, pair.1).0;
                    let amount = unlock_of(o, pair.0, pair.1).1;
                    let res = apply_updates(users, unlock_updates(o.user_id, asset, amount));
                    (books.update(b, book_after_cancel(books[b], c)), res.0, res.1)
                },
            },
        },
    }
}

/// A cancellation gets as far as releasing funds: its market names two
/// assets, has a book, and the book holds the order.
pub open spec fn cancel_reaches_amounts(books: Seq<BookView>, c: CancelView) -> bool {
    match parse_market(c.market) {
        None => false,
        Some(pair) => match find_book(books, c.market) {
            None => false,
            Some(b) => cancel_target(books[b], c) is Some,
        },
    }
}

/// The amounts a cancellation releases stay within the bound at scale `s`.
pub open spec fn cancel_within(books: Seq<BookView>, users: Seq<UserView>, c: CancelView, s: nat) -> bool {
    match parse_market(c.market) {
        None => true,
        Some(pair) => match find_book(books, c.market) {
            None => true,
            Some(b) => match cancel_target(books[b], c) {
                None => true,
                Some(o) => {
                    let asset = unlock_of(o, pair.0, pair.1).0;
                    let amount = unlock_of(o, pair.0, pair.1).1;
                    &&& -bound_at(s) <= amount <= bound_at(s)
                    &&& updates_within(users, unlock_updates(o.user_id, asset, amount), s)
                },
            },
        },
    }
}

impl Engine {
    /// Book quantities fit at scale `s1`, book prices at `s - s1`, and
    /// balances at `s`: a price times a quantity then fits at `s`.
    pub open spec fn fits(&self, s1: nat, s: nat) -> bool {
        &&& s1 <= s <= 28
        &&& forall|b: int| 0 <= b < self.orderbooks@.len() ==> #[trigger] self.orderbooks@[b].fits(s1)
        &&& forall|b: int|
            0 <= b < self.orderbooks@.len() ==> #[trigger] self.orderbooks@[b].prices_fit((s - s1) as nat)
        &&& balances_fit(self.balances@, s)
    }

    /// Cancels a resting order and releases its funds, when amounts fit at
    /// the scales given.
    #[verifier::spinoff_prover]
    #[verifier::rlimit(30)]
    pub(crate) fn cancel_at(&mut self, cancel_order: &CancelOrder, Ghost(s1): Ghost<nat>, Ghost(s): Ghost<nat>) -> (r:
        Result<Order, EngineError>)
        requires
            old(self).wf(),
            cancel_reaches_amounts(old(self).books(), cancel_order@) ==> old(self).fits(s1, s)
                && cancel_within(old(self).books(), old(self).users(), cancel_order@, s),
        ensures
            final(self).wf(),
            forall|t1: nat, t: nat|
                #[trigger] old(self).fits(t1, t) && cancel_within(
                    old(self).books(),
                    old(self).users(),
                    cancel_order@,
                    t,
                ) ==> final(self).fits(t1, t),
            ({
                let out = cancel_outcome(old(self).books(), old(self).users(), cancel_order@);
                &&& final(self).books() == out.0
                &&& final(self).users() == out.1
                &&& match out.2 {
                    None => r matches Ok(o) && o@ == cancel_target(
                        old(self).books()[find_book(old(self).books(), cancel_order.market@)->0],
                        cancel_order@,
                    )->0,
                    Some(f) => r matches Err(e) && reports(e, f),
                }
            }),
    {
        let ghost books0 = self.books();
        let ghost users0 = self.users();
        let ghost c = cancel_order@;
        let (base, quote) = match Self::parse_market_assets(cancel_order.market.as_str()) {
            Ok(p) => p,
            Err(e) => return Err(e),
        };
        let b = match self.find_orderbook(cancel_order.market.as_str()) {
            Ok(b) => b,
            Err(e) => return Err(e),
        };
        let ghost lv = side_of(books0[b as int], c.side);
        proof {
            assert(books0[b as int] == self.orderbooks@[b as int]@);
            assert(self.orderbooks@[b as int].wf());
            assert(crate::orderbook::side_wf(lv));
        }
        let mut book = self.orderbooks.remove(b);
        let ghost book0 = book;
        let removed = book.cancel_order(cancel_order);
        self.orderbooks.insert(b, book);
        let ghost book1 = book;
        proof {
            assert(self.orderbooks@ =~= old(self).orderbooks@.update(b as int, book1));
            assert forall|x: int| 0 <= x < self.orderbooks@.len() implies #[trigger] self.orderbooks@[x].wf() by {
                if x != b {
                    assert(self.orderbooks@[x] == old(self).orderbooks@[x]);
                }
            }
            assert forall|t1: nat, t: nat| #[trigger] old(self).fits(t1, t) implies self.fits(t1, t) by {
                assert(book0 == old(self).orderbooks@[b as int]);
                assert(book0.fits(t1));
                assert forall|x: int| 0 <= x < self.orderbooks@.len() implies #[trigger] self.orderbooks@[x].fits(
                    t1,
                ) by {
                    if x != b {
                        assert(self.orderbooks@[x] == old(self).orderbooks@[x]);
                    }
                }
            }
        }
        let o = match removed {
            Some(o) => o,
            None => {
                proof {
                    assert(!has_cancel_spot(lv, c.price, c.order_id)) by {
                        if has_cancel_spot(lv, c.price, c.order_id) {
                            let (i, k) = the_cancel_spot(lv, c.price, c.order_id);
                            assert(cancel_spot(lv, c.price, c.order_id, i, k));
                            assert(lv[i].orders[k].order_id == c.order_id);
                        }
                    }
                    assert(book1@ == book0@) by {
                        assert(side_of(book1@, c.side) == side_of(book0@, c.side));
                        assert(side_of(book1@, crate::orderbook::opposite(c.side)) == side_of(
                            book0@,
                            crate::orderbook::opposite(c.side),
                        ));
                    }
                    assert(self.books() =~= books0);
                }
                return Err(EngineError::OrderNotFound);
            },
        };
        proof {
            let (i, k) = choose|i: int, k: int|
                0 <= i < lv.len() && 0 <= k < lv[i].orders.len() && lv[i].price == c.price
                    && lv[i].orders[k] == o@ && o@.order_id == c.order_id && (forall|j: int|
                    0 <= j < k ==> #[trigger] lv[i].orders[j].order_id != c.order_id)
                    && side_of(book1@, c.side) == remove_at(lv, i, k);
            assert(cancel_spot(lv, c.price, c.order_id, i, k));
            lemma_cancel_spot_unique(lv, c.price, c.order_id, i, k);
            assert(cancel_target(books0[b as int], c) == Some(o@));
            assert(book1@ == book_after_cancel(books0[b as int], c)) by {
                assert(side_of(book1@, crate::orderbook::opposite(c.side)) == side_of(
                    book0@,
                    crate::orderbook::opposite(c.side),
                ));
            }
            assert(self.books() =~= books0.update(b as int, book_after_cancel(books0[b as int], c)));
            assert(order_fits(o, s1));
            assert(book0.prices_fit((s - s1) as nat));
            assert(fits_at(o.price, (s - s1) as nat));
            assert(crate::orderbook::resting_ok(o@)) by {
                assert(crate::orderbook::queue_ok(lv[i].orders));
            }
            crate::dec::lemma_bound_at_anti(s1, s);
        }
        let rest = sub_at(o.quantity, o.filled_quantity, Ghost(s1));
        let ghost ua = unlock_of(o@, base, quote);
        let (asset, amount) = match o.side {
            OrderSide::Buy => (quote, mul_at(rest, o.price, Ghost(s1), Ghost((s - s1) as nat), Ghost(s))),
            OrderSide::Sell => (base, rest),
        };
        proof {
            assert(asset == ua.0 && amount.val() == ua.1);
        }
        let changes = vec![
            BalanceChange {
                user_id: o.user_id.clone(),
                asset,
                amount,
                kind: AmountType::Available,
            },
            BalanceChange {
                user_id: o.user_id.clone(),
                asset,
                amount: amount.neg(),
                kind: AmountType::Locked,
            },
        ];
        proof {
            assert(changes_view(changes@) =~= unlock_updates(o@.user_id, asset, amount.val()));
        }
        let ghost mid = *self;
        let res = self.apply_changes(&changes, Ghost(s));
        proof {
            assert forall|t1: nat, t: nat|
                #[trigger] old(self).fits(t1, t) && cancel_within(
                    books0,
                    users0,
                    c,
                    t,
                ) implies self.fits(t1, t) by {
                assert(mid.fits(t1, t));
                assert(order_fits(o, t1));
                assert(book0.prices_fit((t - t1) as nat));
                assert(fits_at(o.price, (t - t1) as nat));
                assert(rest.spec_scale() <= t1);
                crate::dec::lemma_bound_at_anti(t1, t);
                assert(fits_at(amount, t));
                assert(changes@[1].amount.spec_scale() == amount.spec_scale());
                assert(changes@[1].amount.val() == -amount.val());
                assert(changes_fit(changes@, t));
                assert(updates_within(mid.users(), changes_view(changes@), t));
                assert(self.orderbooks == mid.orderbooks);
            }
        }
        match res {
            Ok(()) => Ok(o),
            Err(e) => Err(e),
        }
    }

    /// Cancels a resting order and releases the funds it held locked.
    pub fn cancel_order(&mut self, cancel_order: CancelOrder) -> (r: Result<String, EngineError>)
        requires
            old(self).wf(),
            cancel_reaches_amounts(old(self).books(), cancel_order@) ==> exists|s1: nat, s: nat|
                old(self).fits(s1, s) && cancel_within(
                    old(self).books(),
                    old(self).users(),
                    cancel_order@,
                    s,
                ),
        ensures
            final(self).wf(),
            forall|t1: nat, t: nat|
                #[trigger] old(self).fits(t1, t) && cancel_within(
                    old(self).books(),
                    old(self).users(),
                    cancel_order@,
                    t,
                ) ==> final(self).fits(t1, t),
            ({
                let out = cancel_outcome(old(self).books(), old(self).users(), cancel_order@);
                &&& final(self).books() == out.0
                &&& final(self).users() == out.1
                &&& match out.2 {
                    None => r matches Ok(id) && id@ == cancel_order.order_id@,
                    Some(f) => r matches Err(e) && reports(e, f),
                }
            }),
    {
        let ghost (s1, s) = choose|s1: nat, s: nat|
            self.fits(s1, s) && cancel_within(self.books(), self.users(), cancel_order@, s);
        match self.cancel_at(&cancel_order, Ghost(s1), Ghost(s)) {
            Ok(_) => Ok(cancel_order.order_id.clone()),
            Err(e) => Err(e),
        }
    }
}

/// The ghost view of a request to cancel all orders of a user.
pub struct CancelAllView {
    pub user_id: Seq<char>,
    pub market: Seq<char>,
}

impl View for CancelAllOrders {
    type V = CancelAllView;

    open spec fn view(&self) -> CancelAllView {
        CancelAllView { user_id: self.user_id@, market: self.market@ }
    }
}

/// The adjustments releasing the funds of cancelled orders, in order.
pub open spec fn release_updates(orders: Seq<OrderView>, base: Asset, quote: Asset) -> Seq<
    BalanceUpdate,
>
    decreases orders.len(),
{
    if orders.len() == 0 {
        Seq::empty()
    } else {
        let o = orders.last();
        release_updates(orders.drop_last(), base, quote) + unlock_updates(
            o.user_id,
            unlock_of(o, base, quote).0,
            unlock_of(o, base, quote).1,
        )
    }
}

/// What is left of each order, and what it releases, stay within the
/// bound at scale `s`.
pub open spec fn releases_within(orders: Seq<OrderView>, base: Asset, quote: Asset, s: nat) -> bool {
    forall|k: int|
        0 <= k < orders.len() ==> -bound_at(s) <= #[trigger] remaining(orders[k]) <= bound_at(s)
            && -bound_at(s) <= unlock_of(orders[k], base, quote).1 <= bound_at(s)
}

/// The book without the orders of `user`.
pub open spec fn book_without_user(book: BookView, user: Seq<char>) -> BookView {
    BookView {
        bids: strip_user(book.bids, user),
        asks: strip_user(book.asks, user),
        asset_pair: book.asset_pair,
        trade_id: book.trade_id,
    }
}

/// Books, balances and answer after cancelling all orders of a user in a
/// market: each cancelled order's funds are released to its owner.
pub open spec fn cancel_all_outcome(books: Seq<BookView>, users: Seq<UserView>, c: CancelAllView) -> (
    Seq<BookView>,
    Seq<UserView>,
    Option<Failure>,
) {
    match parse_market(c.market) {
        None => (books, users, Some(market_failure(c.market))),
        Some(pair) => match find_book(books, c.market) {
            None => (books, users, Some(Failure::OrderBookNotFound(c.market))),
            Some(b) => {
                let cancelled = orders_of_user(book_orders(books[b]), c.user_id);
                let res = apply_updates(users, release_updates(cancelled, pair.0, pair.1));
                (books.update(b, book_without_user(books[b], c.user_id)), res.0, res.1)
            },
        },
    }
}

pub open spec fn cancel_all_within(books: Seq<BookView>, users: Seq<UserView>, c: CancelAllView, s: nat) -> bool {
    match parse_market(c.market) {
        None => true,
        Some(pair) => match find_book(books, c.market) {
            None => true,
            Some(b) => {
                let cancelled = orders_of_user(book_orders(books[b]), c.user_id);
                &&& releases_within(cancelled, pair.0, pair.1, s)
                &&& updates_within(users, release_updates(cancelled, pair.0, pair.1), s)
            },
        },
    }
}

/// Cancelling all orders of a user gets as far as releasing funds: the
/// market names two assets, has a book, and the user has orders there.
pub open spec fn cancel_all_reaches_amounts(books: Seq<BookView>, c: CancelAllView) -> bool {
    match parse_market(c.market) {
        None => false,
        Some(pair) => match find_book(books, c.market) {
            None => false,
            Some(b) => orders_of_user(book_orders(books[b]), c.user_id).len() > 0,
        },
    }
}

/// The message confirming that all orders of `user` were cancelled.
pub open spec fn cancel_all_message(user: Seq<char>) -> Seq<char> {
    "All orders for user "@ + user + " cancelled successfully"@
}

/// The balance changes releasing the funds of `orders`.
#[verifier::spinoff_prover]
fn release_changes(
    orders: &Vec<Order>,
    base: Asset,
    quote: Asset,
    Ghost(s1): Ghost<nat>,
    Ghost(s): Ghost<nat>,
) -> (v: Vec<BalanceChange>)
    requires
        s1 <= s <= 28,
        queue_fits(orders@, s1),
        queue_prices_fit(orders@, (s - s1) as nat),
        releases_within(orders_view(orders@), base, quote, s),
    ensures
        changes_view(v@) == release_updates(orders_view(orders@), base, quote),
        changes_fit(v@, s),
        forall|t1: nat, t: nat|
            #![trigger queue_fits(orders@, t1), releases_within(orders_view(orders@), base, quote, t)]
            t1 <= t <= 28 && queue_fits(orders@, t1) && queue_prices_fit(orders@, (t - t1) as nat)
                && releases_within(orders_view(orders@), base, quote, t)
                ==> changes_fit(v@, t),
{
    let ghost ov = orders_view(orders@);
    let mut v: Vec<BalanceChange> = Vec::new();
    let n = orders.len();
    let mut j: usize = 0;
    proof {
        assert(ov.take(0) =~= Seq::<OrderView>::empty());
        assert(changes_view(v@) =~= Seq::<BalanceUpdate>::empty());
    }
    while j < n
        invariant
            n == orders@.len(),
            ov == orders_view(orders@),
            j <= n,
            s1 <= s <= 28,
            queue_fits(orders@, s1),
            queue_prices_fit(orders@, (s - s1) as nat),
            releases_within(ov, base, quote, s),
            changes_view(v@) == release_updates(ov.take(j as int), base, quote),
            changes_fit(v@, s),
            forall|t1: nat, t: nat|
                #![trigger queue_fits(orders@, t1), releases_within(ov, base, quote, t)]
                t1 <= t <= 28 && queue_fits(orders@, t1) && queue_prices_fit(orders@, (t - t1) as nat)
                    && releases_within(ov, base, quote, t) ==> changes_fit(v@, t),
        decreases n - j,
    {
        let o = &orders[j];
        proof {
            assert(ov[j as int] == o@);
            assert(-bound_at(s) <= remaining(ov[j as int]) <= bound_at(s));
            assert(order_fits(orders@[j as int], s1));
            assert(fits_at(orders@[j as int].price, (s - s1) as nat));
            crate::dec::lemma_bound_at_anti(s1, s);
        }
        let rest = sub_at(o.quantity, o.filled_quantity, Ghost(s1));
        let (asset, amount) = match o.side {
            OrderSide::Buy => (quote, mul_at(rest, o.price, Ghost(s1), Ghost((s - s1) as nat), Ghost(s))),
            OrderSide::Sell => (base, rest),
        };
        let ghost before = v@;
        v.push(BalanceChange { user_id: o.user_id.clone(), asset, amount, kind: AmountType::Available });
        v.push(BalanceChange { user_id: o.user_id.clone(), asset, amount: amount.neg(), kind: AmountType::Locked });
        proof {
            let t = ov.take(j + 1);
            assert(t.drop_last() =~= ov.take(j as int));
            assert(t.last() == o@);
            assert(asset == unlock_of(o@, base, quote).0 && amount.val() == unlock_of(o@, base, quote).1);
            assert(changes_view(v@) =~= changes_view(before) + unlock_updates(o@.user_id, asset, amount.val()));
            assert forall|x: int| 0 <= x < v@.len() implies fits_at(#[trigger] v@[x].amount, s) by {
                if x < before.len() {
                    assert(v@[x] == before[x]);
                }
            }
            assert forall|t1: nat, t: nat|
                #![trigger queue_fits(orders@, t1), releases_within(ov, base, quote, t)]
                t1 <= t <= 28 && queue_fits(orders@, t1) && queue_prices_fit(orders@, (t - t1) as nat)
                    && releases_within(ov, base, quote, t) implies changes_fit(v@, t) by {
                assert(changes_fit(before, t));
                assert(order_fits(orders@[j as int], t1));
                assert(fits_at(orders@[j as int].price, (t - t1) as nat));
                crate::dec::lemma_bound_at_anti(t1, t);
                assert(-bound_at(t) <= remaining(ov[j as int]) <= bound_at(t));
                assert(-bound_at(t) <= unlock_of(ov[j as int], base, quote).1 <= bound_at(t));
                assert(rest.spec_scale() <= t1);
                assert(fits_at(amount, t));
                assert forall|x: int| 0 <= x < v@.len() implies fits_at(#[trigger] v@[x].amount, t) by {
                    if x < before.len() {
                        assert(v@[x] == before[x]);
                    }
                }
            }
        }
        j = j + 1;
    }
    proof {
        assert(ov.take(n as int) =~= ov);
    }
    v
}

impl Engine {
    /// Cancels all orders of a user in a market and releases their funds,
    /// when amounts fit at the scales given.
    #[verifier::spinoff_prover]
    #[verifier::rlimit(30)]
    pub(crate) fn cancel_all_at(
        &mut self,
        cancel_all_orders: &CancelAllOrders,
        Ghost(s1): Ghost<nat>,
        Ghost(s): Ghost<nat>,
    ) -> (r: Result<Vec<Order>, EngineError>)
        requires
            old(self).wf(),
            cancel_all_reaches_amounts(old(self).books(), cancel_all_orders@) ==> old(self).fits(s1, s)
                && cancel_all_within(old(self).books(), old(self).users(), cancel_all_orders@, s),
        ensures
            final(self).wf(),
            forall|t1: nat, t: nat|
                #[trigger] old(self).fits(t1, t) && cancel_all_within(
                    old(self).books(),
                    old(self).users(),
                    cancel_all_orders@,
                    t,
                ) ==> final(self).fits(t1, t),
            ({
                let out = cancel_all_outcome(old(self).books(), old(self).users(), cancel_all_orders@);
                &&& final(self).books() == out.0
                &&& final(self).users() == out.1
                &&& match out.2 {
                    None => r matches Ok(v) && orders_view(v@) == orders_of_user(
                        book_orders(
                            old(self).books()[find_book(old(self).books(), cancel_all_orders.market@)->0],
                        ),
                        cancel_all_orders.user_id@,
                    ),
                    Some(f) => r matches Err(e) && reports(e, f),
                }
            }),
    {
        let ghost books0 = self.books();
        let (base, quote) = match Self::parse_market_assets(cancel_all_orders.market.as_str()) {
            Ok(p) => p,
            Err(e) => return Err(e),
        };
        let b = match self.find_orderbook(cancel_all_orders.market.as_str()) {
            Ok(b) => b,
            Err(e) => return Err(e),
        };
        proof {
            assert(books0[b as int] == self.orderbooks@[b as int]@);
            assert(self.orderbooks@[b as int].wf());
        }
        let mut book = self.orderbooks.remove(b);
        let ghost book0 = book;
        let cancelled = book.cancel_all_orders(cancel_all_orders.user_id.as_str());
        self.orderbooks.insert(b, book);
        let ghost book1 = book;
        proof {
            assert(self.orderbooks@ =~= old(self).orderbooks@.update(b as int, book1));
            assert forall|x: int| 0 <= x < self.orderbooks@.len() implies #[trigger] self.orderbooks@[x].wf() by {
                if x != b {
                    assert(self.orderbooks@[x] == old(self).orderbooks@[x]);
                }
            }
            assert(self.books() =~= books0.update(
                b as int,
                book_without_user(books0[b as int], cancel_all_orders.user_id@),
            ));
        }
        if cancelled.len() == 0 {
            proof {
                let cv = orders_view(cancelled@);
                assert(cv.len() == 0);
                assert(release_updates(cv, base, quote) =~= Seq::<BalanceUpdate>::empty());
                assert(apply_updates(old(self).users(), release_updates(cv, base, quote)) == (
                    old(self).users(),
                    None::<Failure>,
                ));
                assert forall|t1: nat, t: nat|
                    #[trigger] old(self).fits(t1, t) implies self.fits(t1, t) by {
                    assert(book0 == old(self).orderbooks@[b as int]);
                    assert(book0.fits(t1));
                    assert forall|x: int| 0 <= x < self.orderbooks@.len() implies #[trigger] self.orderbooks@[x].fits(
                        t1,
                    ) by {
                        if x != b {
                            assert(self.orderbooks@[x] == old(self).orderbooks@[x]);
                        }
                    }
                }
            }
            return Ok(cancelled);
        }
        let changes = release_changes(&cancelled, base, quote, Ghost(s1), Ghost(s));
        let ghost mid = *self;
        let res = self.apply_changes(&changes, Ghost(s));
        proof {
            assert forall|t1: nat, t: nat|
                #[trigger] old(self).fits(t1, t) && cancel_all_within(
                    books0,
                    old(self).users(),
                    cancel_all_orders@,
                    t,
                ) implies self.fits(t1, t) by {
                assert(book0 == old(self).orderbooks@[b as int]);
                assert(book0.fits(t1));
                assert forall|x: int| 0 <= x < mid.orderbooks@.len() implies #[trigger] mid.orderbooks@[x].fits(
                    t1,
                ) by {
                    if x != b {
                        assert(mid.orderbooks@[x] == old(self).orderbooks@[x]);
                    }
                }
                assert(queue_fits(cancelled@, t1));
                assert(changes_fit(changes@, t));
                assert(updates_within(mid.users(), changes_view(changes@), t));
                assert(self.orderbooks == mid.orderbooks);
            }
        }
        match res {
            Ok(()) => Ok(cancelled),
            Err(e) => Err(e),
        }
    }

    /// Cancels all orders of a user in a market and releases the funds
    /// they held locked.
    pub fn cancel_all_orders(&mut self, cancel_all_orders: CancelAllOrders) -> (r: Result<
        String,
        EngineError,
    >)
        requires
            old(self).wf(),
            cancel_all_reaches_amounts(old(self).books(), cancel_all_orders@) ==> exists|s1: nat, s: nat|
                old(self).fits(s1, s) && cancel_all_within(
                    old(self).books(),
                    old(self).users(),
                    cancel_all_orders@,
                    s,
                ),
        ensures
            final(self).wf(),
            forall|t1: nat, t: nat|
                #[trigger] old(self).fits(t1, t) && cancel_all_within(
                    old(self).books(),
                    old(self).users(),
                    cancel_all_orders@,
                    t,
                ) ==> final(self).fits(t1, t),
            ({
                let out = cancel_all_outcome(old(self).books(), old(self).users(), cancel_all_orders@);
                &&& final(self).books() == out.0
                &&& final(self).users() == out.1
                &&& match out.2 {
                    None => r matches Ok(m) && m@ == cancel_all_message(cancel_all_orders.user_id@),
                    Some(f) => r matches Err(e) && reports(e, f),
                }
            }),
    {
        let ghost (s1, s) = choose|s1: nat, s: nat|
            self.fits(s1, s) && cancel_all_within(self.books(), self.users(), cancel_all_orders@, s);
        match self.cancel_all_at(&cancel_all_orders, Ghost(s1), Ghost(s)) {
            Ok(_) => {
                let mut m = String::from_str("All orders for user ");
                m.append(cancel_all_orders.user_id.as_str());
                m.append(" cancelled successfully");
                Ok(m)
            },
            Err(e) => Err(e),
        }
    }
}

/// A new limit order as the engine builds it from a request.
pub open spec fn new_order_view(o: CreateOrderView, order_id: Seq<char>, timestamp: i64) -> OrderView {
    OrderView {
        price: o.price,
        quantity: o.quantity,
        filled: 0,
        order_id,
        user_id: o.user_id,
        side: o.side,
        order_type: OrderType::Limit,
        status: OrderStatus::Pending,
        timestamp,
    }
}

/// What matching an order of the request `o` against a book gives; it
/// depends on the order's side, price and quantity only.
pub open spec fn order_match(book: BookView, o: CreateOrderView) -> SideMatch {
    match_levels(
        opposite_in_priority(book, o.side),
        o.side,
        o.price,
        o.quantity,
        0,
        book.trade_id,
    )
}

/// Books, balances and answer after a new order: price and quantity must
/// be positive and the funds locked; the order then meets its market's
/// book, and each fill is settled between the order's owner and the
/// maker.  A market without a book refuses the order after its funds
/// were locked, and they stay locked.
pub open spec fn create_outcome(
    books: Seq<BookView>,
    users: Seq<UserView>,
    o: CreateOrderView,
    order_id: Seq<char>,
    timestamp: i64,
) -> (Seq<BookView>, Seq<UserView>, Option<Failure>) {
    if o.price <= 0 {
        (books, users, Some(Failure::InvalidPrice))
    } else if o.quantity <= 0 {
        (books, users, Some(Failure::InvalidQuantity))
    } else {
        match lock_result(users, o) {
            Err(f) => (books, users, Some(f)),
            Ok(locked) => match find_book(books, o.market) {
                None => (books, locked, Some(Failure::OrderBookNotFound(o.market))),
                Some(b) => {
                    let pair = parse_market(o.market)->0;
                    let t = new_order_view(o, order_id, timestamp);
                    let m = order_match(books[b], o);
                    let res = apply_updates(
                        locked,
                        fill_updates(o.user_id, o.side, pair.0, pair.1, m.fills),
                    );
                    (books.update(b, book_after(books[b], t)), res.0, res.1)
                },
            },
        }
    }
}

/// Amounts along the way of a new order stay within the bound at scale
/// `s`, and trade ids within `i64`.
pub open spec fn create_within(
    books: Seq<BookView>,
    users: Seq<UserView>,
    o: CreateOrderView,
    s: nat,
) -> bool {
    o.price > 0 && o.quantity > 0 ==> {
        &&& lock_within(users, o, s)
        &&& match lock_result(users, o) {
            Err(_) => true,
            Ok(locked) => match find_book(books, o.market) {
                None => true,
                Some(b) => {
                    let pair = parse_market(o.market)->0;
                    let m = order_match(books[b], o);
                    &&& books[b].trade_id + opposite_count(books[b], o.side) <= i64::MAX
                    &&& fills_within(m.fills, s)
                    &&& updates_within(
                        locked,
                        fill_updates(o.user_id, o.side, pair.0, pair.1, m.fills),
                        s,
                    )
                },
            },
        }
    }
}

/// Placing `o` gets as far as computing amounts: its price and quantity
/// are positive and locking its funds does.
pub open spec fn create_reaches_amounts(users: Seq<UserView>, o: CreateOrderView) -> bool {
    o.price > 0 && o.quantity > 0 && lock_reaches_amounts(users, o)
}

/// An order the engine accepted: the order as it came in and what
/// matching it produced.
#[derive(Clone, Debug)]
pub struct PlacedOrder {
    pub order: Order,
    pub result: ProcessOrderResult,
}

impl Engine {
    /// Places a new order with the given id and time, when amounts fit at
    /// the scales given.
    #[verifier::spinoff_prover]
    #[verifier::rlimit(40)]
    pub(crate) fn place_at(
        &mut self,
        input_order: &CreateOrder,
        order_id: String,
        timestamp: i64,
        Ghost(s1): Ghost<nat>,
        Ghost(s): Ghost<nat>,
    ) -> (r: Result<PlacedOrder, EngineError>)
        requires
            old(self).wf(),
            create_reaches_amounts(old(self).users(), input_order@) ==> {
                &&& old(self).fits(s1, s)
                &&& fits_at(input_order.price, (s - s1) as nat)
                &&& fits_at(input_order.quantity, s1)
                &&& create_within(old(self).books(), old(self).users(), input_order@, s)
            },
        ensures
            final(self).wf(),
            forall|t1: nat, t: nat|
                #[trigger] old(self).fits(t1, t) && fits_at(input_order.price, (t - t1) as nat) && fits_at(
                    input_order.quantity,
                    t1,
                ) && create_within(old(self).books(), old(self).users(), input_order@, t)
                    ==> final(self).fits(t1, t),
            ({
                let out = create_outcome(
                    old(self).books(),
                    old(self).users(),
                    input_order@,
                    order_id@,
                    timestamp,
                );
                &&& final(self).books() == out.0
                &&& final(self).users() == out.1
                &&& match out.2 {
                    None => r matches Ok(p) && p.order@ == new_order_view(
                        input_order@,
                        order_id@,
                        timestamp,
                    ) && {
                        let b = find_book(old(self).books(), input_order.market@)->0;
                        let m = order_match(old(self).books()[b], input_order@);
                        &&& fills_view(p.result.fills@) == m.fills
                        &&& p.result.executed_quantity.val() == m.executed
                    },
                    Some(f) => r matches Err(e) && reports(e, f),
                }
            }),
    {
        let ghost books0 = self.books();
        let ghost users0 = self.users();
        let ghost o = input_order@;
        if !input_order.price.is_positive() {
            return Err(EngineError::InvalidPrice);
        }
        if !input_order.quantity.is_positive() {
            return Err(EngineError::InvalidQuantity);
        }
        let lock = self.lock_funds_at(input_order, Ghost(s1), Ghost(s));
        proof {
            assert forall|t1: nat, t: nat|
                #[trigger] old(self).fits(t1, t) && fits_at(input_order.price, (t - t1) as nat) && fits_at(
                    input_order.quantity,
                    t1,
                ) && create_within(old(self).books(), old(self).users(), input_order@, t)
                implies self.fits(t1, t) by {
                assert(lock_within(users0, o, t));
                assert(balances_fit(old(self).balances@, t));
                assert forall|x: int| 0 <= x < self.orderbooks@.len() implies #[trigger] self.orderbooks@[x].fits(
                    t1,
                ) by {
                    assert(self.orderbooks@[x] == old(self).orderbooks@[x]);
                }
            }
        }
        match lock {
            Ok(()) => {},
            Err(e) => return Err(e),
        }
        let ghost locked = self.users();
        let ghost after_lock = *self;
        let (base_asset, quote_asset) = match Self::parse_market_assets(input_order.market.as_str()) {
            Ok(p) => p,
            Err(e) => {
                proof {
                    assert(false);
                }
                return Err(e);
            },
        };
        let order = Order {
            price: input_order.price,
            quantity: input_order.quantity,
            filled_quantity: Dec::zero(),
            order_id,
            user_id: input_order.user_id.clone(),
            side: input_order.side,
            order_type: OrderType::Limit,
            order_status: OrderStatus::Pending,
            timestamp,
        };
        proof {
            assert(order@ == new_order_view(o, order@.order_id, timestamp));
            crate::dec::lemma_bound_at_anti(0, s1);
        }
        let b = match self.find_orderbook(input_order.market.as_str()) {
            Ok(b) => b,
            Err(e) => return Err(e),
        };
        proof {
            assert(books0[b as int] == self.orderbooks@[b as int]@);
            assert(self.orderbooks@[b as int].wf());
            assert(self.orderbooks@[b as int].fits(s1));
        }
        let mut book = self.orderbooks.remove(b);
        let ghost book0 = book;
        let result = book.process_order_at(order.duplicate(), Ghost(s1));
        self.orderbooks.insert(b, book);
        let ghost book1 = book;
        proof {
            assert(self.orderbooks@ =~= old(self).orderbooks@.update(b as int, book1));
            assert forall|x: int| 0 <= x < self.orderbooks@.len() implies #[trigger] self.orderbooks@[x].wf()
                && self.orderbooks@[x].fits(s1) by {
                if x != b {
                    assert(self.orderbooks@[x] == old(self).orderbooks@[x]);
                }
            }
            assert(self.books() =~= books0.update(b as int, book_after(books0[b as int], order@)));
            assert(book0.prices_fit((s - s1) as nat));
            assert(fits_at(order.price, (s - s1) as nat));
            assert(fills_prices_fit(result.fills@, (s - s1) as nat));
        }
        let ghost mid = *self;
        let settled = self.settle_at(base_asset, quote_asset, &order, &result, Ghost(s1), Ghost(s));
        proof {
            assert forall|t1: nat, t: nat|
                #[trigger] old(self).fits(t1, t) && fits_at(input_order.price, (t - t1) as nat) && fits_at(
                    input_order.quantity,
                    t1,
                ) && create_within(old(self).books(), old(self).users(), input_order@, t)
                implies self.fits(t1, t) by {
                assert(after_lock.fits(t1, t));
                assert(book0 == after_lock.orderbooks@[b as int]);
                assert(book0.fits(t1));
                assert(fits_at(order.price, (t - t1) as nat) && fits_at(order.quantity, t1));
                assert(book1.fits(t1) && fills_fit(result.fills@, t1));
                assert(book0.prices_fit((t - t1) as nat));
                assert(book1.prices_fit((t - t1) as nat) && fills_prices_fit(result.fills@, (t - t1) as nat));
                assert forall|x: int| 0 <= x < mid.orderbooks@.len() implies #[trigger] mid.orderbooks@[x].fits(
                    t1,
                ) && mid.orderbooks@[x].prices_fit((t - t1) as nat) by {
                    if x != b {
                        assert(mid.orderbooks@[x] == after_lock.orderbooks@[x]);
                    }
                }
                assert(create_within(books0, users0, o, t));
                assert(fills_within(fills_view(result.fills@), t));
                assert(mid.users() == locked);
                assert(balances_fit(mid.balances@, t));
                assert(self.orderbooks == mid.orderbooks);
            }
        }
        match settled {
            Ok(()) => Ok(PlacedOrder { order, result }),
            Err(e) => Err(e),
        }
    }
}

/// Calls `uuid::Uuid::new_v4` and formats the result with `to_string`.
/// Claimed of it: the text is 36 characters long with hyphens at positions
/// 8, 13, 18 and 23 (the crate's hyphenated form).  The digits are random
/// and nothing more is said of them.
#[verifier::external_body]
pub(crate) fn new_order_id() -> (id: String)
    ensures
        id@.len() == 36,
        id@[8] == '-' && id@[13] == '-' && id@[18] == '-' && id@[23] == '-',
{
    uuid::Uuid::new_v4().to_string()
}

/// Calls `chrono::Utc::now` and takes `timestamp_millis` of it: the current
/// time in milliseconds since the Unix epoch.  It depends on the clock, so
/// nothing is claimed of it.
#[verifier::external_body]
pub(crate) fn now_millis() -> (t: i64) {
    chrono::Utc::now().timestamp_millis()
}

/// `r`, with the books and balances that follow, answers the request `o`
/// placed under `order_id` at `timestamp` on the books and balances before.
pub open spec fn create_answered(
    books0: Seq<BookView>,
    users0: Seq<UserView>,
    o: CreateOrderView,
    order_id: Seq<char>,
    timestamp: i64,
    books1: Seq<BookView>,
    users1: Seq<UserView>,
    r: Result<PlacedOrder, EngineError>,
) -> bool {
    let out = create_outcome(books0, users0, o, order_id, timestamp);
    &&& books1 == out.0
    &&& users1 == out.1
    &&& match out.2 {
        None => r matches Ok(p) && p.order@ == new_order_view(o, order_id, timestamp) && {
            let m = order_match(books0[find_book(books0, o.market)->0], o);
            &&& fills_view(p.result.fills@) == m.fills
            &&& p.result.executed_quantity.val() == m.executed
        },
        Some(f) => r matches Err(e) && reports(e, f),
    }
}

impl Engine {
    /// Places a new order under the given id and time: checks price and
    /// quantity, locks the funds, matches the order against its market's
    /// book and settles the fills.
    pub fn create_order_with(
        &mut self,
        input_order: CreateOrder,
        order_id: String,
        timestamp: i64,
    ) -> (r: Result<PlacedOrder, EngineError>)
        requires
            old(self).wf(),
            create_reaches_amounts(old(self).users(), input_order@) ==> exists|s1: nat, s: nat|
                old(self).fits(s1, s) && fits_at(input_order.price, (s - s1) as nat) && fits_at(
                    input_order.quantity,
                    s1,
                ) && create_within(old(self).books(), old(self).users(), input_order@, s),
        ensures
            final(self).wf(),
            forall|t1: nat, t: nat|
                #[trigger] old(self).fits(t1, t) && fits_at(input_order.price, (t - t1) as nat) && fits_at(
                    input_order.quantity,
                    t1,
                ) && create_within(old(self).books(), old(self).users(), input_order@, t)
                    ==> final(self).fits(t1, t),
            create_answered(
                old(self).books(),
                old(self).users(),
                input_order@,
                order_id@,
                timestamp,
                final(self).books(),
                final(self).users(),
                r,
            ),
    {
        let ghost (s1, s) = choose|s1: nat, s: nat|
            self.fits(s1, s) && fits_at(input_order.price, (s - s1) as nat) && fits_at(input_order.quantity, s1)
                && create_within(self.books(), self.users(), input_order@, s);
        self.place_at(&input_order, order_id, timestamp, Ghost(s1), Ghost(s))
    }

    /// Places a new order under a fresh random id, stamped with the
    /// current time.
    pub fn create_order(&mut self, input_order: CreateOrder) -> (r: Result<PlacedOrder, EngineError>)
        requires
            old(self).wf(),
            create_reaches_amounts(old(self).users(), input_order@) ==> exists|s1: nat, s: nat|
                old(self).fits(s1, s) && fits_at(input_order.price, (s - s1) as nat) && fits_at(
                    input_order.quantity,
                    s1,
                ) && create_within(old(self).books(), old(self).users(), input_order@, s),
        ensures
            final(self).wf(),
            forall|t1: nat, t: nat|
                #[trigger] old(self).fits(t1, t) && fits_at(input_order.price, (t - t1) as nat) && fits_at(
                    input_order.quantity,
                    t1,
                ) && create_within(old(self).books(), old(self).users(), input_order@, t)
                    ==> final(self).fits(t1, t),
            exists|order_id: Seq<char>, timestamp: i64|
                order_id.len() == 36 && #[trigger] create_answered(
                    old(self).books(),
                    old(self).users(),
                    input_order@,
                    order_id,
                    timestamp,
                    final(self).books(),
                    final(self).users(),
                    r,
                ),
    {
        let ghost books0 = self.books();
        let ghost users0 = self.users();
        let ghost o = input_order@;
        let order_id = new_order_id();
        let timestamp = now_millis();
        let ghost id = order_id@;
        let r = self.create_order_with(input_order, order_id, timestamp);
        proof {
            assert(create_answered(books0, users0, o, id, timestamp, self.books(), self.users(), r));
        }
        r
    }
}

} // verus!
