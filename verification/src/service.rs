//! The engine service: how each request off the queues is carried out,
//! what the requester is answered, and which database writes and market
//! data events follow.

use vstd::prelude::*;
use vstd::string::*;

use crate::dec::{fits_at, Dec};
use crate::engine::{
    book_ticker, cancel_all_outcome, cancel_all_reaches_amounts, cancel_all_within, cancel_outcome, cancel_reaches_amounts, create_reaches_amounts, cancel_target,
    cancel_within, create_outcome, create_within, failure_message, find_book, has_order_of,
    is_first_order_of, lemma_reports_message, new_order_id, new_order_view, now_millis,
    order_match, starting_assets, with_user, Engine, UserView,
};
use crate::orderbook::{book_orders, depth_of, depth_view, orders_of_user, totals_within, BookView};
use crate::records::{
    balance_records, create_db_trades, delete_order_from_db, maker_records, requests_view,
    taker_record, trade_records, DatabaseRequests, DbRequestView,
};
use crate::stream::{depth_answer, events_view, publish_ws_trades, trade_events, DepthUpdate, TradeEvent};
use crate::text::str_eq;
use crate::types::{
    fills_view, orders_view, CancelAllOrders, CancelOrder, CreateOrder, Fill, FillView, Order,
    OrderRequests, OrderView, UserRequests,
};
use crate::ws::strings_view;

verus! {

/// The answer published to the requester.
#[derive(Clone, Debug)]
pub enum Reply {
    CreatedOrder { order_id: String },
    CreateOrderFailed { error: String },
    OpenOrder(Order),
    OpenOrderFailed,
    CancelledOrder { order_id: String },
    CancelOrderFailed { error: String },
    OpenOrders(Vec<Order>),
    CancelledAllOrders { user_id: String },
    CancelAllOrdersFailed { error: String },
    Depth { bids: Vec<(Dec, Dec)>, asks: Vec<(Dec, Dec)> },
    CreatedUser { user_id: String },
}

/// What carrying out a request comes to: the answer for the requester's
/// channel, then the writes for the database (order records, trades,
/// balances, in that order) and the market data events to publish.
#[derive(Clone, Debug)]
pub struct Outcome {
    pub pubsub_id: u128,
    pub reply: Reply,
    pub order_records: Vec<DatabaseRequests>,
    pub trade_records: Vec<DatabaseRequests>,
    pub balance_records: Vec<DatabaseRequests>,
    pub trades: Vec<TradeEvent>,
    pub depth: Option<DepthUpdate>,
}

/// The users whose balances a new order changed: its owner, then each
/// maker once, in the order they traded.
pub open spec fn affected(user: Seq<char>, fills: Seq<FillView>) -> Seq<Seq<char>>
    decreases fills.len(),
{
    if fills.len() == 0 {
        seq![user]
    } else {
        let prev = affected(user, fills.drop_last());
        if prev.contains(fills.last().other_user_id) {
            prev
        } else {
            prev.push(fills.last().other_user_id)
        }
    }
}

/// The balance records of several users, one after the other.
pub open spec fn balances_of(users: Seq<UserView>, names: Seq<Seq<char>>) -> Seq<DbRequestView>
    decreases names.len(),
{
    if names.len() == 0 {
        Seq::empty()
    } else {
        balances_of(users, names.drop_last()) + balance_records(users, names.last())
    }
}

/// Removal records of the given orders.
pub open spec fn deletions(orders: Seq<OrderView>) -> Seq<DbRequestView> {
    Seq::new(orders.len(), |k: int| DbRequestView::DeleteOrder(orders[k].order_id))
}

/// No writes and no events follow.
pub open spec fn quiet(out: Outcome) -> bool {
    &&& out.order_records@.len() == 0
    &&& out.trade_records@.len() == 0
    &&& out.balance_records@.len() == 0
    &&& out.trades@.len() == 0
    &&& out.depth is None
}

/// Every level total of every book is within the bound at scale `s`.
pub open spec fn totals_fit(books: Seq<BookView>, s: nat) -> bool {
    forall|b: int|
        0 <= b < books.len() ==> totals_within(#[trigger] books[b].bids, s) && totals_within(
            books[b].asks,
            s,
        )
}

/// `out` reports placing the order `o` under `order_id` at `timestamp`.
pub open spec fn create_reported(
    books0: Seq<BookView>,
    users0: Seq<UserView>,
    o: crate::engine::CreateOrderView,
    order_id: Seq<char>,
    timestamp: i64,
    books1: Seq<BookView>,
    users1: Seq<UserView>,
    out: Outcome,
) -> bool {
    let res = create_outcome(books0, users0, o, order_id, timestamp);
    &&& books1 == res.0
    &&& users1 == res.1
    &&& match res.2 {
        None => {
            let m = order_match(books0[find_book(books0, o.market)->0], o);
            let t = new_order_view(o, order_id, timestamp);
            &&& out.reply matches Reply::CreatedOrder { order_id: id } && id@ == order_id
            &&& requests_view(out.order_records@) == seq![
                taker_record(books1, t, o.market, m.executed),
            ] + maker_records(books1, m.fills)
            &&& requests_view(out.trade_records@) == trade_records(o.user_id, o.market, m.fills)
            &&& requests_view(out.balance_records@) == balances_of(
                users1,
                affected(o.user_id, m.fills),
            )
            &&& events_view(out.trades@) == trade_events(o.user_id, o.market, m.fills, timestamp)
            &&& depth_answer(books1, o.market, o.price, o.side, m.fills, out.depth)
        },
        Some(f) => out.reply matches Reply::CreateOrderFailed { error } && error@ == failure_message(
            f,
        ) && quiet(out),
    }
}

/// `out` reports cancelling an order.
pub open spec fn cancel_reported(
    books0: Seq<BookView>,
    users0: Seq<UserView>,
    c: crate::engine::CancelView,
    books1: Seq<BookView>,
    users1: Seq<UserView>,
    out: Outcome,
) -> bool {
    let res = cancel_outcome(books0, users0, c);
    &&& books1 == res.0
    &&& users1 == res.1
    &&& out.trade_records@.len() == 0
    &&& out.trades@.len() == 0
    &&& out.depth is None
    &&& match res.2 {
        None => {
            let owner = cancel_target(books0[find_book(books0, c.market)->0], c)->0.user_id;
            &&& out.reply matches Reply::CancelledOrder { order_id } && order_id@ == c.order_id
            &&& requests_view(out.order_records@) == seq![DbRequestView::DeleteOrder(c.order_id)]
            &&& requests_view(out.balance_records@) == balance_records(users1, owner)
        },
        Some(f) => out.reply matches Reply::CancelOrderFailed { error } && error@ == failure_message(
            f,
        ) && quiet(out),
    }
}

/// `out` reports cancelling all orders of a user in a market.
pub open spec fn cancel_all_reported(
    books0: Seq<BookView>,
    users0: Seq<UserView>,
    c: crate::engine::CancelAllView,
    books1: Seq<BookView>,
    users1: Seq<UserView>,
    out: Outcome,
) -> bool {
    let res = cancel_all_outcome(books0, users0, c);
    &&& books1 == res.0
    &&& users1 == res.1
    &&& out.trade_records@.len() == 0
    &&& out.trades@.len() == 0
    &&& out.depth is None
    &&& match res.2 {
        None => {
            let cancelled = orders_of_user(
                book_orders(books0[find_book(books0, c.market)->0]),
                c.user_id,
            );
            &&& out.reply matches Reply::CancelledAllOrders { user_id } && user_id@ == c.user_id
            &&& requests_view(out.order_records@) == deletions(cancelled)
            &&& requests_view(out.balance_records@) == balance_records(users1, c.user_id)
        },
        Some(f) => out.reply matches Reply::CancelAllOrdersFailed { error } && error@
            == failure_message(f) && quiet(out),
    }
}

/// Whether `name` is among `names`.
fn contains_name(names: &Vec<String>, name: &str) -> (r: bool)
    ensures
        r == strings_view(names@).contains(name@),
{
    let n = names.len();
    let mut k: usize = 0;
    while k < n
        invariant
            n == names@.len(),
            k <= n,
            forall|j: int| 0 <= j < k ==> #[trigger] strings_view(names@)[j] != name@,
        decreases n - k,
    {
        proof {
            assert(strings_view(names@)[k as int] == names@[k as int]@);
        }
        if str_eq(names[k].as_str(), name) {
            proof {
                assert(strings_view(names@)[k as int] == name@);
            }
            return true;
        }
        k = k + 1;
    }
    false
}

/// The users whose balances a new order of `user` changed.
fn affected_users(user: &String, fills: &Vec<Fill>) -> (r: Vec<String>)
    ensures
        strings_view(r@) == affected(user@, fills_view(fills@)),
{
    let ghost fv = fills_view(fills@);
    let mut out: Vec<String> = Vec::new();
    out.push(user.clone());
    let n = fills.len();
    let mut j: usize = 0;
    proof {
        assert(fv.take(0) =~= Seq::<FillView>::empty());
        assert(strings_view(out@) =~= seq![user@]);
    }
    while j < n
        invariant
            n == fills@.len(),
            fv == fills_view(fills@),
            j <= n,
            strings_view(out@) == affected(user@, fv.take(j as int)),
        decreases n - j,
    {
        let f = &fills[j];
        let ghost before = strings_view(out@);
        proof {
            let t = fv.take(j + 1);
            assert(t.drop_last() =~= fv.take(j as int));
            assert(t.last() == f@);
        }
        if !contains_name(&out, f.other_user_id.as_str()) {
            out.push(f.other_user_id.clone());
            proof {
                assert(strings_view(out@) =~= before.push(f@.other_user_id));
            }
        }
        j = j + 1;
    }
    proof {
        assert(fv.take(n as int) =~= fv);
    }
    out
}

/// The balance records of the named users.
fn balances_for(engine: &Engine, names: &Vec<String>) -> (r: Vec<DatabaseRequests>)
    requires
        crate::engine::users_wf(engine.users()),
    ensures
        requests_view(r@) == balances_of(engine.users(), strings_view(names@)),
{
    let ghost nv = strings_view(names@);
    let mut out: Vec<DatabaseRequests> = Vec::new();
    let n = names.len();
    let mut j: usize = 0;
    proof {
        assert(nv.take(0) =~= Seq::<Seq<char>>::empty());
        assert(requests_view(out@) =~= Seq::<DbRequestView>::empty());
    }
    while j < n
        invariant
            n == names@.len(),
            nv == strings_view(names@),
            crate::engine::users_wf(engine.users()),
            j <= n,
            requests_view(out@) == balances_of(engine.users(), nv.take(j as int)),
        decreases n - j,
    {
        let ghost before = requests_view(out@);
        proof {
            let t = nv.take(j + 1);
            assert(t.drop_last() =~= nv.take(j as int));
            assert(t.last() == names@[j as int]@);
        }
        let mut recs = engine.sync_user_balances_to_db(names[j].as_str());
        let ghost rv = requests_view(recs@);
        out.append(&mut recs);
        proof {
            assert(requests_view(out@) =~= before + rv);
        }
        j = j + 1;
    }
    proof {
        assert(nv.take(n as int) =~= nv);
    }
    out
}

fn quiet_outcome(pubsub_id: u128, reply: Reply) -> (out: Outcome)
    ensures
        out.pubsub_id == pubsub_id,
        out.reply == reply,
        quiet(out),
{
    Outcome {
        pubsub_id,
        reply,
        order_records: Vec::new(),
        trade_records: Vec::new(),
        balance_records: Vec::new(),
        trades: Vec::new(),
        depth: None,
    }
}

/// Places a new order and gathers what follows from it.
#[verifier::spinoff_prover]
#[verifier::rlimit(40)]
fn place_and_report(engine: &mut Engine, order: CreateOrder, pubsub_id: u128) -> (out: Outcome)
    requires
        old(engine).wf(),
        create_reaches_amounts(old(engine).users(), order@) ==> exists|s1: nat, s: nat|
            old(engine).fits(s1, s) && fits_at(order.price, (s - s1) as nat) && fits_at(order.quantity, s1)
                && create_within(old(engine).books(), old(engine).users(), order@, s) && forall|
                id: Seq<char>,
                ts: i64,
            | #[trigger] totals_fit(create_outcome(old(engine).books(), old(engine).users(), order@, id, ts).0, s1),
    ensures
        final(engine).wf(),
        out.pubsub_id == pubsub_id,
        forall|t1: nat, t: nat|
            #[trigger] old(engine).fits(t1, t) && fits_at(order.price, (t - t1) as nat) && fits_at(
                order.quantity,
                t1,
            ) && create_within(old(engine).books(), old(engine).users(), order@, t)
                ==> final(engine).fits(t1, t),
        exists|order_id: Seq<char>, timestamp: i64|
            order_id.len() == 36 && #[trigger] create_reported(
                old(engine).books(),
                old(engine).users(),
                order@,
                order_id,
                timestamp,
                final(engine).books(),
                final(engine).users(),
                out,
            ),
{
    let ghost books0 = engine.books();
    let ghost users0 = engine.users();
    let ghost o = order@;
    let ghost (s1, s) = choose|s1: nat, s: nat|
        engine.fits(s1, s) && fits_at(order.price, (s - s1) as nat) && fits_at(order.quantity, s1)
            && create_within(engine.books(), engine.users(), order@, s) && forall|
            id: Seq<char>,
            ts: i64,
        | #[trigger] totals_fit(create_outcome(engine.books(), engine.users(), order@, id, ts).0, s1);
    let market = order.market.clone();
    let user = order.user_id.clone();
    let order_id = new_order_id();
    let timestamp = now_millis();
    let ghost id = order_id@;
    let res = engine.place_at(&order, order_id, timestamp, Ghost(s1), Ghost(s));
    let out = match res {
        Ok(p) => {
            let order_records = engine.update_db_orders(
                &p.order,
                market.as_str(),
                p.result.executed_quantity,
                &p.result.fills,
            );
            let trade_records = create_db_trades(user.as_str(), market.as_str(), &p.result.fills);
            let names = affected_users(&user, &p.result.fills);
            let balance_records = balances_for(engine, &names);
            let trades = publish_ws_trades(
                market.as_str(),
                user.as_str(),
                &p.result.fills,
                p.order.timestamp,
            );
            proof {
                let books1 = engine.books();
                assert(create_outcome(books0, users0, o, id, timestamp).2 is None);
                assert(create_reaches_amounts(users0, o));
                assert(totals_fit(create_outcome(books0, users0, o, id, timestamp).0, s1));
                assert forall|b: int| 0 <= b < engine.orderbooks@.len() implies #[trigger] engine.orderbooks@[b].depth_fits() by {
                    assert(engine.orderbooks@[b].fits(s1));
                    assert(books1[b] == engine.orderbooks@[b]@);
                    assert(totals_within(books1[b].bids, s1) && totals_within(books1[b].asks, s1));
                }
            }
            let depth = engine.publish_ws_depth_updates(
                market.as_str(),
                &p.order.price,
                p.order.side,
                &p.result.fills,
            );
            Outcome {
                pubsub_id,
                reply: Reply::CreatedOrder { order_id: p.order.order_id.clone() },
                order_records,
                trade_records,
                balance_records,
                trades,
                depth,
            }
        },
        Err(e) => {
            let ghost f = create_outcome(books0, users0, o, id, timestamp).2->0;
            proof {
                lemma_reports_message(e, f);
            }
            quiet_outcome(pubsub_id, Reply::CreateOrderFailed { error: e.to_string() })
        },
    };
    proof {
        assert(create_reported(books0, users0, o, id, timestamp, engine.books(), engine.users(), out));
    }
    out
}

/// Cancels an order and gathers what follows from it.
#[verifier::spinoff_prover]
fn cancel_and_report(engine: &mut Engine, cancel: CancelOrder, pubsub_id: u128) -> (out: Outcome)
    requires
        old(engine).wf(),
        cancel_reaches_amounts(old(engine).books(), cancel@) ==> exists|s1: nat, s: nat|
            old(engine).fits(s1, s) && cancel_within(
                old(engine).books(),
                old(engine).users(),
                cancel@,
                s,
            ),
    ensures
        final(engine).wf(),
        out.pubsub_id == pubsub_id,
        forall|t1: nat, t: nat|
            #[trigger] old(engine).fits(t1, t) && cancel_within(
                old(engine).books(),
                old(engine).users(),
                cancel@,
                t,
            ) ==> final(engine).fits(t1, t),
        cancel_reported(
            old(engine).books(),
            old(engine).users(),
            cancel@,
            final(engine).books(),
            final(engine).users(),
            out,
        ),
{
    let ghost books0 = engine.books();
    let ghost users0 = engine.users();
    let ghost (s1, s) = choose|s1: nat, s: nat|
        engine.fits(s1, s) && cancel_within(engine.books(), engine.users(), cancel@, s);
    match engine.cancel_at(&cancel, Ghost(s1), Ghost(s)) {
        Ok(o) => {
            let mut order_records: Vec<DatabaseRequests> = Vec::new();
            order_records.push(delete_order_from_db(cancel.order_id.as_str()));
            let balance_records = engine.sync_user_balances_to_db(o.user_id.as_str());
            let out = Outcome {
                pubsub_id,
                reply: Reply::CancelledOrder { order_id: cancel.order_id.clone() },
                order_records,
                trade_records: Vec::new(),
                balance_records,
                trades: Vec::new(),
                depth: None,
            };
            proof {
                assert(requests_view(out.order_records@) =~= seq![
                    DbRequestView::DeleteOrder(cancel.order_id@),
                ]);
            }
            out
        },
        Err(e) => {
            let ghost f = cancel_outcome(books0, users0, cancel@).2->0;
            proof {
                lemma_reports_message(e, f);
            }
            quiet_outcome(pubsub_id, Reply::CancelOrderFailed { error: e.to_string() })
        },
    }
}

/// Cancels all orders of a user in a market and gathers what follows.
#[verifier::spinoff_prover]
fn cancel_all_and_report(engine: &mut Engine, cancel: CancelAllOrders, pubsub_id: u128) -> (out:
    Outcome)
    requires
        old(engine).wf(),
        cancel_all_reaches_amounts(old(engine).books(), cancel@) ==> exists|s1: nat, s: nat|
            old(engine).fits(s1, s) && cancel_all_within(
                old(engine).books(),
                old(engine).users(),
                cancel@,
                s,
            ),
    ensures
        final(engine).wf(),
        out.pubsub_id == pubsub_id,
        forall|t1: nat, t: nat|
            #[trigger] old(engine).fits(t1, t) && cancel_all_within(
                old(engine).books(),
                old(engine).users(),
                cancel@,
                t,
            ) ==> final(engine).fits(t1, t),
        cancel_all_reported(
            old(engine).books(),
            old(engine).users(),
            cancel@,
            final(engine).books(),
            final(engine).users(),
            out,
        ),
{
    let ghost books0 = engine.books();
    let ghost users0 = engine.users();
    let ghost (s1, s) = choose|s1: nat, s: nat|
        engine.fits(s1, s) && cancel_all_within(engine.books(), engine.users(), cancel@, s);
    match engine.cancel_all_at(&cancel, Ghost(s1), Ghost(s)) {
        Ok(cancelled) => {
            let ghost cv = orders_view(cancelled@);
            let mut order_records: Vec<DatabaseRequests> = Vec::new();
            let n = cancelled.len();
            let mut j: usize = 0;
            while j < n
                invariant
                    n == cancelled@.len(),
                    cv == orders_view(cancelled@),
                    j <= n,
                    requests_view(order_records@) =~= deletions(cv).take(j as int),
                decreases n - j,
            {
                let ghost before = requests_view(order_records@);
                let rec = delete_order_from_db(cancelled[j].order_id.as_str());
                order_records.push(rec);
                proof {
                    assert(cv[j as int] == cancelled@[j as int]@);
                    assert(requests_view(order_records@) =~= before.push(rec@));
                    assert(deletions(cv).take(j + 1) =~= deletions(cv).take(j as int).push(
                        deletions(cv)[j as int],
                    ));
                }
                j = j + 1;
            }
            proof {
                assert(deletions(cv).take(n as int) =~= deletions(cv));
            }
            let balance_records = engine.sync_user_balances_to_db(cancel.user_id.as_str());
            Outcome {
                pubsub_id,
                reply: Reply::CancelledAllOrders { user_id: cancel.user_id.clone() },
                order_records,
                trade_records: Vec::new(),
                balance_records,
                trades: Vec::new(),
                depth: None,
            }
        },
        Err(e) => {
            let ghost f = cancel_all_outcome(books0, users0, cancel@).2->0;
            proof {
                lemma_reports_message(e, f);
            }
            quiet_outcome(pubsub_id, Reply::CancelAllOrdersFailed { error: e.to_string() })
        },
    }
}

/// The decimal amounts a request moves stay within what the engine holds
/// exactly: book quantities at some scale, book prices at another, balances
/// at a scale with room for their products, level totals of the books it
/// reads.  Requests that fail before computing amounts need none of it.
pub open spec fn request_fits(engine: Engine, request: OrderRequests) -> bool {
    match request {
        OrderRequests::CreateOrder(o) => create_reaches_amounts(engine.users(), o@) ==> exists|s1: nat, s: nat|
            engine.fits(s1, s) && fits_at(o.price, (s - s1) as nat) && fits_at(o.quantity, s1) && create_within(
                engine.books(),
                engine.users(),
                o@,
                s,
            ) && forall|id: Seq<char>, ts: i64| #[trigger]
                totals_fit(create_outcome(engine.books(), engine.users(), o@, id, ts).0, s1),
        OrderRequests::CancelOrder(c) => cancel_reaches_amounts(engine.books(), c@) ==> exists|s1: nat, s: nat|
            engine.fits(s1, s) && cancel_within(engine.books(), engine.users(), c@, s),
        OrderRequests::CancelAllOrders(c) => cancel_all_reaches_amounts(engine.books(), c@) ==> exists|s1: nat, s: nat|
            engine.fits(s1, s) && cancel_all_within(engine.books(), engine.users(), c@, s),
        OrderRequests::GetDepth(_) => forall|b: int|
            0 <= b < engine.orderbooks@.len() ==> #[trigger] engine.orderbooks@[b].depth_fits(),
        _ => true,
    }
}

/// The amounts a request moves can be held at scales `s1` (quantities)
/// and `s` (balances); requests that move none always can.
pub open spec fn request_within(engine: Engine, request: OrderRequests, s1: nat, s: nat) -> bool {
    match request {
        OrderRequests::CreateOrder(o) => fits_at(o.price, (s - s1) as nat) && fits_at(o.quantity, s1) && create_within(
            engine.books(),
            engine.users(),
            o@,
            s,
        ),
        OrderRequests::CancelOrder(c) => cancel_within(engine.books(), engine.users(), c@, s),
        OrderRequests::CancelAllOrders(c) => cancel_all_within(engine.books(), engine.users(), c@, s),
        _ => true,
    }
}

/// The answer to a query of one open order.
pub open spec fn open_order_reply(books: Seq<BookView>, q: crate::types::GetOpenOrder, reply: Reply) -> bool {
    match find_book(books, q.market@) {
        None => reply is OpenOrderFailed,
        Some(b) => match reply {
            Reply::OpenOrder(o) => is_first_order_of(
                book_orders(books[b]),
                q.user_id@,
                q.order_id@,
                o@,
            ),
            Reply::OpenOrderFailed => !has_order_of(book_orders(books[b]), q.user_id@, q.order_id@),
            _ => false,
        },
    }
}

/// The answer to a query of the open orders of a user in a market.
pub open spec fn open_orders_reply(books: Seq<BookView>, q: crate::types::GetOpenOrders, reply: Reply) -> bool {
    match reply {
        Reply::OpenOrders(v) => match find_book(books, q.market@) {
            None => v@.len() == 0,
            Some(b) => orders_view(v@) == orders_of_user(book_orders(books[b]), q.user_id@),
        },
        _ => false,
    }
}

/// The answer to a query of the depth of a market.
pub open spec fn depth_reply(books: Seq<BookView>, d: crate::types::GetDepth, reply: Reply) -> bool {
    match reply {
        Reply::Depth { bids, asks } => match find_book(books, d.symbol@) {
            None => bids@.len() == 0 && asks@.len() == 0,
            Some(b) => depth_view(bids@) == depth_of(books[b].bids) && depth_view(asks@)
                == depth_of(books[b].asks),
        },
        _ => false,
    }
}

/// `out` reports creating the user `user`, who now holds the starting
/// balances.
pub open spec fn user_created(e0: Engine, e1: Engine, user: Seq<char>, out: Outcome) -> bool {
    &&& e1.books() == e0.books()
    &&& e1.users() == with_user(e0.users(), user, starting_assets())
    &&& out.reply matches Reply::CreatedUser { user_id } && user_id@ == user
    &&& requests_view(out.balance_records@) == balance_records(e1.users(), user)
    &&& out.order_records@.len() == 0
    &&& out.trade_records@.len() == 0
    &&& out.trades@.len() == 0
    &&& out.depth is None
}

/// Nothing changed.
pub open spec fn unchanged(e0: Engine, e1: Engine) -> bool {
    e1.books() == e0.books() && e1.users() == e0.users()
}

/// Carries out a request from the orders queue.  Requests without a reply
/// channel are dropped.
pub fn handle_order(engine: &mut Engine, request: OrderRequests) -> (r: Option<Outcome>)
    requires
        old(engine).wf(),
        request_fits(*old(engine), request),
    ensures
        final(engine).wf(),
        forall|s1: nat, s: nat|
            #[trigger] old(engine).fits(s1, s) && request_within(*old(engine), request, s1, s)
                ==> final(engine).fits(s1, s),
        match request {
            OrderRequests::CreateOrder(o) => match o.pubsub_id {
                None => r is None && unchanged(*old(engine), *final(engine)),
                Some(p) => r matches Some(out) && out.pubsub_id == p && exists|
                    order_id: Seq<char>,
                    timestamp: i64,
                |
                    order_id.len() == 36 && #[trigger] create_reported(
                        old(engine).books(),
                        old(engine).users(),
                        o@,
                        order_id,
                        timestamp,
                        final(engine).books(),
                        final(engine).users(),
                        out,
                    ),
            },
            OrderRequests::GetOpenOrder(q) => match q.pubsub_id {
                None => r is None && unchanged(*old(engine), *final(engine)),
                Some(p) => r matches Some(out) && out.pubsub_id == p && quiet(out) && unchanged(
                    *old(engine),
                    *final(engine),
                ) && open_order_reply(old(engine).books(), q, out.reply),
            },
            OrderRequests::CancelOrder(c) => match c.pubsub_id {
                None => r is None && unchanged(*old(engine), *final(engine)),
                Some(p) => r matches Some(out) && out.pubsub_id == p && cancel_reported(
                    old(engine).books(),
                    old(engine).users(),
                    c@,
                    final(engine).books(),
                    final(engine).users(),
                    out,
                ),
            },
            OrderRequests::GetOpenOrders(q) => match q.pubsub_id {
                None => r is None && unchanged(*old(engine), *final(engine)),
                Some(p) => r matches Some(out) && out.pubsub_id == p && quiet(out) && unchanged(
                    *old(engine),
                    *final(engine),
                ) && open_orders_reply(old(engine).books(), q, out.reply),
            },
            OrderRequests::CancelAllOrders(c) => match c.pubsub_id {
                None => r is None && unchanged(*old(engine), *final(engine)),
                Some(p) => r matches Some(out) && out.pubsub_id == p && cancel_all_reported(
                    old(engine).books(),
                    old(engine).users(),
                    c@,
                    final(engine).books(),
                    final(engine).users(),
                    out,
                ),
            },
            OrderRequests::GetDepth(d) => match d.pubsub_id {
                None => r is None && unchanged(*old(engine), *final(engine)),
                Some(p) => r matches Some(out) && out.pubsub_id == p && quiet(out) && unchanged(
                    *old(engine),
                    *final(engine),
                ) && depth_reply(old(engine).books(), d, out.reply),
            },
        },
{
    match request {
        OrderRequests::CreateOrder(order) => {
            let pubsub_id = match order.pubsub_id {
                Some(p) => p,
                None => return None,
            };
            Some(place_and_report(engine, order, pubsub_id))
        },
        OrderRequests::GetOpenOrder(open_order) => {
            let pubsub_id = match open_order.pubsub_id {
                Some(p) => p,
                None => return None,
            };
            let ghost q = open_order;
            let reply = match engine.get_open_order(open_order) {
                Ok(o) => Reply::OpenOrder(o),
                Err(_) => Reply::OpenOrderFailed,
            };
            Some(quiet_outcome(pubsub_id, reply))
        },
        OrderRequests::CancelOrder(cancel) => {
            let pubsub_id = match cancel.pubsub_id {
                Some(p) => p,
                None => return None,
            };
            Some(cancel_and_report(engine, cancel, pubsub_id))
        },
        OrderRequests::GetOpenOrders(open_orders) => {
            let pubsub_id = match open_orders.pubsub_id {
                Some(p) => p,
                None => return None,
            };
            let orders = engine.get_open_orders(open_orders);
            Some(quiet_outcome(pubsub_id, Reply::OpenOrders(orders)))
        },
        OrderRequests::CancelAllOrders(cancel) => {
            let pubsub_id = match cancel.pubsub_id {
                Some(p) => p,
                None => return None,
            };
            Some(cancel_all_and_report(engine, cancel, pubsub_id))
        },
        OrderRequests::GetDepth(depth) => {
            let pubsub_id = match depth.pubsub_id {
                Some(p) => p,
                None => return None,
            };
            let (bids, asks) = engine.get_depth(depth);
            Some(quiet_outcome(pubsub_id, Reply::Depth { bids, asks }))
        },
    }
}

/// Carries out a request from the users queue: a new user gets the
/// starting balances.  Requests without a reply channel are dropped.
pub fn handle_user(engine: &mut Engine, request: UserRequests) -> (r: Option<Outcome>)
    requires
        old(engine).wf(),
    ensures
        final(engine).wf(),
        forall|s1: nat, s: nat|
            #[trigger] old(engine).fits(s1, s) && s <= 22 ==> final(engine).fits(s1, s),
        match request {
            UserRequests::CreateUser(u) => match u.pubsub_id {
                None => r is None && unchanged(*old(engine), *final(engine)),
                Some(p) => r matches Some(out) && out.pubsub_id == p && user_created(
                    *old(engine),
                    *final(engine),
                    u.user_id@,
                    out,
                ),
            },
        },
{
    match request {
        UserRequests::CreateUser(user) => {
            let pubsub_id = match user.pubsub_id {
                Some(p) => p,
                None => return None,
            };
            engine.init_user_balance(user.user_id.as_str());
            let balance_records = engine.sync_user_balances_to_db(user.user_id.as_str());
            Some(
                Outcome {
                    pubsub_id,
                    reply: Reply::CreatedUser { user_id: user.user_id.clone() },
                    order_records: Vec::new(),
                    trade_records: Vec::new(),
                    balance_records,
                    trades: Vec::new(),
                    depth: None,
                },
            )
        },
    }
}

} // verus!
