//! The HTTP front of the exchange: which requests need an API key, how
//! request bodies are checked before they reach the engine, and how query
//! parameters are normalised.

use vstd::prelude::*;
use vstd::string::*;

use crate::text::{starts_with, str_eq};
use crate::types::{CancelOrder, CreateOrder};

pub use crate::types::OrderSide;

verus! {

/// The bodies the router forwards to the engine are the engine's own
/// request types.
pub type CreateOrderInput = CreateOrder;

pub type CancelOrderInput = CancelOrder;

pub type GetOpenOrderInput = crate::types::GetOpenOrder;

pub type GetOpenOrdersInput = crate::types::GetOpenOrders;

pub type CancelAllOrdersInput = crate::types::CancelAllOrders;

pub type GetDepthInput = crate::types::GetDepth;

/// Query of the trades of a market.
#[derive(Clone, Debug)]
pub struct GetTradesInput {
    pub symbol: String,
}

/// Query of the candles of a market.
#[derive(Clone, Debug)]
pub struct GetKlinesInput {
    pub symbol: String,
    pub interval: String,
    pub start_time: String,
}

/// The Redis queues the services talk through.
#[derive(Clone, Copy, Debug, PartialEq, Eq, Structural)]
pub enum RedisQueues {
    Orders,
    Users,
    Database,
}

pub open spec fn queue_name(q: RedisQueues) -> Seq<char> {
    match q {
        RedisQueues::Orders => "orders"@,
        RedisQueues::Users => "users"@,
        RedisQueues::Database => "database"@,
    }
}

impl RedisQueues {
    /// The queue's name.
    pub fn to_string(&self) -> (r: String)
        ensures
            r@ == queue_name(*self),
    {
        match self {
            RedisQueues::Orders => String::from_str("orders"),
            RedisQueues::Users => String::from_str("users"),
            RedisQueues::Database => String::from_str("database"),
        }
    }
}

/// Paths served without an API key: the health and readiness checks.
pub open spec fn exempt_path(path: Seq<char>) -> bool {
    "/api/v1/health"@.is_prefix_of(path) || "/api/v1/ready"@.is_prefix_of(path)
}

/// The key a request presents: its `X-API-Key` header, or nothing.
pub open spec fn key_or_empty(provided: Option<Seq<char>>) -> Seq<char> {
    match provided {
        Some(k) => k,
        None => Seq::empty(),
    }
}

/// Checks the `X-API-Key` header of requests against a configured secret.
pub struct ApiKeyAuth {
    pub api_key: String,
}

impl ApiKeyAuth {
    pub fn new(api_key: String) -> (r: ApiKeyAuth)
        ensures
            r.api_key == api_key,
    {
        ApiKeyAuth { api_key }
    }

    /// Puts the check in front of `service`.
    pub fn new_transform<S>(&self, service: S) -> (r: ApiKeyAuthMiddleware<S>)
        ensures
            r.inner() == service,
            r.key() == self.api_key@,
    {
        ApiKeyAuthMiddleware { service, api_key: self.api_key.clone() }
    }
}

/// A service behind the API-key check.
pub struct ApiKeyAuthMiddleware<S> {
    pub service: S,
    api_key: String,
}

impl<S> ApiKeyAuthMiddleware<S> {
    /// The key requests must present.
    pub closed spec fn key(&self) -> Seq<char> {
        self.api_key@
    }

    /// The service requests are handed to.
    pub closed spec fn inner(&self) -> S {
        self.service
    }

    /// Whether a request for `path`, presenting `provided_key` (absent when
    /// the header is missing or not text), reaches the service; the others
    /// are answered `401 Unauthorized`.
    pub fn admits(&self, path: &str, provided_key: Option<&str>) -> (r: bool)
        ensures
            r == (exempt_path(path@) || key_or_empty(
                match provided_key {
                    Some(k) => Some(k@),
                    None => None,
                },
            ) == self.key()),
    {
        if starts_with(path, "/api/v1/health") || starts_with(path, "/api/v1/ready") {
            return true;
        }
        match provided_key {
            Some(k) => str_eq(k, self.api_key.as_str()),
            None => {
                proof {
                    reveal_strlit("");
                    assert(""@ =~= Seq::<char>::empty());
                }
                str_eq("", self.api_key.as_str())
            },
        }
    }
}

/// Why a request body is refused.
pub open spec fn create_order_problem(price: int, quantity: int, market: Seq<char>, user_id: Seq<char>) -> Option<Seq<char>> {
    if price <= 0 {
        Some("price must be positive"@)
    } else if quantity <= 0 {
        Some("quantity must be positive"@)
    } else if market.len() == 0 {
        Some("market is required"@)
    } else if user_id.len() == 0 {
        Some("user_id is required"@)
    } else {
        None
    }
}

pub open spec fn cancel_order_problem(order_id: Seq<char>, user_id: Seq<char>, price: int) -> Option<Seq<char>> {
    if order_id.len() == 0 {
        Some("order_id is required"@)
    } else if user_id.len() == 0 {
        Some("user_id is required"@)
    } else if price <= 0 {
        Some("price must be positive"@)
    } else {
        None
    }
}

impl CreateOrder {
    /// Checks a new-order body: positive price and quantity, a market and a
    /// user.
    pub fn validate(&self) -> (r: Result<(), &'static str>)
        ensures
            match create_order_problem(
                self.price.val(),
                self.quantity.val(),
                self.market@,
                self.user_id@,
            ) {
                None => r is Ok,
                Some(m) => r matches Err(e) && e@ == m,
            },
    {
        if !self.price.is_positive() {
            return Err("price must be positive");
        }
        if !self.quantity.is_positive() {
            return Err("quantity must be positive");
        }
        if self.market.unicode_len() == 0 {
            return Err("market is required");
        }
        if self.user_id.unicode_len() == 0 {
            return Err("user_id is required");
        }
        Ok(())
    }
}

impl CancelOrder {
    /// Checks a cancellation body: an order, a user and a positive price.
    pub fn validate(&self) -> (r: Result<(), &'static str>)
        ensures
            match cancel_order_problem(self.order_id@, self.user_id@, self.price.val()) {
                None => r is Ok,
                Some(m) => r matches Err(e) && e@ == m,
            },
    {
        if self.order_id.unicode_len() == 0 {
            return Err("order_id is required");
        }
        if self.user_id.unicode_len() == 0 {
            return Err("user_id is required");
        }
        if !self.price.is_positive() {
            return Err("price must be positive");
        }
        Ok(())
    }
}

/// The time bucket a candle interval names; unknown names mean a week.
pub open spec fn kline_bucket(interval: Seq<char>) -> Seq<char> {
    if interval == "1y"@ || interval == "1Y"@ {
        "year"@
    } else if interval == "1m"@ || interval == "1M"@ {
        "month"@
    } else if interval == "1w"@ || interval == "1W"@ {
        "week"@
    } else if interval == "1d"@ || interval == "1D"@ {
        "day"@
    } else if interval == "1h"@ || interval == "1H"@ {
        "hour"@
    } else if interval == "1min"@ || interval == "1MIN"@ {
        "minute"@
    } else {
        "week"@
    }
}

/// The time bucket a candle interval names.
pub fn kline_interval(interval: &str) -> (r: &'static str)
    ensures
        r@ == kline_bucket(interval@),
{
    if str_eq(interval, "1y") || str_eq(interval, "1Y") {
        "year"
    } else if str_eq(interval, "1m") || str_eq(interval, "1M") {
        "month"
    } else if str_eq(interval, "1w") || str_eq(interval, "1W") {
        "week"
    } else if str_eq(interval, "1d") || str_eq(interval, "1D") {
        "day"
    } else if str_eq(interval, "1h") || str_eq(interval, "1H") {
        "hour"
    } else if str_eq(interval, "1min") || str_eq(interval, "1MIN") {
        "minute"
    } else {
        "week"
    }
}

impl GetKlinesInput {
    /// Replaces the interval by the time bucket it names.
    pub fn normalize_interval(&mut self)
        ensures
            final(self).interval@ == kline_bucket(old(self).interval@),
            final(self).symbol == old(self).symbol,
            final(self).start_time == old(self).start_time,
    {
        let bucket = kline_interval(self.interval.as_str());
        self.interval = String::from_str(bucket);
    }
}

pub open spec fn is_digit(c: char) -> bool {
    '0' <= c && c <= '9'
}

/// The number decimal digits write.
pub open spec fn digits_value(d: Seq<char>) -> int
    decreases d.len(),
{
    if d.len() == 0 {
        0
    } else {
        digits_value(d.drop_last()) * 10 + (d.last() as int - '0' as int)
    }
}

/// The `i64` a text writes as `str::parse` reads it: an optional sign,
/// then one or more decimal digits, the value within `i64`.
pub open spec fn unsigned_part(s: Seq<char>) -> Seq<char> {
    if s.len() > 0 && (s[0] == '-' || s[0] == '+') {
        s.drop_first()
    } else {
        s
    }
}

pub open spec fn parsed_i64(s: Seq<char>) -> Option<int> {
    let d = unsigned_part(s);
    let v = if s.len() > 0 && s[0] == '-' {
        -digits_value(d)
    } else {
        digits_value(d)
    };
    if d.len() == 0 || exists|i: int| 0 <= i < d.len() && !is_digit(#[trigger] d[i]) {
        None
    } else if i64::MIN <= v <= i64::MAX {
        Some(v)
    } else {
        None
    }
}

proof fn lemma_digits_grow(d: Seq<char>, k: int)
    requires
        0 <= k <= d.len(),
        forall|i: int| 0 <= i < d.len() ==> is_digit(#[trigger] d[i]),
    ensures
        digits_value(d) >= digits_value(d.take(k)) >= 0,
    decreases d.len() - k,
{
    if k < d.len() {
        lemma_digits_grow(d, k + 1);
        let t = d.take(k + 1);
        assert(t.drop_last() =~= d.take(k));
        assert(is_digit(d[k]));
        assert(forall|i: int| 0 <= i < k ==> is_digit(#[trigger] d.take(k)[i]));
        lemma_digits_nonneg(d.take(k));
    } else {
        assert(d.take(k) =~= d);
        lemma_digits_nonneg(d);
    }
}

proof fn lemma_digits_nonneg(d: Seq<char>)
    requires
        forall|i: int| 0 <= i < d.len() ==> is_digit(#[trigger] d[i]),
    ensures
        digits_value(d) >= 0,
    decreases d.len(),
{
    if d.len() > 0 {
        assert forall|i: int| 0 <= i < d.len() - 1 implies is_digit(#[trigger] d.drop_last()[i]) by {
            assert(d.drop_last()[i] == d[i]);
        }
        lemma_digits_nonneg(d.drop_last());
        assert(is_digit(d[d.len() - 1]));
    }
}

/// The start of a candle query, in milliseconds: the text read as an
/// `i64`, or 0 when it is not one.
pub fn start_time_millis(start_time: &str) -> (r: i64)
    ensures
        r == match parsed_i64(start_time@) {
            Some(v) => v,
            None => 0,
        },
{
    let ghost s = start_time@;
    let n = start_time.unicode_len();
    let mut k0: usize = 0;
    let mut neg = false;
    if n > 0 {
        let c0 = start_time.get_char(0);
        if c0 == '-' {
            k0 = 1;
            neg = true;
        } else if c0 == '+' {
            k0 = 1;
        }
    }
    let ghost d = s.skip(k0 as int);
    proof {
        assert(k0 == 1 ==> d =~= s.drop_first());
        assert(k0 == 0 ==> d =~= s);
        assert((s.len() > 0 && (s[0] == '-' || s[0] == '+')) == (k0 == 1));
        assert((s.len() > 0 && s[0] == '-') == neg);
        assert(unsigned_part(s) == d);
    }
    if k0 == n {
        proof {
            assert(d.len() == 0);
            assert(parsed_i64(s) is None);
        }
        return 0;
    }
    let limit: i128 = 9223372036854775808;
    let mut acc: i128 = 0;
    let mut j: usize = k0;
    proof {
        assert(d.take(0) =~= Seq::<char>::empty());
    }
    while j < n
        invariant
            n == s.len(),
            s == start_time@,
            k0 <= j <= n,
            d == s.skip(k0 as int),
            unsigned_part(s) == d,
            (s.len() > 0 && s[0] == '-') == neg,
            0 <= acc <= limit,
            limit == 9223372036854775808,
            acc == digits_value(d.take(j - k0)),
            forall|i: int| 0 <= i < j - k0 ==> is_digit(#[trigger] d[i]),
        decreases n - j,
    {
        let c = start_time.get_char(j);
        proof {
            assert(d[j - k0] == c);
        }
        if !('0' <= c && c <= '9') {
            proof {
                assert(!is_digit(d[j - k0]));
            }
            return 0;
        }
        let digit = (c as u32 - '0' as u32) as i128;
        let next = acc * 10 + digit;
        proof {
            let t = d.take(j - k0 + 1);
            assert(t.drop_last() =~= d.take(j - k0));
            assert(t.last() == c);
        }
        if next > limit {
            proof {
                if forall|i: int| 0 <= i < d.len() ==> is_digit(#[trigger] d[i]) {
                    lemma_digits_grow(d, j - k0 + 1);
                    assert(digits_value(d) > limit);
                }
                assert(parsed_i64(s) is None);
            }
            return 0;
        }
        acc = next;
        j = j + 1;
    }
    proof {
        assert(d.take(n - k0) =~= d);
    }
    if neg {
        (-acc) as i64
    } else if acc < limit {
        acc as i64
    } else {
        0
    }
}

} // verus!
