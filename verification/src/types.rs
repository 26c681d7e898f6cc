//! Domain types of the exchange engine: assets, markets, orders, fills and
//! the requests the engine serves.

use vstd::prelude::*;
use vstd::string::*;

use crate::dec::Dec;
use crate::text::str_eq;

verus! {

/// Supported assets on the exchange.
#[derive(Clone, Copy, Debug, PartialEq, Eq, Structural, Hash)]
pub enum Asset {
    Usdc,
    Usdt,
    Btc,
    Eth,
    Sol,
}

/// The symbol under which an asset is written.
pub open spec fn asset_symbol(a: Asset) -> Seq<char> {
    match a {
        Asset::Usdc => "USDC"@,
        Asset::Usdt => "USDT"@,
        Asset::Btc => "BTC"@,
        Asset::Eth => "ETH"@,
        Asset::Sol => "SOL"@,
    }
}

impl Asset {
    /// The asset's symbol.
    pub fn as_str(&self) -> (s: &'static str)
        ensures
            s@ == asset_symbol(*self),
    {
        match self {
            Asset::Usdc => "USDC",
            Asset::Usdt => "USDT",
            Asset::Btc => "BTC",
            Asset::Eth => "ETH",
            Asset::Sol => "SOL",
        }
    }

    /// The asset's symbol as an owned string.
    pub fn to_string(&self) -> (s: String)
        ensures
            s@ == asset_symbol(*self),
    {
        String::from_str(self.as_str())
    }

    /// Parses an asset symbol.
    pub fn from_str(s: &str) -> (r: Result<Asset, &'static str>)
        ensures
            r matches Ok(a) ==> asset_symbol(a) == s@ && asset_named(s@) == Some(a),
            r is Err <==> asset_named(s@) is None,
            r is Err <==> (forall|a: Asset| asset_symbol(a) != s@),
            r matches Err(e) ==> e@ == "Unsupported asset"@,
    {
        proof {
            lemma_asset_symbols_distinct();
        }
        if str_eq(s, "USDC") {
            assert(asset_symbol(Asset::Usdc) == s@);
            Ok(Asset::Usdc)
        } else if str_eq(s, "USDT") {
            assert(asset_symbol(Asset::Usdt) == s@);
            Ok(Asset::Usdt)
        } else if str_eq(s, "BTC") {
            assert(asset_symbol(Asset::Btc) == s@);
            Ok(Asset::Btc)
        } else if str_eq(s, "ETH") {
            assert(asset_symbol(Asset::Eth) == s@);
            Ok(Asset::Eth)
        } else if str_eq(s, "SOL") {
            assert(asset_symbol(Asset::Sol) == s@);
            Ok(Asset::Sol)
        } else {
            proof {
                assert forall|a: Asset| asset_symbol(a) != s@ by {
                    match a {
                        Asset::Usdc => {},
                        Asset::Usdt => {},
                        Asset::Btc => {},
                        Asset::Eth => {},
                        Asset::Sol => {},
                    }
                }
            }
            Err("Unsupported asset")
        }
    }
}

/// No two assets share a symbol.
pub proof fn lemma_asset_symbols_distinct()
    ensures
        forall|a: Asset, b: Asset| #[trigger] asset_symbol(a) == #[trigger] asset_symbol(b) ==> a == b,
{
    reveal_strlit("USDC");
    reveal_strlit("USDT");
    reveal_strlit("BTC");
    reveal_strlit("ETH");
    reveal_strlit("SOL");
    assert forall|a: Asset, b: Asset| #[trigger] asset_symbol(a) == #[trigger] asset_symbol(b) implies a == b by {
        if a != b {
            let x = asset_symbol(a);
            let y = asset_symbol(b);
            if x.len() == y.len() {
                if x.len() == 4 {
                    assert(x[3] != y[3]);
                } else {
                    assert(x[0] != y[0]);
                }
            }
        }
    }
}

/// The asset written with `symbol`, if any.
pub open spec fn asset_named(symbol: Seq<char>) -> Option<Asset> {
    if exists|a: Asset| asset_symbol(a) == symbol {
        Some(choose|a: Asset| asset_symbol(a) == symbol)
    } else {
        None
    }
}

/// A trading pair consisting of a base and quote asset.
#[derive(Clone, Copy, Debug, PartialEq, Eq, Structural)]
pub struct AssetPair {
    pub base: Asset,
    pub quote: Asset,
}

/// The ticker of a market: `BASE_QUOTE`.
pub open spec fn ticker_of(base: Asset, quote: Asset) -> Seq<char> {
    asset_symbol(base) + "_"@ + asset_symbol(quote)
}

impl AssetPair {
    pub fn ticker(&self) -> (t: String)
        ensures
            t@ == ticker_of(self.base, self.quote),
    {
        let mut t = self.base.to_string();
        t.append("_");
        t.append(self.quote.as_str());
        t
    }
}

#[derive(Clone, Copy, Debug, PartialEq, Eq, Structural)]
pub enum OrderSide {
    Buy,
    Sell,
}

#[derive(Clone, Copy, Debug, PartialEq, Eq, Structural)]
pub enum OrderType {
    Limit,
    Market,
}

#[derive(Clone, Copy, Debug, PartialEq, Eq, Structural)]
pub enum OrderStatus {
    Pending,
    Filled,
    PartiallyFilled,
    Cancelled,
}

/// A resting or filled order on the book.
#[derive(Clone, Debug)]
pub struct Order {
    pub price: Dec,
    pub quantity: Dec,
    pub filled_quantity: Dec,
    pub order_id: String,
    pub user_id: String,
    pub side: OrderSide,
    pub order_type: OrderType,
    pub order_status: OrderStatus,
    pub timestamp: i64,
}

/// An order with its amounts taken by value.
pub struct OrderView {
    pub price: int,
    pub quantity: int,
    pub filled: int,
    pub order_id: Seq<char>,
    pub user_id: Seq<char>,
    pub side: OrderSide,
    pub order_type: OrderType,
    pub status: OrderStatus,
    pub timestamp: i64,
}

impl View for Order {
    type V = OrderView;

    open spec fn view(&self) -> OrderView {
        OrderView {
            price: self.price.val(),
            quantity: self.quantity.val(),
            filled: self.filled_quantity.val(),
            order_id: self.order_id@,
            user_id: self.user_id@,
            side: self.side,
            order_type: self.order_type,
            status: self.order_status,
            timestamp: self.timestamp,
        }
    }
}

impl Order {
    /// A copy of the order.
    pub fn duplicate(&self) -> (r: Order)
        ensures
            r == *self,
    {
        Order {
            price: self.price,
            quantity: self.quantity,
            filled_quantity: self.filled_quantity,
            order_id: self.order_id.clone(),
            user_id: self.user_id.clone(),
            side: self.side,
            order_type: self.order_type,
            order_status: self.order_status,
            timestamp: self.timestamp,
        }
    }
}

/// A single fill generated during matching.
#[derive(Clone, Debug)]
pub struct Fill {
    pub price: Dec,
    pub quantity: Dec,
    pub trade_id: i64,
    pub other_user_id: String,
    pub order_id: String,
}

pub struct FillView {
    pub price: int,
    pub quantity: int,
    pub trade_id: int,
    pub other_user_id: Seq<char>,
    pub order_id: Seq<char>,
}

impl View for Fill {
    type V = FillView;

    open spec fn view(&self) -> FillView {
        FillView {
            price: self.price.val(),
            quantity: self.quantity.val(),
            trade_id: self.trade_id as int,
            other_user_id: self.other_user_id@,
            order_id: self.order_id@,
        }
    }
}

pub open spec fn fills_view(fills: Seq<Fill>) -> Seq<FillView> {
    fills.map_values(|f: Fill| f@)
}

pub open spec fn orders_view(orders: Seq<Order>) -> Seq<OrderView> {
    orders.map_values(|o: Order| o@)
}

/// The result of processing an incoming order through the matching engine.
#[derive(Clone, Debug)]
pub struct ProcessOrderResult {
    pub executed_quantity: Dec,
    pub fills: Vec<Fill>,
}

#[derive(Clone, Debug)]
pub struct CreateOrder {
    pub market: String,
    pub price: Dec,
    pub quantity: Dec,
    pub side: OrderSide,
    pub user_id: String,
    pub pubsub_id: Option<u128>,
}

#[derive(Clone, Debug)]
pub struct GetOpenOrder {
    pub user_id: String,
    pub order_id: String,
    pub market: String,
    pub pubsub_id: Option<u128>,
}

#[derive(Clone, Debug)]
pub struct CancelOrder {
    pub order_id: String,
    pub user_id: String,
    pub price: Dec,
    pub side: OrderSide,
    pub market: String,
    pub pubsub_id: Option<u128>,
}

#[derive(Clone, Debug)]
pub struct GetOpenOrders {
    pub user_id: String,
    pub market: String,
    pub pubsub_id: Option<u128>,
}

#[derive(Clone, Debug)]
pub struct CancelAllOrders {
    pub user_id: String,
    pub market: String,
    pub pubsub_id: Option<u128>,
}

#[derive(Clone, Debug)]
pub struct GetDepth {
    pub symbol: String,
    pub pubsub_id: Option<u128>,
}

#[derive(Clone, Debug)]
pub enum OrderRequests {
    CreateOrder(CreateOrder),
    GetOpenOrder(GetOpenOrder),
    CancelOrder(CancelOrder),
    GetOpenOrders(GetOpenOrders),
    GetDepth(GetDepth),
    CancelAllOrders(CancelAllOrders),
}

#[derive(Clone, Debug)]
pub struct CreateUserInput {
    pub user_id: String,
    pub pubsub_id: Option<u128>,
}

#[derive(Clone, Debug)]
pub enum UserRequests {
    CreateUser(CreateUserInput),
}

} // verus!
