use exchange::types::{Asset, AssetPair};

#[test]
fn asset_from_str_valid() {
    assert_eq!(Asset::from_str("USDC").unwrap(), Asset::Usdc);
    assert_eq!(Asset::from_str("SOL").unwrap(), Asset::Sol);
    assert_eq!(Asset::from_str("BTC").unwrap(), Asset::Btc);
    assert_eq!(Asset::from_str("ETH").unwrap(), Asset::Eth);
    assert_eq!(Asset::from_str("USDT").unwrap(), Asset::Usdt);
}

#[test]
fn asset_from_str_invalid() {
    assert!(Asset::from_str("DOGE").is_err());
    assert!(Asset::from_str("").is_err());
}

#[test]
fn asset_display() {
    assert_eq!(Asset::Sol.to_string(), "SOL");
    assert_eq!(Asset::Usdc.to_string(), "USDC");
}

#[test]
fn asset_pair_ticker() {
    let pair = AssetPair {
        base: Asset::Sol,
        quote: Asset::Usdc,
    };
    assert_eq!(pair.ticker(), "SOL_USDC");
}

#[test]
fn asset_from_str_error_message() {
    assert_eq!(Asset::from_str("DOGE").unwrap_err(), "Unsupported asset");
}

#[test]
fn asset_symbols_round_trip() {
    for a in [Asset::Usdc, Asset::Usdt, Asset::Btc, Asset::Eth, Asset::Sol] {
        assert_eq!(Asset::from_str(&a.to_string()).unwrap(), a);
    }
}
