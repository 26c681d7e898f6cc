use exchange::ws::{
    subscription_id, ClientOutcome, SubscribeOutcome, SubscriptionRegistry, SubscriptionType,
    SupportedAssetPairs, UnsubscribeOutcome, WsMessage,
};

fn msg(method: &str, params: &[&str]) -> WsMessage {
    WsMessage {
        method: method.to_string(),
        params: params.iter().map(|s| s.to_string()).collect(),
        id: 1,
    }
}

#[test]
fn subscription_type_from_str() {
    assert_eq!(SubscriptionType::from_str("depth"), Some(SubscriptionType::depth));
    assert_eq!(SubscriptionType::from_str("trade"), Some(SubscriptionType::trade));
    assert_eq!(SubscriptionType::from_str("ticker"), Some(SubscriptionType::ticker));
    assert_eq!(SubscriptionType::from_str("Depth"), None);
}

#[test]
fn asset_pair_from_str() {
    assert_eq!(SupportedAssetPairs::from_str("SOL_USDC"), Ok(SupportedAssetPairs::SOL_USDC));
    assert_eq!(SupportedAssetPairs::from_str("BTC_USDT"), Ok(SupportedAssetPairs::BTC_USDT));
    assert_eq!(SupportedAssetPairs::from_str("DOGE_USDC"), Err("Unsupported asset pair"));
}

#[test]
fn parse_subscription_cases() {
    assert_eq!(
        msg("SUBSCRIBE", &["depth.SOL_USDC"]).parse_subscription(),
        Some((SubscriptionType::depth, SupportedAssetPairs::SOL_USDC))
    );
    assert_eq!(msg("SUBSCRIBE", &[]).parse_subscription(), None);
    assert_eq!(msg("SUBSCRIBE", &["depth"]).parse_subscription(), None);
    assert_eq!(msg("SUBSCRIBE", &["depth.SOL_USDC.x"]).parse_subscription(), None);
    assert_eq!(msg("SUBSCRIBE", &["candles.SOL_USDC"]).parse_subscription(), None);
    assert_eq!(msg("SUBSCRIBE", &["trade.SOL_EUR"]).parse_subscription(), None);
}

#[test]
fn subscription_ids() {
    assert_eq!(subscription_id(SubscriptionType::trade, SupportedAssetPairs::ETH_USDT), "trade.ETH_USDT");
}

#[test]
fn first_message_must_authenticate() {
    let mut reg = SubscriptionRegistry::new("secret".to_string());
    reg.add_user("u1".to_string());
    assert!(!reg.accept_first_message("u1", None));
    assert!(!reg.accept_first_message("u1", Some(&msg("SUBSCRIBE", &["secret"]))));
    assert!(!reg.accept_first_message("u1", Some(&msg("AUTH", &["wrong"]))));
    assert!(!reg.is_authenticated("u1"));
    assert!(reg.accept_first_message("u1", Some(&msg("AUTH", &["secret"]))));
    assert!(reg.is_authenticated("u1"));
}

#[test]
fn subscribe_requires_authentication() {
    let mut reg = SubscriptionRegistry::new("k".to_string());
    reg.add_user("u1".to_string());
    match reg.subscribe("u1", &msg("SUBSCRIBE", &["depth.SOL_USDC"])) {
        SubscribeOutcome::NotAuthenticated => {}
        other => panic!("unexpected {:?}", other),
    }
    assert!(reg.recipients("depth.SOL_USDC").is_empty());
}

#[test]
fn subscribe_and_unsubscribe_flow() {
    let mut reg = SubscriptionRegistry::new("k".to_string());
    for u in ["a", "b"] {
        reg.add_user(u.to_string());
        assert!(reg.authenticate(u, &msg("AUTH", &["k"])));
    }
    match reg.subscribe("a", &msg("SUBSCRIBE", &["trade.SOL_USDC"])) {
        SubscribeOutcome::Subscribed { stream, first } => {
            assert_eq!(stream, "trade.SOL_USDC");
            assert!(first);
        }
        other => panic!("unexpected {:?}", other),
    }
    match reg.subscribe("b", &msg("SUBSCRIBE", &["trade.SOL_USDC"])) {
        SubscribeOutcome::Subscribed { first, .. } => assert!(!first),
        other => panic!("unexpected {:?}", other),
    }
    assert_eq!(reg.recipients("trade.SOL_USDC"), vec!["a".to_string(), "b".to_string()]);

    match reg.unsubscribe("a", &msg("UNSUBSCRIBE", &["trade.SOL_USDC"])) {
        UnsubscribeOutcome::Unsubscribed { last, .. } => assert!(!last),
        other => panic!("unexpected {:?}", other),
    }
    assert_eq!(reg.recipients("trade.SOL_USDC"), vec!["b".to_string()]);
    match reg.unsubscribe("b", &msg("UNSUBSCRIBE", &["trade.SOL_USDC"])) {
        UnsubscribeOutcome::Unsubscribed { last, .. } => assert!(last),
        other => panic!("unexpected {:?}", other),
    }
    assert!(reg.recipients("trade.SOL_USDC").is_empty());
}

#[test]
fn wrong_method_and_bad_format_are_ignored() {
    let mut reg = SubscriptionRegistry::new("k".to_string());
    reg.add_user("a".to_string());
    reg.authenticate("a", &msg("AUTH", &["k"]));
    assert!(matches!(reg.subscribe("a", &msg("UNSUBSCRIBE", &["trade.SOL_USDC"])), SubscribeOutcome::Ignored));
    assert!(matches!(reg.subscribe("a", &msg("SUBSCRIBE", &["trade"])), SubscribeOutcome::InvalidFormat));
    assert!(matches!(reg.process_data("a", &msg("PING", &[])), ClientOutcome::Ignored));
    assert!(matches!(
        reg.process_data("a", &msg("SUBSCRIBE", &["depth.BTC_USDT"])),
        ClientOutcome::Subscribe(SubscribeOutcome::Subscribed { .. })
    ));
}

#[test]
fn removed_user_receives_nothing() {
    let mut reg = SubscriptionRegistry::new("k".to_string());
    reg.add_user("a".to_string());
    reg.authenticate("a", &msg("AUTH", &["k"]));
    reg.subscribe("a", &msg("SUBSCRIBE", &["depth.SOL_USDC"]));
    assert_eq!(reg.recipients("depth.SOL_USDC").len(), 1);
    reg.remove_user("a");
    assert!(!reg.is_connected("a"));
    assert!(reg.recipients("depth.SOL_USDC").is_empty());
}

#[test]
fn process_data_subscribes_and_unsubscribes() {
    let mut reg = SubscriptionRegistry::new("k".to_string());
    for u in ["a", "b"] {
        reg.add_user(u.to_string());
        assert!(reg.authenticate(u, &msg("AUTH", &["k"])));
    }
    reg.subscribe("b", &msg("SUBSCRIBE", &["depth.SOL_USDC"]));
    let before = reg.recipients("depth.SOL_USDC");
    match reg.process_data("a", &msg("SUBSCRIBE", &["depth.SOL_USDC"])) {
        ClientOutcome::Subscribe(SubscribeOutcome::Subscribed { stream, first }) => {
            assert_eq!(stream, "depth.SOL_USDC");
            assert!(!first);
        }
        other => panic!("unexpected {:?}", other),
    }
    assert_eq!(reg.recipients("depth.SOL_USDC"), vec!["b".to_string(), "a".to_string()]);
    match reg.process_data("a", &msg("UNSUBSCRIBE", &["depth.SOL_USDC"])) {
        ClientOutcome::Unsubscribe(UnsubscribeOutcome::Unsubscribed { stream, last }) => {
            assert_eq!(stream, "depth.SOL_USDC");
            assert!(!last);
        }
        other => panic!("unexpected {:?}", other),
    }
    assert_eq!(reg.recipients("depth.SOL_USDC"), before);
}

#[test]
fn process_data_refuses_unauthenticated_client() {
    let mut reg = SubscriptionRegistry::new("k".to_string());
    reg.add_user("a".to_string());
    assert!(matches!(
        reg.process_data("a", &msg("SUBSCRIBE", &["depth.SOL_USDC"])),
        ClientOutcome::Subscribe(SubscribeOutcome::NotAuthenticated)
    ));
    assert!(matches!(
        reg.process_data("a", &msg("UNSUBSCRIBE", &["depth.SOL_USDC"])),
        ClientOutcome::Unsubscribe(UnsubscribeOutcome::NotAuthenticated)
    ));
    assert!(reg.recipients("depth.SOL_USDC").is_empty());
}
