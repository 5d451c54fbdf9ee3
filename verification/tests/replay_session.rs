use crypto_market::market::{MarketDataArg, SocketAction};
use crypto_market::replay::{data_hander, payload_json, SubscriptionBook, FAILURE_REPLY, SUCCESS_REPLY};
use crypto_market::socket::{
    get_session_id, handle_socket_frame, history_first, history_handle, history_missing_json,
    json_handle, FrameAction, HistoryStep, SessionCounter, WsCommand, WsFrame, BINARY_REJECTED,
    HISTORY_RANGE_ERROR, UNKNOWN_ACTION,
};

fn arg(symbol: &str, msg_type: &str) -> MarketDataArg {
    MarketDataArg {
        exchange: "binance".to_string(),
        market_type: "spot".to_string(),
        symbol: symbol.to_string(),
        msg_type: msg_type.to_string(),
    }
}

fn ids(book: &SubscriptionBook<&'static str>, symbol: &str) -> Option<Vec<usize>> {
    book.subscribers(symbol).map(|v| {
        let mut ids: Vec<usize> = v.iter().map(|(id, _)| *id).collect();
        ids.sort();
        ids
    })
}

#[test]
fn payload_message_is_json() {
    let m = payload_json("trade", &[1, 2, 3]);
    assert_eq!(m, r#"{"messageType":"trade","payload":"AQID"}"#);
    let mut obj = serde_json::Map::new();
    obj.insert("messageType".to_string(), serde_json::Value::String("a\"b\n\u{1}".to_string()));
    obj.insert("payload".to_string(), serde_json::Value::String(base64::encode([255u8, 0])));
    let expected = serde_json::Value::Object(obj).to_string();
    assert_eq!(payload_json("a\"b\n\u{1}", &[255, 0]), expected);
    let v: serde_json::Value = serde_json::from_str(&payload_json("kline@60", b"hello")).unwrap();
    assert_eq!(v["payload"], "aGVsbG8=");
}

#[test]
fn data_registers_unknown_channel_then_reaches_subscribers() {
    let mut book: SubscriptionBook<&'static str> = SubscriptionBook::new();
    assert_eq!(data_hander("s1".to_string(), "trade", &[1], &mut book), None);
    assert_eq!(ids(&book, "s1"), Some(vec![]));
    let reply = book.action_handle(7, SocketAction::Subscribe("s1".to_string(), "tx7"));
    assert_eq!(reply.as_deref(), Some(SUCCESS_REPLY));
    assert_eq!(ids(&book, "s1"), Some(vec![7]));
    assert_eq!(book.user_sender(7), Some(&"tx7"));
    let m = data_hander("s1".to_string(), "trade", &[1, 2, 3], &mut book);
    assert_eq!(m.as_deref(), Some(r#"{"messageType":"trade","payload":"AQID"}"#));
}

#[test]
fn subscribing_to_unknown_channel_fails_but_records_session() {
    let mut book: SubscriptionBook<&'static str> = SubscriptionBook::new();
    let reply = book.action_handle(1, SocketAction::Subscribe("nope".to_string(), "tx1"));
    assert_eq!(reply.as_deref(), Some(FAILURE_REPLY));
    assert!(book.has_user(1));
    assert_eq!(ids(&book, "nope"), None);
}

#[test]
fn known_session_is_refused_a_second_channel() {
    let mut book: SubscriptionBook<&'static str> = SubscriptionBook::new();
    data_hander("a".to_string(), "trade", &[], &mut book);
    data_hander("b".to_string(), "trade", &[], &mut book);
    assert!(book.action_handle_subscribe(1, "a", "tx"));
    assert!(!book.action_handle_subscribe(1, "b", "tx"));
    assert_eq!(ids(&book, "b"), Some(vec![]));
    assert!(book.action_handle_subscribe(1, "a", "tx"));
    assert_eq!(ids(&book, "a"), Some(vec![1]));
}

#[test]
fn unsubscribe_all_forgets_session_and_its_channels() {
    let mut book: SubscriptionBook<&'static str> = SubscriptionBook::new();
    data_hander("a".to_string(), "trade", &[], &mut book);
    book.action_handle_subscribe(1, "a", "tx1");
    book.action_handle_subscribe(2, "a", "tx2");
    assert_eq!(ids(&book, "a"), Some(vec![1, 2]));
    let reply = book.action_handle(1, SocketAction::Unsubscribe(None));
    assert_eq!(reply, None);
    assert!(!book.has_user(1));
    assert_eq!(ids(&book, "a"), None);
    assert!(!book.action_handle_unsubscribe(1, None));
}

#[test]
fn unsubscribe_by_name_drops_channel() {
    let mut book: SubscriptionBook<&'static str> = SubscriptionBook::new();
    data_hander("a".to_string(), "trade", &[], &mut book);
    book.action_handle_subscribe(1, "a", "tx1");
    let reply = book.action_handle(1, SocketAction::Unsubscribe(Some("a".to_string())));
    assert_eq!(reply.as_deref(), Some(SUCCESS_REPLY));
    assert_eq!(ids(&book, "a"), None);
    let reply = book.action_handle(1, SocketAction::Unsubscribe(Some("a".to_string())));
    assert_eq!(reply.as_deref(), Some(FAILURE_REPLY));
}

#[test]
fn session_ids_count_up() {
    let mut c = SessionCounter::new();
    assert_eq!(get_session_id(&mut c), 1);
    assert_eq!(get_session_id(&mut c), 2);
    assert_eq!(get_session_id(&mut c), 3);
}

#[test]
fn frames() {
    assert!(matches!(handle_socket_frame(WsFrame::Text("x".to_string())), FrameAction::Handle(t) if t == "x"));
    assert!(matches!(handle_socket_frame(WsFrame::Binary), FrameAction::Reject(t) if t == BINARY_REJECTED));
    assert!(matches!(handle_socket_frame(WsFrame::Ping), FrameAction::Ignore));
    assert!(matches!(handle_socket_frame(WsFrame::Pong), FrameAction::Ignore));
    assert!(matches!(handle_socket_frame(WsFrame::Close), FrameAction::Stop));
}

fn show(c: &WsCommand) -> String {
    match c {
        WsCommand::Subscribe(s) => format!("sub {}", s),
        WsCommand::Unsubscribe(Some(s)) => format!("unsub {}", s),
        WsCommand::Unsubscribe(None) => "unsub all".to_string(),
        WsCommand::Reply(s) => format!("reply {}", s),
        WsCommand::History(a, b) => format!("history {} {}", a, b),
    }
}

fn plan(action: &str, args: &Vec<MarketDataArg>) -> Option<Vec<String>> {
    json_handle(action, args).map(|v| v.iter().map(show).collect())
}

#[test]
fn client_actions() {
    let args = vec![arg("BTCUSDT", "trade"), arg("ETHUSDT", "kline@60")];
    assert_eq!(
        plan("subscribe", &args),
        Some(vec!["sub binance_spot_trade_BTCUSDT".to_string(), "sub binance_spot_kline_ETHUSDT_60".to_string()])
    );
    assert_eq!(plan("subscribe@x", &args).unwrap().len(), 2);
    assert_eq!(
        plan("unsubscribe", &args),
        Some(vec!["unsub binance_spot_trade_BTCUSDT".to_string(), "unsub binance_spot_kline_ETHUSDT_60".to_string()])
    );
    assert_eq!(plan("unsubscribe", &vec![]), Some(vec!["unsub all".to_string()]));
    assert_eq!(plan("ping", &args), Some(vec![format!("reply {}", UNKNOWN_ACTION)]));
    assert_eq!(
        serde_json::from_str::<serde_json::Value>(UNKNOWN_ACTION).unwrap().to_string(),
        UNKNOWN_ACTION
    );
}

#[test]
fn history_actions() {
    let args = vec![arg("BTCUSDT", "trade")];
    assert_eq!(plan("history@6-1", &args), Some(vec!["history 6 1".to_string()]));
    assert_eq!(plan("history", &args), Some(vec!["history 0 0".to_string()]));
    assert_eq!(plan("history@3", &args), Some(vec!["history 3 3".to_string()]));
    assert_eq!(
        plan("history@1-6", &args),
        Some(vec![format!("reply {}", HISTORY_RANGE_ERROR), "history 1 6".to_string()])
    );
    assert_eq!(plan("history@x-1", &args), None);
    assert_eq!(plan("history@1-y", &args), None);
    assert_eq!(plan("history@-1-2", &args), None);
    assert_eq!(
        serde_json::from_str::<serde_json::Value>(HISTORY_RANGE_ERROR).unwrap().to_string(),
        HISTORY_RANGE_ERROR
    );
}

#[test]
fn history_walk() {
    assert!(matches!(history_first(2, 6, 1), HistoryStep::Read(0, 6)));
    assert!(matches!(history_first(2, 1, 6), HistoryStep::Finished));
    assert!(matches!(history_first(0, 6, 1), HistoryStep::Finished));
    assert!(matches!(history_handle(2, 6, 1, 0, 6, true), HistoryStep::Read(0, 5)));
    assert!(matches!(history_handle(2, 6, 1, 0, 2, true), HistoryStep::Read(0, 1)));
    assert!(matches!(history_handle(2, 6, 1, 0, 1, true), HistoryStep::Read(1, 6)));
    assert!(matches!(history_handle(2, 6, 1, 1, 1, true), HistoryStep::Finished));
    assert!(matches!(history_handle(2, 6, 1, 0, 5, false), HistoryStep::Read(1, 6)));
    assert!(matches!(history_handle(2, 6, 1, 1, 6, false), HistoryStep::Finished));
}

#[test]
fn history_missing_message() {
    let m = history_missing_json(&arg("BTCUSDT", "trade"), 3);
    let mut obj = serde_json::Map::new();
    obj.insert("code".to_string(), serde_json::Value::from(5002));
    obj.insert(
        "msg".to_string(),
        serde_json::Value::String(format!("{} not {} day history", "binance_spot_trade_BTCUSDT", 3)),
    );
    let expected = serde_json::Value::Object(obj).to_string();
    assert_eq!(m, expected);
}

#[test]
fn data_reaches_each_subscribers_own_channel() {
    let mut book: SubscriptionBook<u32> = SubscriptionBook::new();
    assert_eq!(data_hander("s".to_string(), "trade", &[1, 2, 3], &mut book), None);
    assert!(book.action_handle_subscribe(1, "s", 10));
    assert!(book.action_handle_subscribe(2, "s", 20));
    assert_eq!(book.user_sender(1), Some(&10));
    assert_eq!(book.user_sender(2), Some(&20));
    let mut pairs = book.subscribers("s").unwrap().clone();
    pairs.sort();
    assert_eq!(pairs, vec![(1, 10), (2, 20)]);
    assert_eq!(
        data_hander("s".to_string(), "trade", &[1, 2, 3], &mut book),
        Some(r#"{"messageType":"trade","payload":"AQID"}"#.to_string())
    );
}

#[test]
fn action_reply_goes_to_the_sessions_channel() {
    let mut book: SubscriptionBook<u32> = SubscriptionBook::new();
    let _ = data_hander("s".to_string(), "trade", &[], &mut book);
    let reply = book.action_handle(5, SocketAction::Subscribe("s".to_string(), 55));
    assert_eq!(reply, Some(SUCCESS_REPLY.to_string()));
    assert_eq!(book.user_sender(5), Some(&55));
    assert_eq!(book.user_sender(6), None);
}
