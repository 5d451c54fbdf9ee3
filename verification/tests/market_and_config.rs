use crypto_market::config::application::{parse_host, ApplicationConfig, ServerConfig};
use crypto_market::config::dynamic::TaskRegistry;
use crypto_market::integration::{candlestick_intervals, kept_records, WriterKeys};
use crypto_market::text::{parse_u16, parse_u64};
use crypto_market::market::{market_data_path, MarketDataArg, Params};

fn arg(exchange: &str, market_type: &str, symbol: &str, msg_type: &str) -> MarketDataArg {
    MarketDataArg {
        exchange: exchange.to_string(),
        market_type: market_type.to_string(),
        symbol: symbol.to_string(),
        msg_type: msg_type.to_string(),
    }
}

#[test]
fn market_data_arg_names() {
    assert_eq!(arg("binance", "spot", "BTCUSDT", "trade").to_string(), "binance_spot_trade_BTCUSDT");
    assert_eq!(arg("binance", "spot", "BTCUSDT", "kline@60").to_string(), "binance_spot_kline_BTCUSDT_60");
    assert_eq!(arg("binance", "spot", "BTCUSDT", "kline@60@x").to_string(), "binance_spot_kline_BTCUSDT_60");
    assert_eq!(arg("binance", "spot", "BTCUSDT", "@").to_string(), "binance_spot__BTCUSDT_");
}

fn params(period: Option<&str>) -> Params {
    Params {
        exchange: "binance".to_string(),
        market_type: "spot".to_string(),
        msg_type: "trade".to_string(),
        symbols: "BTCUSDT".to_string(),
        period: period.map(|p| p.to_string()),
        elapse: None,
    }
}

#[test]
fn market_data_paths() {
    assert_eq!(
        market_data_path("/data", &params(None), "20220701"),
        "/data/20220701/binance_spot_trade_BTCUSDT.csv"
    );
    assert_eq!(
        market_data_path("/data", &params(Some("")), "20220701"),
        "/data/20220701/binance_spot_trade_BTCUSDT_.csv"
    );
    assert_eq!(
        market_data_path("/data", &params(Some("60")), "20220701"),
        "/data/20220701/binance_spot_trade_BTCUSDT.csv"
    );
}

#[test]
fn server_config_defaults_and_errors() {
    let c = ServerConfig::new(None, None);
    assert_eq!(c.host, "127.0.0.1");
    assert_eq!(c.port, 3001);
    let c = ServerConfig::new(Some("0.0.0.0"), Some("8080"));
    assert_eq!(c.host, "0.0.0.0");
    assert_eq!(c.port, 8080);
    // Ports the server refuses to start with.
    assert!(parse_u16("http").is_none());
    assert!(parse_u16("70000").is_none());
}

#[test]
fn application_config_defaults() {
    let c = ApplicationConfig::new(None, None, None, None, None);
    assert_eq!(c.log_dir, "logs");
    assert_eq!(c.log_level, "info");
    assert_eq!(c.market_data_dir, "./");
    assert_eq!(c.server.host, "127.0.0.1");
    assert_eq!(c.server.port, 3001);
    let c = ApplicationConfig::new(Some("l"), Some("debug"), Some("/d"), Some("1.2.3.4"), Some("1"));
    assert_eq!((c.log_dir.as_str(), c.log_level.as_str(), c.market_data_dir.as_str()), ("l", "debug", "/d"));
    assert_eq!(c.server.port, 1);
}

#[test]
fn server_addresses() {
    let addr = |host: &str| ServerConfig { host: host.to_string(), port: 3001 }.get_addr();
    assert_eq!(addr("127.0.0.1"), ([127, 0, 0, 1], 3001));
    assert_eq!(addr("10.0.0.1.7"), ([10, 0, 0, 1], 3001));
    assert_eq!(parse_host("192.168.1.20"), Some([192, 168, 1, 20]));
    assert_eq!(parse_host("1.2.3"), None);
    assert_eq!(parse_host("256.0.0.1"), None);
    assert_eq!(parse_host("1.2.3.4.x"), None);
    assert_eq!(parse_host("localhost"), None);
}

#[test]
fn config_update_adds_and_removes() {
    let mut reg: TaskRegistry<u32> = TaskRegistry::new();
    let a = arg("binance", "spot", "BTCUSDT", "trade");
    let b = arg("binance", "spot", "ETHUSDT", "trade");
    let c = arg("huobi", "spot", "BTCUSDT", "bbo");
    reg.register(a.clone(), 1);
    reg.register(b.clone(), 2);
    let update = reg.on_config_update(&vec![b.clone(), c.clone(), c.clone()]);
    assert_eq!(update.added.len(), 1);
    assert!(update.added[0].equals(&c));
    assert_eq!(update.removed.len(), 1);
    assert!(update.removed[0].equals(&a));
    let stopped = reg.cleanup(&update.removed);
    assert_eq!(stopped, vec![1]);
    for (i, x) in update.added.into_iter().enumerate() {
        reg.register(x, 10 + i as u32);
    }
    assert_eq!(reg.len(), 2);
    assert!(reg.contains(&b) && reg.contains(&c) && !reg.contains(&a));
    assert_eq!(reg.remove(&b), Some(2));
    assert_eq!(reg.remove(&b), None);
}

#[test]
fn registering_again_replaces_the_task() {
    let mut reg: TaskRegistry<u32> = TaskRegistry::new();
    let a = arg("binance", "spot", "BTCUSDT", "trade");
    reg.register(a.clone(), 1);
    reg.register(a.clone(), 2);
    assert_eq!(reg.len(), 1);
    assert_eq!(reg.cleanup(&vec![a.clone(), a.clone()]), vec![2]);
    assert_eq!(reg.len(), 0);
}

#[test]
fn candlestick_interval_lists() {
    let symbols = vec!["BTCUSDT".to_string(), "ETHUSDT".to_string()];
    let v = candlestick_intervals(Some(&symbols), "60");
    assert_eq!(v, vec![("BTCUSDT".to_string(), 60), ("ETHUSDT".to_string(), 60)]);
    assert_eq!(candlestick_intervals(None, "oops"), vec![]);
    assert_eq!(candlestick_intervals(Some(&vec![]), "5"), vec![]);
    // Periods a crawl with symbols stops on.
    assert!(parse_u64("oops").is_none());
    assert!(parse_u64("").is_none());
}

#[test]
fn records_are_routed_to_writer_channels_opened_once() {
    let mut keys = WriterKeys::new();
    let recs = vec![
        ("BTCUSDT".to_string(), vec![1u8]),
        ("ETHUSDT".to_string(), vec![2u8]),
        ("BTCUSDT".to_string(), vec![3u8]),
    ];
    let routed = keys.route_records("binance", "spot", "trade", "", recs);
    assert_eq!(
        routed,
        vec![
            ("binance_spot_trade_BTCUSDT".to_string(), vec![1u8], true),
            ("binance_spot_trade_ETHUSDT".to_string(), vec![2u8], true),
            ("binance_spot_trade_BTCUSDT".to_string(), vec![3u8], false),
        ]
    );
    assert!(keys.contains("binance_spot_trade_ETHUSDT"));
    let again = keys.route_records("binance", "spot", "trade", "", vec![("ETHUSDT".to_string(), vec![4u8])]);
    assert_eq!(again, vec![("binance_spot_trade_ETHUSDT".to_string(), vec![4u8], false)]);
    let kline = keys.route_records("binance", "spot", "candlestick", "60", vec![("BTCUSDT".to_string(), vec![])]);
    assert_eq!(kline[0].0, "binance_spot_candlestick_BTCUSDT_60");
    assert!(kline[0].2);
}

#[test]
fn only_encoded_records_are_kept() {
    let kept = kept_records(vec![
        Some(("a".to_string(), vec![1u8])),
        None,
        Some(("b".to_string(), vec![2u8])),
    ]);
    assert_eq!(kept, vec![("a".to_string(), vec![1u8]), ("b".to_string(), vec![2u8])]);
}
