use crypto_market::naming::{ipc_name, ipc_url, publish_address, record_ipc_name, replacen_char, writer_key};
use crypto_market::text::{chars_of, format_i64, parse_i64, parse_u16, parse_u64, parse_u8, split_chars, string_of};

fn split(s: &str, sep: char) -> Vec<String> {
    let v = chars_of(s);
    split_chars(&v, sep).iter().map(|p| string_of(p)).collect()
}

#[test]
fn split_matches_str_split() {
    for (s, sep) in [("a@b", '@'), ("", '@'), ("a@", '@'), ("@@x", '@'), ("abc", ';'), ("sub@a;sub@b", ';')] {
        let expected: Vec<String> = s.split(sep).map(|p| p.to_string()).collect();
        assert_eq!(split(s, sep), expected);
    }
}

#[test]
fn parse_unsigned_follows_std() {
    for s in ["0", "3001", "+5", "-5", "", "+", "65535", "65536", "12a", " 1", "007"] {
        assert_eq!(parse_u16(s), s.parse::<u16>().ok(), "input {:?}", s);
    }
    for s in ["255", "256", "0", "+0", "1.2"] {
        assert_eq!(parse_u8(s), s.parse::<u8>().ok(), "input {:?}", s);
    }
    for s in ["18446744073709551615", "18446744073709551616", "60"] {
        assert_eq!(parse_u64(s), s.parse::<u64>().ok(), "input {:?}", s);
    }
}

#[test]
fn parse_i64_follows_std() {
    for s in [
        "0", "-0", "+7", "-7", "6", "-", "+", "", "9223372036854775807", "9223372036854775808",
        "-9223372036854775808", "-9223372036854775809", "1-2", "--1",
    ] {
        let v = chars_of(s);
        assert_eq!(parse_i64(&v), s.parse::<i64>().ok(), "input {:?}", s);
    }
}

#[test]
fn format_i64_follows_std() {
    for n in [0i64, 1, 9, 10, -1, -10, 123456789, i64::MAX, i64::MIN] {
        assert_eq!(format_i64(n), n.to_string());
        let v = chars_of(&format_i64(n));
        assert_eq!(parse_i64(&v), Some(n));
    }
}

#[test]
fn ipc_addresses() {
    assert_eq!(ipc_url("binance_spot_trade_BTCUSDT"), "ipc:///tmp/binance_spot_trade_BTCUSDT.ipc");
    assert_eq!(
        publish_address("binance_spot_trade_BTC/USDT"),
        "ipc:///tmp/binance_spot_trade_BTC-USDT.ipc"
    );
    assert_eq!(publish_address("a/b/c/d/e"), "ipc:///tmp/a-b-c-d/e.ipc");
    assert_eq!(replacen_char("a/b/c/d/e", '/', '-', 3), "a/b/c/d/e".replacen('/', "-", 3));
}

#[test]
fn channel_names() {
    assert_eq!(ipc_name("binance", "spot", "trade", None), "binance_spot_trade");
    assert_eq!(ipc_name("binance", "spot", "kline", Some("60")), "binance_spot_kline_60");
    assert_eq!(
        record_ipc_name("binance", "spot", "bbo", "BTCUSDT", None),
        "binance_spot_bbo_BTCUSDT"
    );
    assert_eq!(
        record_ipc_name("binance", "spot", "kline", "BTCUSDT", Some("60")),
        "binance_spot_kline_BTCUSDT_60"
    );
    assert_eq!(writer_key("binance", "spot", "trade", "BTCUSDT", ""), "binance_spot_trade_BTCUSDT");
    assert_eq!(writer_key("binance", "spot", "candlestick", "BTCUSDT", "60"), "binance_spot_candlestick_BTCUSDT_60");
}
