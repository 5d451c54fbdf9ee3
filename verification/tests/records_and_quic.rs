use crypto_market::msg_type::{Code, Msg};
use crypto_market::quic::{
    mint_token, new_connection_step, subscribe_request, validate_token, ConnectionStep,
    PartialResponses, StreamWrite, SubscriptionTable, NO_ACTION, NO_SUBSCRIPTION,
};
use crypto_market::record::{
    encode_record, next_record, record_dir, record_path, FileStep, OpenFiles, ReadData,
};
use crypto_msg_parser::{BboMsg, KlineMsg, OrderBookMsg, TradeMsg};

#[test]
fn record_encoding() {
    assert_eq!(encode_record(&[104, 101, -1]), vec![0, 3, 104, 101, 255]);
    assert_eq!(encode_record(&[]), vec![0, 0]);
    let long = vec![7i8; 40000];
    let e = encode_record(&long);
    assert_eq!(&e[..2], &40000u16.to_be_bytes()[..]);
    assert_eq!(&e[..2], &((40000usize as i16).to_be_bytes())[..]);
}

#[test]
fn records_read_back_in_order() {
    let a: Vec<i8> = vec![1, -2, 3];
    let b: Vec<i8> = vec![];
    let c: Vec<i8> = vec![-128; 300];
    let mut bytes = encode_record(&a);
    bytes.extend(encode_record(&b));
    bytes.extend(encode_record(&c));
    let mut r = ReadData::from_bytes(bytes);
    assert_eq!(r.next(), Some(a));
    assert_eq!(r.next(), Some(b));
    assert_eq!(r.next(), Some(c));
    assert_eq!(r.next(), None);
}

#[test]
fn truncated_record_repeats_last_byte() {
    assert_eq!(next_record(&[0, 4, 9, 8], 0), Some((vec![9, 8, 8, 8], 4)));
    assert_eq!(next_record(&[0, 2], 0), Some((vec![0, 0], 2)));
    assert_eq!(next_record(&[0], 0), None);
    assert_eq!(next_record(&[], 0), None);
}

#[test]
fn record_paths() {
    assert_eq!(record_dir("20220701"), "./record/20220701/");
    assert_eq!(record_path("20220701", "binance_spot_trade_BTCUSDT"), "./record/20220701/binance_spot_trade_BTCUSDT.csv");
}

#[test]
fn tokens_round_trip() {
    let addr = [127u8, 0, 0, 1];
    let dcid = [9u8, 8, 7];
    let t = mint_token(&dcid, &addr);
    assert_eq!(&t[..6], b"quiche");
    assert_eq!(t.len(), 6 + 4 + 3);
    assert_eq!(validate_token(&addr, &t), Some(dcid.to_vec()));
    assert_eq!(validate_token(&[127, 0, 0, 2], &t), None);
    assert_eq!(validate_token(&addr, b"quich"), None);
    assert_eq!(validate_token(&addr, b"quichX\x7f\x00\x00\x01"), None);
    assert_eq!(validate_token(&addr, b"quiche\x7f\x00\x00\x01"), Some(vec![]));
}

#[test]
fn connection_decisions() {
    let addr = [10u8, 0, 0, 1];
    let dcid = [1u8; 20];
    assert!(matches!(new_connection_step(false, true, &[], &addr, &dcid, 20), ConnectionStep::NotInitial));
    assert!(matches!(new_connection_step(true, false, &[], &addr, &dcid, 20), ConnectionStep::NegotiateVersion));
    match new_connection_step(true, true, &[], &addr, &dcid, 20) {
        ConnectionStep::Retry(t) => assert_eq!(t, mint_token(&dcid, &addr)),
        _ => panic!("expected a retry"),
    }
    let token = mint_token(&[5u8, 5], &addr);
    match new_connection_step(true, true, &token, &addr, &dcid, 20) {
        ConnectionStep::Accept(o) => assert_eq!(o, vec![5, 5]),
        _ => panic!("expected acceptance"),
    }
    assert!(matches!(new_connection_step(true, true, &token, &addr, &dcid[..8], 20), ConnectionStep::InvalidDestination));
    assert!(matches!(new_connection_step(true, true, b"bogus", &addr, &dcid, 20), ConnectionStep::InvalidToken));
}

fn subs(t: &SubscriptionTable, topic: &str) -> Option<Vec<Vec<u8>>> {
    t.subscribers(topic).map(|v| {
        let mut v = v.clone();
        v.sort();
        v
    })
}

#[test]
fn subscription_messages() {
    let mut t = SubscriptionTable::new();
    t.register_topic("a".to_string());
    t.register_topic("b".to_string());
    let errors = t.handle_sub(b"c1", b"sub@a;sub@b;sub@z;ping@a");
    assert_eq!(errors, vec![NO_SUBSCRIPTION.to_string(), NO_ACTION.to_string()]);
    assert_eq!(subs(&t, "a"), Some(vec![b"c1".to_vec()]));
    assert_eq!(subs(&t, "b"), Some(vec![b"c1".to_vec()]));
    let errors = t.handle_sub(b"c1", b"unsub@a;bad;sub@z");
    assert!(errors.is_empty());
    assert_eq!(subs(&t, "a"), Some(vec![]));
    assert!(t.handle_sub(b"c2", &[0xff, 0xfe]).is_empty());
    t.handle_sub(b"c2", b"sub@b");
    t.remove_client(b"c1");
    assert_eq!(subs(&t, "b"), Some(vec![b"c2".to_vec()]));
    t.register_topic("b".to_string());
    assert_eq!(subs(&t, "b"), Some(vec![]));
    let mut names = t.topic_names();
    names.sort();
    assert_eq!(names, vec!["a".to_string(), "b".to_string()]);
    assert_eq!(NO_SUBSCRIPTION, format!("ERROR: {}", "Subscription does not exist"));
}

#[test]
fn client_request_is_accepted_by_server() {
    let topics = vec!["binance_spot_trade".to_string(), "binance_spot_bbo".to_string()];
    let req = subscribe_request(&topics);
    assert_eq!(req, b"sub@binance_spot_trade;sub@binance_spot_bbo".to_vec());
    let mut t = SubscriptionTable::new();
    for x in &topics {
        t.register_topic(x.clone());
    }
    assert!(t.handle_sub(b"cid", &req).is_empty());
    for x in &topics {
        assert_eq!(subs(&t, x), Some(vec![b"cid".to_vec()]));
    }
}

#[test]
fn partial_responses() {
    let mut p = PartialResponses::new();
    p.insert(4, b"hello".to_vec());
    assert_eq!(p.pending_body(4), Some(b"hello".to_vec()));
    p.handle_writable(4, StreamWrite::Written(2));
    assert_eq!(p.pending_body(4), Some(b"llo".to_vec()));
    p.handle_writable(4, StreamWrite::Done);
    assert_eq!(p.pending_body(4), Some(b"llo".to_vec()));
    p.handle_writable(4, StreamWrite::Written(3));
    assert_eq!(p.pending_body(4), None);
    p.insert(8, b"x".to_vec());
    p.handle_writable(8, StreamWrite::Failed);
    assert_eq!(p.pending_body(8), None);
    p.handle_writable(9, StreamWrite::Failed);
}

#[test]
fn malformed_payloads_do_not_decode() {
    assert!(Msg::<BboMsg>(None).try_decode(&[]).is_none());
    assert!(Msg::<TradeMsg>(None).try_decode(&[1, 2]).is_none());
    assert!(Msg::<OrderBookMsg>(None).try_decode(&[]).is_none());
    assert!(Msg::<KlineMsg>(None).try_decode(&[0]).is_none());
    assert!(Code::clone(&Msg::<KlineMsg>(None)).0.is_none());
}

#[test]
fn open_files_first_record_opens_today() {
    let mut files = OpenFiles::new();
    assert!(!files.contains("20240102"));
    match files.step("binance_spot_trade", "2024-01-02 10:00:00 +08:00", "20240102", "20240101") {
        FileStep::Open { keep_as, drop_key } => {
            assert_eq!(keep_as, "20240102");
            assert_eq!(drop_key, None);
        }
        FileStep::Append(_) => panic!("nothing was open"),
    }
    assert!(files.contains("20240102"));
}

#[test]
fn open_files_closes_yesterdays_file() {
    let mut files = OpenFiles::new();
    files.insert("ch_20240101".to_string());
    match files.step("ch", "2024-01-02 00:00:01 +00:00", "20240102", "20240101") {
        FileStep::Open { keep_as, drop_key } => {
            assert_eq!(keep_as, "20240102");
            assert_eq!(drop_key, Some("ch_20240101".to_string()));
        }
        FileStep::Append(_) => panic!("the stamp key is not kept"),
    }
    assert!(!files.contains("ch_20240101"));
    assert!(files.contains("20240102"));
}

#[test]
fn open_files_appends_to_a_kept_key() {
    let mut files = OpenFiles::new();
    files.insert("ch_T1".to_string());
    match files.step("ch", "T1", "20240102", "20240101") {
        FileStep::Append(key) => assert_eq!(key, "ch_T1"),
        FileStep::Open { .. } => panic!("the key is kept"),
    }
    assert!(files.contains("ch_T1"));
    assert!(!files.contains("20240102"));
}

#[test]
fn open_files_insert_and_remove() {
    let mut files = OpenFiles::new();
    files.insert("a".to_string());
    files.insert("a".to_string());
    files.insert("b".to_string());
    files.remove("a");
    assert!(!files.contains("a"));
    assert!(files.contains("b"));
}

#[test]
fn oversized_decimal_scales_do_not_decode() {
    // A best-bid-offer payload whose ask-price scale byte is 200.
    let mut bbo = vec![0u8; 39];
    bbo[23] = 200;
    assert!(Msg::<BboMsg>(None).try_decode(&bbo).is_none());
    let mut trade = vec![0u8; 30];
    trade[29] = 100;
    assert!(Msg::<TradeMsg>(None).try_decode(&trade).is_none());
    let mut kline = vec![0u8; 50];
    kline[49] = 29;
    assert!(Msg::<KlineMsg>(None).try_decode(&kline).is_none());
    // An order book with one group of one order whose quantity scale is 255.
    let mut book = vec![0u8; 19];
    book.extend_from_slice(&[1, 0, 10, 0, 0, 0, 1, 2, 0, 0, 0, 1, 255]);
    assert!(Msg::<OrderBookMsg>(None).try_decode(&book).is_none());
}

#[test]
fn sweeping_closed_connections_keeps_topics_and_others() {
    let mut t = SubscriptionTable::new();
    t.register_topic("a".to_string());
    t.register_topic("b".to_string());
    t.handle_sub(b"c1", b"sub@a;sub@b");
    t.handle_sub(b"c2", b"sub@a");
    t.handle_sub(b"c3", b"sub@b");
    for closed in [b"c1".to_vec(), b"c3".to_vec()] {
        t.remove_client(&closed);
    }
    assert_eq!(subs(&t, "a"), Some(vec![b"c2".to_vec()]));
    assert_eq!(subs(&t, "b"), Some(vec![]));
    let mut names = t.topic_names();
    names.sort();
    assert_eq!(names, vec!["a".to_string(), "b".to_string()]);
}

#[test]
fn a_file_of_records_reads_back_to_the_end() {
    let ds: Vec<Vec<i8>> = vec![vec![1, -2], vec![], vec![7; 300]];
    let mut bytes = Vec::new();
    for d in &ds {
        bytes.extend(encode_record(d));
    }
    let mut r = ReadData::from_bytes(bytes);
    let mut got = Vec::new();
    while let Some(d) = r.next() {
        got.push(d);
    }
    assert_eq!(got, ds);
}
