use pcap_cli::{
    content_parser, decode_record, order_quotes, AcceptArrivedGap, Asks, Bids, Buffer, DecodeError,
    QuoteMerge, QuotePacket, TimeOfDay, ACCEPT_GAP,
};

fn t(h: u32, m: u32, s: u32, ms: u32) -> TimeOfDay {
    TimeOfDay { millis: ((h * 60 + m) * 60 + s) * 1000 + ms }
}

fn quote(accept: TimeOfDay, packet: TimeOfDay, code: &str) -> QuotePacket {
    QuotePacket {
        issue_code: code.to_string(),
        bids: Bids(Vec::new()),
        asks: Asks(Vec::new()),
        accept_time: accept,
        packet_time: packet,
    }
}

fn keys(qs: &[QuotePacket]) -> Vec<u32> {
    qs.iter().map(|q| q.accept_time.millis).collect()
}

fn scenario_quotes() -> Vec<QuotePacket> {
    vec![
        quote(t(10, 0, 0, 500), t(10, 0, 0, 600), "A"),
        quote(t(10, 0, 0, 100), t(10, 0, 0, 200), "B"),
        quote(t(10, 0, 0, 900), t(10, 0, 4, 200), "C"),
    ]
}

#[test]
fn scenario_release_after_third_insert() {
    let mut buffer = Buffer::new();
    let mut qs = scenario_quotes();
    let c = qs.pop().unwrap();
    let b = qs.pop().unwrap();
    let a = qs.pop().unwrap();
    buffer.insert(a);
    assert!(!buffer.check_invariant(ACCEPT_GAP));
    buffer.insert(b);
    assert!(!buffer.check_invariant(ACCEPT_GAP));
    buffer.insert(c);
    assert_eq!(buffer.diameter(), Some(4100));
    assert!(buffer.check_invariant(ACCEPT_GAP));
    let mut order = Vec::new();
    while let Some(q) = buffer.pop() {
        order.push(q.accept_time);
    }
    assert_eq!(order, vec![t(10, 0, 0, 100), t(10, 0, 0, 500), t(10, 0, 0, 900)]);
}

#[test]
fn scenario_through_the_merge() {
    let out = order_quotes(scenario_quotes(), true, ACCEPT_GAP);
    assert_eq!(keys(&out), vec![t(10, 0, 0, 100).millis, t(10, 0, 0, 500).millis, t(10, 0, 0, 900).millis]);
    let codes: Vec<String> = out.iter().map(|q| q.issue_code.clone()).collect();
    assert_eq!(codes, vec!["B", "A", "C"]);
}

#[test]
fn empty_input_in_both_modes() {
    assert!(order_quotes(Vec::new(), true, ACCEPT_GAP).is_empty());
    assert!(order_quotes(Vec::new(), false, ACCEPT_GAP).is_empty());
    let mut merge = QuoteMerge::new(true, ACCEPT_GAP);
    assert!(merge.poll().is_none());
    assert!(merge.finish().is_none());
}

fn skewed_feed() -> Vec<QuotePacket> {
    // packet times increase; each accept time trails its packet time by at most 3 s
    let pairs: [(u32, u32); 8] = [
        (1_000, 3_000),
        (2_500, 3_100),
        (500, 3_200),
        (3_300, 3_400),
        (4_000, 6_900),
        (6_000, 7_000),
        (4_100, 7_050),
        (9_000, 9_500),
    ];
    pairs
        .iter()
        .enumerate()
        .map(|(i, &(a, p))| quote(TimeOfDay { millis: a }, TimeOfDay { millis: p }, &i.to_string()))
        .collect()
}

#[test]
fn bounded_skew_output_is_sorted_input() {
    let out = order_quotes(skewed_feed(), true, ACCEPT_GAP);
    let mut expected = keys(&skewed_feed());
    expected.sort();
    assert_eq!(keys(&out), expected);
}

#[test]
fn mode_equivalence() {
    let mut passed = order_quotes(skewed_feed(), false, ACCEPT_GAP);
    assert_eq!(keys(&passed), keys(&skewed_feed()));
    passed.sort_by_key(|q| q.accept_time);
    let reordered = order_quotes(skewed_feed(), true, ACCEPT_GAP);
    assert_eq!(keys(&passed), keys(&reordered));
}

#[test]
fn latency_bound_releases_on_next_pull() {
    let mut merge = QuoteMerge::new(true, ACCEPT_GAP);
    assert!(merge.push_quote(quote(TimeOfDay { millis: 1_000 }, TimeOfDay { millis: 2_000 }, "a")).is_none());
    assert!(merge.poll().is_none());
    // diameter becomes 4_001 - 1_000 > 3_000: released at once
    let r = merge.push_quote(quote(TimeOfDay { millis: 3_000 }, TimeOfDay { millis: 4_001 }, "b"));
    assert_eq!(r.map(|q| q.accept_time.millis), Some(1_000));
    // diameter 4_001 - 3_000 = 1_001: held
    assert!(merge.poll().is_none());
}

#[test]
fn diameter_equal_to_gap_is_held() {
    let mut buffer = Buffer::new();
    buffer.insert(quote(TimeOfDay { millis: 1_000 }, TimeOfDay { millis: 4_000 }, "a"));
    assert_eq!(buffer.diameter(), Some(3_000));
    assert!(!buffer.check_invariant(3_000));
    assert!(buffer.check_invariant(2_999));
}

#[test]
fn negative_diameter_forces_release() {
    let mut buffer = Buffer::new();
    buffer.insert(quote(TimeOfDay { millis: 5_000 }, TimeOfDay { millis: 4_000 }, "a"));
    assert_eq!(buffer.diameter(), Some(-1_000));
    assert!(buffer.check_invariant(3_000));
    assert!(buffer.check_invariant(1_000_000));
    assert!(!Buffer::new().check_invariant(0));
}

#[test]
fn drain_emits_every_quote_once() {
    let mut merge = QuoteMerge::new(true, ACCEPT_GAP);
    for (a, p) in [(300u32, 400u32), (100, 500), (200, 600)] {
        assert!(merge.push_quote(quote(TimeOfDay { millis: a }, TimeOfDay { millis: p }, "x")).is_none());
    }
    assert!(merge.poll().is_none());
    let mut drained = Vec::new();
    while let Some(q) = merge.finish() {
        drained.push(q.accept_time.millis);
    }
    assert_eq!(drained, vec![100, 200, 300]);
}

#[test]
fn passthrough_never_buffers() {
    let mut merge = QuoteMerge::new(false, ACCEPT_GAP);
    let r = merge.push_quote(quote(TimeOfDay { millis: 7 }, TimeOfDay { millis: 9 }, "p"));
    assert_eq!(r.map(|q| q.accept_time.millis), Some(7));
    assert!(merge.poll().is_none());
    assert!(merge.finish().is_none());
}

#[test]
fn duplicate_pairs_are_counted() {
    let mut gap = AcceptArrivedGap::new();
    let a = TimeOfDay { millis: 100 };
    let p = TimeOfDay { millis: 200 };
    gap.insert(p, a);
    gap.insert(p, a);
    gap.remove(p, a);
    assert_eq!(gap.look_accept(), Some(a));
    assert_eq!(gap.look_packet(), Some(p));
    gap.remove(p, a);
    assert_eq!(gap.look_accept(), None);
    assert_eq!(gap.look_packet(), None);
}

#[test]
fn tracker_reports_extremes() {
    let mut gap = AcceptArrivedGap::new();
    gap.insert(TimeOfDay { millis: 50 }, TimeOfDay { millis: 30 });
    gap.insert(TimeOfDay { millis: 90 }, TimeOfDay { millis: 10 });
    gap.insert(TimeOfDay { millis: 70 }, TimeOfDay { millis: 20 });
    assert_eq!(gap.look_accept(), Some(TimeOfDay { millis: 10 }));
    assert_eq!(gap.look_packet(), Some(TimeOfDay { millis: 90 }));
    gap.remove(TimeOfDay { millis: 90 }, TimeOfDay { millis: 10 });
    assert_eq!(gap.look_accept(), Some(TimeOfDay { millis: 20 }));
    assert_eq!(gap.look_packet(), Some(TimeOfDay { millis: 70 }));
    // removing a time that is not tracked changes nothing
    gap.remove(TimeOfDay { millis: 1 }, TimeOfDay { millis: 2 });
    assert_eq!(gap.look_accept(), Some(TimeOfDay { millis: 20 }));
}

#[test]
fn equal_keys_are_all_kept() {
    let mut buffer = Buffer::new();
    buffer.insert(quote(TimeOfDay { millis: 10 }, TimeOfDay { millis: 20 }, "first"));
    buffer.insert(quote(TimeOfDay { millis: 10 }, TimeOfDay { millis: 20 }, "second"));
    assert!(buffer.pop().is_some());
    assert_eq!(buffer.diameter(), Some(10));
    assert!(buffer.pop().is_some());
    assert!(buffer.pop().is_none());
    assert_eq!(buffer.diameter(), None);
}

fn record(time: &str) -> Vec<u8> {
    let mut r = String::new();
    r.push_str("B6034");
    r.push_str("KR4101F30009");
    r.push_str("00000");
    r.push_str("0001234");
    for i in 0..5u32 {
        r.push_str(&format!("{:05}{:07}", 100 + i, 10 + i));
    }
    r.push_str("0005678");
    for i in 0..5u32 {
        r.push_str(&format!("{:05}{:07}", 200 + i, 20 + i));
    }
    r.push_str("00010");
    r.push_str("00010002000300040005");
    r.push_str("00020");
    r.push_str("00060007000800090010");
    r.push_str(time);
    assert_eq!(r.len(), 214);
    r.into_bytes()
}

#[test]
fn parses_a_record() {
    let mut bytes = record("10000050");
    bytes.extend_from_slice(b"tail");
    let packet = t(10, 0, 1, 0);
    let (rest, q) = content_parser(&bytes, packet).unwrap();
    assert_eq!(rest, b"tail");
    assert_eq!(q.issue_code, "KR4101F30009");
    assert_eq!(q.accept_time, t(10, 0, 0, 50));
    assert_eq!(q.packet_time, packet);
    let bids: Vec<(u32, u32)> = q.bids.0.iter().map(|b| (b.price, b.volume)).collect();
    assert_eq!(bids, vec![(100, 10), (101, 11), (102, 12), (103, 13), (104, 14)]);
    let asks: Vec<(u32, u32)> = q.asks.0.iter().map(|a| (a.price, a.volume)).collect();
    assert_eq!(asks, vec![(200, 20), (201, 21), (202, 22), (203, 23), (204, 24)]);
}

#[test]
fn accept_time_in_milliseconds() {
    let (_, q) = content_parser(&record("23595999"), TimeOfDay { millis: 0 }).unwrap();
    assert_eq!(q.accept_time.millis, 86_399_099);
}

#[test]
fn rejects_malformed_records() {
    let packet = TimeOfDay { millis: 0 };
    let good = record("09300000");
    assert!(content_parser(&good[..213], packet).is_err());
    let mut bad_tag = good.clone();
    bad_tag[4] = b'5';
    assert_eq!(content_parser(&bad_tag, packet).err(), Some(DecodeError));
    let mut bad_digit = good.clone();
    bad_digit[30] = b'x';
    assert!(content_parser(&bad_digit, packet).is_err());
    let mut bad_count = good.clone();
    bad_count[170] = b' ';
    assert!(content_parser(&bad_count, packet).is_err());
    assert!(content_parser(&record("24000000"), packet).is_err());
    assert!(content_parser(&record("10600000"), packet).is_err());
    let mut bad_text = good.clone();
    bad_text[6] = 0xff;
    assert!(content_parser(&bad_text, packet).is_err());
}

#[test]
fn plus_sign_is_accepted_in_numbers() {
    let mut bytes = record("10000000");
    bytes[29..34].copy_from_slice(b"+0042");
    let (_, q) = content_parser(&bytes, TimeOfDay { millis: 0 }).unwrap();
    assert_eq!(q.bids.0[0].price, 42);
    bytes[29..34].copy_from_slice(b"+    ");
    assert!(content_parser(&bytes, TimeOfDay { millis: 0 }).is_err());
}

#[test]
fn decodes_at_the_first_offset_that_holds_a_record() {
    let mut data = b"junk".to_vec();
    data.extend(record("10000001"));
    data.extend(record("11000002"));
    let q = decode_record(&data, t(10, 0, 0, 5)).unwrap();
    assert_eq!(q.accept_time, t(10, 0, 0, 1));
    assert!(decode_record(b"no record here", t(0, 0, 0, 0)).is_none());
    assert!(decode_record(&[], t(0, 0, 0, 0)).is_none());
}

#[test]
fn feed_decodes_and_admits() {
    let mut merge = QuoteMerge::new(false, ACCEPT_GAP);
    let mut data = b"xx".to_vec();
    data.extend(record("10000001"));
    let q = merge.feed(&data, t(10, 0, 0, 3)).unwrap();
    assert_eq!(q.accept_time, t(10, 0, 0, 1));
    assert_eq!(q.packet_time, t(10, 0, 0, 3));
    assert!(merge.feed(b"nothing", t(10, 0, 0, 4)).is_none());

    let mut merge = QuoteMerge::new(true, ACCEPT_GAP);
    assert!(merge.feed(&record("10000001"), t(10, 0, 0, 3)).is_none());
    let r = merge.feed(&record("10000500"), t(10, 0, 5, 0));
    assert_eq!(r.map(|q| q.accept_time), Some(t(10, 0, 0, 1)));
    assert_eq!(merge.finish().map(|q| q.accept_time), Some(t(10, 0, 5, 0)));
    assert!(merge.finish().is_none());
}

#[test]
fn quotes_compare_by_accept_time() {
    let a = quote(TimeOfDay { millis: 5 }, TimeOfDay { millis: 9 }, "a");
    let b = quote(TimeOfDay { millis: 5 }, TimeOfDay { millis: 1 }, "b");
    let c = quote(TimeOfDay { millis: 6 }, TimeOfDay { millis: 1 }, "a");
    assert_eq!(a, b);
    assert_ne!(a, c);
    assert_eq!(a.partial_cmp(&c), Some(std::cmp::Ordering::Less));
    assert_eq!(c.partial_cmp(&a), Some(std::cmp::Ordering::Greater));
    assert_eq!(a.partial_cmp(&b), Some(std::cmp::Ordering::Equal));
    assert!(a < c);
}

#[test]
fn levels_default_to_zero() {
    let b = pcap_cli::Bid::default();
    let a = pcap_cli::Ask::default();
    assert_eq!((b.price, b.volume, a.price, a.volume), (0, 0, 0, 0));
}

#[test]
fn reordered_equals_sorted_passthrough() {
    let reordered = order_quotes(skewed_feed(), true, ACCEPT_GAP);
    let mut regular = order_quotes(skewed_feed(), false, ACCEPT_GAP);
    regular.sort_by_key(|k| k.accept_time);
    assert_eq!(reordered, regular);
}

#[test]
fn equal_keys_leave_in_arrival_order() {
    let mut buffer = Buffer::new();
    buffer.insert(quote(TimeOfDay { millis: 10 }, TimeOfDay { millis: 20 }, "first"));
    buffer.insert(quote(TimeOfDay { millis: 5 }, TimeOfDay { millis: 20 }, "low"));
    buffer.insert(quote(TimeOfDay { millis: 10 }, TimeOfDay { millis: 21 }, "second"));
    let mut codes = Vec::new();
    while let Some(q) = buffer.pop() {
        codes.push(q.issue_code);
    }
    assert_eq!(codes, vec!["low", "first", "second"]);
}

#[test]
fn capture_time_on_the_exchange_clock() {
    assert_eq!(pcap_cli::extract_time(0, 0), Some(TimeOfDay { millis: 32_400_000 }));
    assert_eq!(pcap_cli::extract_time(54_000, 500_000), Some(TimeOfDay { millis: 500 }));
    assert_eq!(pcap_cli::extract_time(1_297_835_000, 123_456), Some(TimeOfDay { millis: 53_000_123 }));
    assert_eq!(pcap_cli::extract_time(-1, 999), Some(TimeOfDay { millis: 32_399_000 }));
    assert_eq!(pcap_cli::extract_time(0, -1), None);
    assert_eq!(pcap_cli::extract_time(0, 1_000_000), None);
}
