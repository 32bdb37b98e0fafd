use waterfall::publish::{RowBatch, RowDto};
use waterfall::receiver::{
    ingest_url, inspect, known_flags, load_config, next_publication, queue_rows, snapshot,
    Counters, DefaultRates, GapReport, Handoff, ReceiveRules, Receiver,
};
use waterfall::vita49::{Gap, ParseError};
use waterfall::Row;

const RULES: ReceiveRules = ReceiveRules {
    sample_rate: 2_000_000,
    hexdump_first: 2,
    capture: true,
};

fn packet(ts_frac: u64, components: &[i16]) -> Vec<u8> {
    let words = 5 + components.len() / 2;
    let mut buf = (0x10D0_0000u32 | (words as u32 - 1)).to_be_bytes().to_vec();
    buf.extend([0u8; 4]);
    buf.extend(7u32.to_be_bytes());
    buf.extend(ts_frac.to_be_bytes());
    for c in components {
        buf.extend(c.to_be_bytes());
    }
    buf
}

fn full(ts_frac: u64) -> Vec<u8> {
    packet(ts_frac, &[3; 4096])
}

fn row(sample: u64) -> Row<f32> {
    Row { sample, bins: vec![sample as f32, -1.0] }
}

#[test]
fn nothing_has_happened_at_the_start() {
    let c = Counters::default();
    assert_eq!(c.packets_received, 0);
    assert_eq!(c.last_counter, -1);
    let s = snapshot(&c, 915.0_f64, 2.0, 5, 0.5);
    assert_eq!(s.source, "vita49");
    assert_eq!(s.last_sample_counter, None);
    assert_eq!(s.uptime_secs, 5);
    assert_eq!(s.center_hz, 915.0);
    assert_eq!(s.sample_rate_hz, 2.0);
    assert_eq!(s.packets_per_sec, 0.5);
}

#[test]
fn counts_start_over_behind_the_largest_number() {
    let mut n = 6u64;
    Counters::bump(&mut n);
    assert_eq!(n, 7);
    let mut n = u64::MAX;
    Counters::bump(&mut n);
    assert_eq!(n, 0);
}

#[test]
fn every_datagram_is_counted_once_whatever_becomes_of_it() {
    let mut c = Counters::default();
    let mut r = Receiver::new();
    let mut foreign = full(0);
    foreign[0] = 0x40;
    let mut trailer = full(0);
    trailer[0] |= 0x02;
    let mut odd = full(0);
    odd.push(9);
    let datagrams = [full(0), vec![0; 23], foreign, trailer, odd, full(2048)];
    for (k, d) in datagrams.iter().enumerate() {
        assert!(r.has_room_for(&c, d, RULES.sample_rate));
        let decision = r.on_datagram(&mut c, d, RULES);
        assert_eq!(decision.number, k as u64 + 1);
        assert_eq!(decision.inspect, k < 2);
        assert_eq!(decision.forward, k == 0 || k >= 4);
        if decision.forward {
            let handoff = if k == 4 { Handoff::Full } else { Handoff::Queued };
            assert!(c.on_handoff(handoff));
        }
        assert_eq!(c.packets_received, c.parse_errors + c.packets_analyzed + c.stft_dropped);
        assert_eq!(c.parse_errors, c.too_short + c.wrong_type + c.trailerized);
    }
    assert_eq!(c.too_short, 1);
    assert_eq!(c.wrong_type, 1);
    assert_eq!(c.trailerized, 1);
    assert_eq!(c.stft_dropped, 1);
    assert_eq!(c.packets_analyzed, 2);
    assert_eq!(c.samples_received, 3 * 4096);
    assert_eq!(c.size_field_mismatch, 1);
    assert_eq!(c.last_counter, 14_000_000 + 2048);
    assert_eq!(c.gaps, 0);
    c.on_socket_error();
    assert_eq!(c.socket_errors, 1);
    let before = format!("{c:?}");
    assert!(!c.on_handoff(Handoff::Closed));
    assert_eq!(format!("{c:?}"), before);
}

#[test]
fn gaps_are_counted_and_logged_sparingly() {
    let mut c = Counters::default();
    let mut r = Receiver::new();
    let rules = ReceiveRules { capture: false, ..RULES };
    let mut at = 0;
    r.on_datagram(&mut c, &full(at), rules);
    let mut logged = Vec::new();
    for n in 1..=200u64 {
        at += 2048 + 100;
        let decision = r.on_datagram(&mut c, &full(at), rules);
        if n == 1 {
            assert_eq!(
                decision.report,
                Some(GapReport {
                    gap: Gap { at_counter: 14_000_000 + at, missing_samples: 100 },
                    gaps: 1,
                    missing_samples: 100,
                })
            );
        }
        if decision.report.is_some() {
            logged.push(n);
        }
        assert_eq!(c.gaps, n);
        assert_eq!(c.missing_samples, 100 * n);
    }
    assert_eq!(logged, vec![1, 2, 3, 4, 5, 100, 200]);
}

#[test]
fn a_counter_that_goes_back_shows_at_once() {
    let mut c = Counters::default();
    let mut r = Receiver::new();
    r.on_datagram(&mut c, &full(4096), RULES);
    assert_eq!(c.out_of_order, 0);
    assert_eq!(r.on_datagram(&mut c, &full(0), RULES).report, None);
    assert_eq!((c.out_of_order, c.gaps, c.missing_samples), (1, 0, 0));
    assert_eq!(r.tracker.out_of_order, 1);
    r.on_datagram(&mut c, &[0; 4], RULES);
    assert_eq!((c.out_of_order, c.gaps, c.missing_samples), (1, 0, 0));
    r.on_datagram(&mut c, &full(5000), RULES);
    assert_eq!((c.out_of_order, c.gaps, c.missing_samples), (1, 1, 5000 - 2048));
}

#[test]
fn at_most_one_full_datagram_is_captured() {
    let mut c = Counters::default();
    let mut r = Receiver::new();
    assert!(!r.on_datagram(&mut c, &[0; 4], RULES).capture);
    assert!(r.on_datagram(&mut c, &full(0), RULES).capture);
    assert!(!r.on_datagram(&mut c, &full(2048), RULES).capture);

    // A short first packet uses the only chance up.
    let mut r = Receiver::new();
    assert!(!r.on_datagram(&mut c, &packet(0, &[1, 2]), RULES).capture);
    assert!(r.fixture_written);
    assert!(!r.on_datagram(&mut c, &full(0), RULES).capture);

    let mut r = Receiver::new();
    let rules = ReceiveRules { capture: false, ..RULES };
    assert!(!r.on_datagram(&mut c, &full(0), rules).capture);
    assert!(!r.fixture_written);
}

#[test]
fn a_huge_counter_is_held_at_the_largest_signed_number() {
    let mut c = Counters::default();
    let mut r = Receiver::new();
    r.on_datagram(&mut c, &full(u64::MAX), RULES);
    assert_eq!(c.last_counter, i64::MAX);
    c.packets_received = u64::MAX;
    assert!(!r.has_room_for(&c, &full(0), RULES.sample_rate));
}

#[test]
fn every_row_is_queued_dropped_published_or_lost() {
    let mut c = Counters::default();
    let mut batch: RowBatch<f32> = RowBatch::new(3);
    queue_rows(vec![], &mut batch, &mut c);
    assert_eq!(c.rows_produced, 0);
    assert!(next_publication(&mut batch, &mut c, 1.0_f64, 2.0).is_none());

    queue_rows((0..5).map(row).collect(), &mut batch, &mut c);
    assert_eq!(c.rows_produced, 5);
    assert_eq!(c.publish_dropped, 2);
    c.packets_received = 40;
    c.parse_errors = 3;
    c.stft_dropped = 4;
    c.gaps = 5;
    c.missing_samples = 6;
    c.rcvbuf_bytes = 7;
    let request = next_publication(&mut batch, &mut c, 915e6_f64, 2e6).expect("rows wait");
    assert_eq!(
        request.rows,
        vec![
            RowDto { sample: 2, bins: vec![2.0, -1.0] },
            RowDto { sample: 3, bins: vec![3.0, -1.0] },
            RowDto { sample: 4, bins: vec![4.0, -1.0] },
        ]
    );
    assert_eq!(request.meta.source, "vita49");
    assert_eq!(request.meta.center_hz, 915e6);
    assert_eq!(request.meta.sample_rate_hz, 2e6);
    assert_eq!(request.meta.last_sample_counter, 0);
    assert_eq!(request.meta.packets_received, 40);
    assert_eq!(request.meta.parse_errors, 3);
    assert_eq!(request.meta.stft_dropped, 4);
    assert_eq!(request.meta.gaps, 5);
    assert_eq!(request.meta.missing_samples, 6);
    assert_eq!(request.meta.rcvbuf_bytes, 7);
    assert_eq!(request.meta.publish_dropped, 2);
    assert!(batch.is_empty());

    assert!(!c.on_post(true, 3));
    assert_eq!((c.batches_sent, c.rows_published), (1, 3));
    queue_rows(vec![row(9)], &mut batch, &mut c);
    c.last_counter = 77;
    let request = next_publication(&mut batch, &mut c, 915e6_f64, 2e6).expect("a row waits");
    assert_eq!(request.meta.last_sample_counter, 77);
    assert!(c.on_post(false, 1));
    assert_eq!((c.bridge_errors, c.rows_lost_to_bridge), (1, 1));
    assert_eq!(
        c.rows_produced,
        batch.len() as u64 + batch.dropped() + c.rows_published + c.rows_lost_to_bridge
    );
    assert_eq!(snapshot(&c, 0.0_f64, 0.0, 0, 0.0).last_sample_counter, Some(77));
}

#[test]
fn failed_posts_are_logged_sparingly() {
    let mut c = Counters::default();
    let logged: Vec<u64> = (1..=130).filter(|_| c.on_post(false, 2)).collect();
    assert_eq!(logged, vec![1, 2, 3, 4, 5, 60, 120]);
    assert_eq!(c.rows_lost_to_bridge, 260);
}

#[test]
fn slashes_at_the_end_of_the_bridge_address_do_not_matter() {
    assert_eq!(ingest_url("http://host:4780"), "http://host:4780/ingest");
    assert_eq!(ingest_url("http://host:4780///"), "http://host:4780/ingest");
    assert_eq!(ingest_url("//"), "/ingest");
    assert_eq!(ingest_url(""), "/ingest");
}

#[test]
fn inspection_shows_the_wire() {
    let d = packet(5, &[0, 3, 3, -1, 0, 0]);
    let i = inspect(&d, 2_000_000);
    assert_eq!(i.len, 32);
    assert_eq!(i.header_word, 0x10D0_0007);
    assert_eq!(i.header.size_words, 7);
    assert_eq!(i.first, d);
    assert!(i.last.is_empty());
    let p = i.payload.expect("parses");
    assert_eq!(p.ts_int, 7);
    assert_eq!(p.ts_frac, 5);
    assert_eq!(p.sample_counter, 14_000_005);
    assert_eq!((p.complex_samples, p.components), (3, 6));
    assert_eq!((p.distinct, p.nonzero, p.degenerate), (3, 3, false));
    assert!(p.size_field_matches);

    let d = full(0);
    let i = inspect(&d, 2_000_000);
    assert_eq!(i.first, d[..64]);
    assert_eq!(i.last, d[8196..]);
    let p = i.payload.expect("parses");
    assert_eq!((p.distinct, p.nonzero, p.degenerate), (1, 4096, true));

    let i = inspect(&[0xFF; 3], 1);
    assert_eq!((i.len, i.header_word), (3, 0));
    assert_eq!(i.payload, Err(ParseError::TooShort { len: 3, need: 24 }));
    assert_eq!(inspect(&[0xFF; 64], 1).last, vec![]);
    assert_eq!(inspect(&[0xFF; 65], 1).last, vec![0xFF; 16]);
}

#[test]
fn configuration_comes_from_environment_flags_and_defaults() {
    let rates = DefaultRates { sample_rate: 2e6_f64, center_hz: 915e6, publish_hz: 30.0 };
    let c = load_config(&[], None, None, rates);
    assert_eq!(c.listen, "0.0.0.0:4820");
    assert_eq!(c.bridge_url, "http://waterfall-ui.default.svc.cluster.local:4780");
    assert_eq!((c.sample_rate, c.center_hz, c.publish_hz), (2e6, 915e6, 30.0));
    assert_eq!(c.stats_listen, "0.0.0.0:4830");
    assert_eq!((c.rcvbuf, c.hexdump_first), (8 * 1024 * 1024, 0));
    assert_eq!(c.capture_fixture, None);

    let argv: Vec<String> = [
        "bin", "--listen=a", "--bridge-url", "b", "--sample-rate=1.5", "--center-freq", "x",
        "--publish-hz=9", "--stats-listen=s", "--rcvbuf=12", "--hexdump-first", "3",
        "--capture-fixture=f",
    ]
    .iter()
    .map(|s| s.to_string())
    .collect();
    let c = load_config(&argv, None, Some("env".to_string()), rates);
    assert_eq!(c.listen, "a");
    assert_eq!(c.bridge_url, "env");
    assert_eq!((c.sample_rate, c.center_hz, c.publish_hz), (1.5, 915e6, 9.0));
    assert_eq!(c.stats_listen, "s");
    assert_eq!((c.rcvbuf, c.hexdump_first), (12, 3));
    assert_eq!(c.capture_fixture, Some("f".to_string()));
    assert!(waterfall::cli::unknown_flags(&argv, &known_flags()).is_empty());
    assert_eq!(load_config(&argv, Some("e".to_string()), None, rates).listen, "e");
}
