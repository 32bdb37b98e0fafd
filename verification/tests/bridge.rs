use waterfall::bridge::{known_flags, load_config, Bridge, Source, SweepEntry, MAX_CHUNKS};
use waterfall::publish::{IngestMeta, IngestRequest, RowDto};
use waterfall::Row;

const SECOND: u128 = 1_000_000_000;

fn meta(gaps: u64) -> IngestMeta<f64> {
    IngestMeta {
        source: "vita49".to_string(),
        center_hz: 915e6,
        sample_rate_hz: 2e6,
        last_sample_counter: 1,
        gaps,
        missing_samples: 2,
        packets_received: 3,
        parse_errors: 4,
        stft_dropped: 5,
        publish_dropped: 6,
        rcvbuf_bytes: 7,
    }
}

fn request(samples: std::ops::Range<u64>) -> IngestRequest<f32, f64> {
    IngestRequest {
        rows: samples
            .map(|sample| RowDto { sample, bins: vec![sample as f32; 3] })
            .collect(),
        meta: meta(11),
    }
}


fn positions(rows: &[SweepEntry<f32>]) -> Vec<u64> {
    rows.iter().map(|r| r.samples).collect()
}

fn bridge() -> Bridge<f32, f64> {
    Bridge::new(Source::Ingest, 0.0)
}

#[test]
fn rows_are_acknowledged_fanned_out_and_remembered() {
    let mut b = bridge();
    assert!(b.can_ingest(4));
    let (ack, fan_out) = b.ingest(request(10..14), 5);
    assert_eq!((ack.accepted, ack.ring_len), (4, 4));
    assert_eq!(positions(&fan_out), vec![10, 11, 12, 13]);
    assert_eq!(fan_out[1].kind, "sweep");
    assert_eq!(fan_out[1].bins, 3);
    assert_eq!(fan_out[1].intensity, vec![11.0; 3]);
    assert_eq!(positions(&b.chunks(None, None)), vec![10, 11, 12, 13]);
    let m = b.meta(5);
    assert_eq!(m.source, "vita49");
    assert_eq!(m.configured_source, "ingest");
    assert_eq!((m.center_hz, m.sample_rate_hz, m.bins), (915e6, 2e6, 3));
    assert_eq!((m.rows_ingested, m.batches_ingested, m.ring_len), (4, 1, 4));
    assert_eq!(m.consumer, Some(meta(11)));
    let s = b.stats(9, 5);
    assert_eq!((s.subscribers, s.ring_capacity, s.ring_len), (9, 512, 4));
    assert_eq!((s.rows_ingested, s.batches_ingested, s.stale), (4, 1, false));
    assert_eq!((s.source.as_str(), s.configured_source), ("vita49", "ingest"));
    assert_eq!(s.consumer, Some(meta(11)));
}

#[test]
fn the_history_is_bounded_and_keeps_the_newest_rows() {
    let mut b = bridge();
    let (ack, fan_out) = b.ingest(request(0..600), 1);
    assert_eq!((ack.accepted, ack.ring_len), (600, MAX_CHUNKS));
    assert_eq!(fan_out.len(), 600);
    b.ingest(request(600..610), 2);
    let rows = b.chunks(None, Some(10_000));
    assert_eq!(positions(&rows), (98..610).collect::<Vec<u64>>());
    assert_eq!(b.meta(2).rows_ingested, 610);
    assert_eq!(b.meta(2).batches_ingested, 2);
}

#[test]
fn chunks_start_at_the_time_asked_for() {
    let mut b = bridge();
    b.ingest(request(0..300), 1);
    assert_eq!(b.chunks(None, None).len(), 128);
    assert_eq!(positions(&b.chunks(Some(7), Some(3))), vec![7, 8, 9]);
    assert_eq!(positions(&b.chunks(Some(298), Some(30))), vec![298, 299]);
    assert!(b.chunks(Some(300), None).is_empty());
    assert!(b.chunks(None, Some(0)).is_empty());
    assert!(bridge().chunks(None, None).is_empty());
}

#[test]
fn chunks_are_selected_and_ordered_whatever_the_history() {
    // A producer that restarted counts from zero again.
    let mut b = bridge();
    b.ingest(request(4096..4097), 1);
    b.ingest(request(0..1), 2);
    b.ingest(request(1024..1025), 3);
    assert_eq!(positions(&b.chunks(Some(2048), None)), vec![4096]);
    assert_eq!(positions(&b.chunks(None, None)), vec![0, 1024, 4096]);
    assert_eq!(positions(&b.chunks(Some(1), Some(1))), vec![1024]);

    // Rows at the same position stay as they came.
    let mut b = bridge();
    for (sample, bin) in [(5, 1.0), (3, 2.0), (5, 3.0), (3, 4.0), (9, 5.0), (5, 6.0)] {
        b.ingest(
            IngestRequest { rows: vec![RowDto { sample, bins: vec![bin] }], meta: meta(0) },
            1,
        );
    }
    let rows = b.chunks(None, None);
    assert_eq!(positions(&rows), vec![3, 3, 5, 5, 5, 9]);
    let bins: Vec<f32> = rows.iter().map(|r| r.intensity[0]).collect();
    assert_eq!(bins, vec![2.0, 4.0, 1.0, 3.0, 6.0, 5.0]);
}

#[test]
fn batches_without_rows_do_not_freshen_the_feed() {
    let mut b = bridge();
    let (ack, fan_out) = b.ingest(request(0..0), 4 * SECOND);
    assert_eq!((ack.accepted, ack.ring_len), (0, 0));
    assert!(fan_out.is_empty());
    let m = b.meta(4 * SECOND);
    assert!(m.stale);
    assert_eq!((m.source.as_str(), m.stale_ms), ("", None));
    assert_eq!((m.bins, m.rows_ingested, m.batches_ingested), (0, 0, 1));
    assert_eq!(m.consumer, Some(meta(11)));

    b.ingest(request(0..1), 5 * SECOND);
    assert!(!b.meta(5 * SECOND).stale);
    for second in 6..10 {
        b.ingest(request(0..0), second * SECOND);
    }
    let m = b.meta(9 * SECOND);
    assert!(m.stale);
    assert_eq!(m.stale_ms, Some(4000));
    assert_eq!((m.source.as_str(), m.bins, m.ring_len), ("vita49", 3, 1));
    assert_eq!((m.rows_ingested, m.batches_ingested), (1, 6));
}

#[test]
fn the_producer_shown_is_the_one_that_last_delivered_a_row() {
    let mut b: Bridge<f32, f64> = Bridge::new(Source::Synthetic, 0.0);
    b.begin_synthetic(1.0, 2.0);
    b.ingest(request(0..1), 1);
    assert_eq!(b.meta(1).source, "vita49");
    b.accept_generated(Row { sample: 0, bins: vec![0.5] }, 2);
    assert_eq!(b.meta(2).source, "synthetic");
    b.ingest(request(0..0), 3);
    assert_eq!(b.meta(3).source, "synthetic");
}

#[test]
fn a_feed_goes_stale_after_three_seconds() {
    let mut b = bridge();
    let m = b.meta(5);
    assert!(m.stale);
    assert_eq!(m.stale_ms, None);
    assert_eq!(m.source, "");
    assert_eq!(m.center_hz, 0.0);
    b.ingest(request(0..1), 10 * SECOND);
    assert_eq!(b.meta(10 * SECOND + 1_999_999).stale_ms, Some(1));
    assert!(!b.meta(13 * SECOND).stale);
    assert_eq!(b.meta(13 * SECOND).stale_ms, Some(3000));
    assert!(!b.meta(13 * SECOND + 999_999).stale);
    assert!(b.meta(13 * SECOND + 1_000_000).stale);
    assert!(b.meta(1000 * SECOND).stale);
    // The clock went back.
    assert!(b.meta(9 * SECOND).stale);
    assert_eq!(b.source_meta(9 * SECOND).stale_ms, None);
}

#[test]
fn generated_rows_are_remembered_like_others() {
    let mut b: Bridge<f32, f64> = Bridge::new(Source::Synthetic, 0.0);
    b.begin_synthetic(1.0, 2.0);
    assert_eq!(b.meta(0).source, "synthetic");
    assert!(b.meta(0).stale);
    for k in 0..520u64 {
        let entry = b.accept_generated(Row { sample: k, bins: vec![0.5; 2] }, 7);
        assert_eq!((entry.kind, entry.bins, entry.samples), ("sweep", 2, k));
        assert_eq!(entry.intensity, vec![0.5; 2]);
    }
    let m = b.meta(7);
    assert_eq!((m.rows_ingested, m.batches_ingested, m.ring_len), (520, 0, 512));
    assert_eq!((m.center_hz, m.sample_rate_hz, m.bins), (1.0, 2.0, 2));
    assert_eq!(m.configured_source, "synthetic");
    assert!(m.consumer.is_none());
    assert_eq!(b.chunks(None, None)[0].samples, 8);
}

#[test]
fn only_the_development_source_generates_rows() {
    for (name, source) in [
        ("ingest", Source::Ingest),
        ("vita49", Source::Ingest),
        ("synthetic", Source::Synthetic),
        ("Ingest", Source::Synthetic),
        ("", Source::Synthetic),
    ] {
        assert_eq!(Source::from_name(name), source);
    }
    assert!(Source::Synthetic.generates());
    assert!(!Source::Ingest.generates());
    assert_eq!(Source::Ingest.name(), "ingest");
    assert_eq!(Source::Synthetic.name(), "synthetic");
}

#[test]
fn settings_come_from_environment_flags_and_defaults() {
    let c = load_config(&[], None, None, 915e6_f64, 2e6);
    assert_eq!(c.listen, "127.0.0.1:4780");
    assert_eq!(c.static_dir, ".");
    assert_eq!(c.sweep_ms, 60);
    assert_eq!(c.source, Source::Synthetic);
    assert_eq!((c.center_hz, c.sample_rate_hz), (915e6, 2e6));

    let argv: Vec<String> = [
        "bin", "--source=ingest", "--static", "/app/static", "--sweep-ms=40", "--center-freq=1",
        "--sample-rate", "2",
    ]
    .iter()
    .map(|s| s.to_string())
    .collect();
    let c = load_config(&argv, Some("0.0.0.0:1".to_string()), None, 915e6_f64, 2e6);
    assert_eq!(c.listen, "0.0.0.0:1");
    assert_eq!(c.static_dir, "/app/static");
    assert_eq!(c.sweep_ms, 40);
    assert_eq!(c.source, Source::Ingest);
    assert_eq!((c.center_hz, c.sample_rate_hz), (1.0, 2.0));
    assert!(waterfall::cli::unknown_flags(&argv, &known_flags()).is_empty());
    let c = load_config(&argv, None, Some("synthetic".to_string()), 915e6_f64, 2e6);
    assert_eq!(c.source, Source::Synthetic);
}
