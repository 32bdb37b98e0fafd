use waterfall::vita49::{
    parse_datagram, parse_header, GapTracker, ParseError, HEADER_BYTES, IF_DATA_PACKET_TYPE,
    MIN_DATAGRAM_BYTES, NOMINAL_COMPLEX_SAMPLES, NOMINAL_DATAGRAM_BYTES, NOMINAL_SAMPLE_RATE,
    TSF_SAMPLE_COUNT, TSI_OTHER,
};

const SAMPLE_RATE: u64 = NOMINAL_SAMPLE_RATE;

/// A full 2048-sample packet, bytes written out so that the test proves the layout
/// independently.
fn full_packet(ts_int: u32, ts_frac: u64) -> Vec<u8> {
    let samples = NOMINAL_COMPLEX_SAMPLES;
    let total_words = 5 + samples; // 2053
    let mut buf = vec![0u8; total_words * 4]; // 8212

    // 0x1 << 28 | 0x3 << 22 | 0x1 << 20 | (total_words - 1)
    let header: u32 = 0x10D0_0000 | (total_words as u32 - 1);
    buf[0..4].copy_from_slice(&header.to_be_bytes());
    buf[4..8].copy_from_slice(&0u32.to_be_bytes()); // stream id (0 today)
    buf[8..12].copy_from_slice(&ts_int.to_be_bytes());
    buf[12..20].copy_from_slice(&ts_frac.to_be_bytes());

    // Ramp payload: I = i, Q = -i, so layout errors are visible.
    for i in 0..samples {
        let (re, im) = (i as i16, -(i as i16));
        let off = HEADER_BYTES + i * 4;
        buf[off..off + 2].copy_from_slice(&re.to_be_bytes());
        buf[off + 2..off + 4].copy_from_slice(&im.to_be_bytes());
    }
    buf
}

#[test]
fn header_bit_fields_are_decoded() {
    let h = parse_header(0x10D0_0804);
    assert_eq!(h.packet_type, IF_DATA_PACKET_TYPE);
    assert!(!h.class_id_present);
    assert!(!h.trailer_present);
    assert_eq!(h.tsi, TSI_OTHER);
    assert_eq!(h.tsf, TSF_SAMPLE_COUNT);
    assert_eq!(h.packet_count, 0);
    assert_eq!(h.size_words, 0x0804);
    assert_eq!(h.declared_bytes(), NOMINAL_DATAGRAM_BYTES);
    assert_eq!(h.raw, 0x10D0_0804);
}

#[test]
fn header_class_id_and_trailer_bits_are_surfaced() {
    let h = parse_header(0x1 << 28 | 1 << 27 | 1 << 25);
    assert!(h.class_id_present);
    assert!(h.trailer_present);
}

#[test]
fn full_packet_parses_with_twenty_byte_header() {
    let datagram = full_packet(7, 1024);
    let pkt = parse_datagram(&datagram).expect("full packet parses");

    assert_eq!(datagram.len(), NOMINAL_DATAGRAM_BYTES);
    assert_eq!(pkt.header.raw, 0x10D0_0804);
    assert_eq!(pkt.header.size_words, 2052);
    assert!(pkt.size_field_matches);
    assert_eq!(pkt.stream_id, 0);
    assert_eq!(pkt.ts_int, 7);
    assert_eq!(pkt.ts_frac, 1024);
    assert_eq!(pkt.payload.len(), 8192);
    assert_eq!(pkt.complex_samples(), NOMINAL_COMPLEX_SAMPLES);
    assert_eq!(pkt.trailing_bytes, 0);

    // First and last complex samples of the ramp survive big-endian decoding.
    // Note -1 >> 8 == -1 (arithmetic shift keeps the sign), which is the
    // sc16 to i8 behaviour the dBFS calibration depends on.
    let iq = pkt.to_i8();
    assert_eq!(iq.len(), NOMINAL_COMPLEX_SAMPLES * 2);
    assert_eq!(&iq[0..4], &[0, 0, 0, -1], "i=0 -> 0, i=1 -> (0, -1)");
    let last = iq.len() - 2;
    assert_eq!(iq[last], (2047i16 >> 8) as i8);
    assert_eq!(iq[last + 1], ((-2047i16) >> 8) as i8);
}

#[test]
fn sign_and_scale_of_the_sc16_to_i8_conversion_is_exact() {
    // Full-scale magnitudes must map onto the 127 reference of the dB scale.
    let mut buf = full_packet(0, 0);
    buf[HEADER_BYTES..HEADER_BYTES + 2].copy_from_slice(&32767i16.to_be_bytes());
    buf[HEADER_BYTES + 2..HEADER_BYTES + 4].copy_from_slice(&(-32768i16).to_be_bytes());
    let pkt = parse_datagram(&buf).unwrap();
    let iq = pkt.to_i8();
    assert_eq!(iq[0], 127, "32767 >> 8 == 127 == i8 full scale");
    assert_eq!(iq[1], -128, "-32768 >> 8 == -128");
}

#[test]
fn short_packet_is_sized_from_the_datagram_not_assumed_full() {
    // Three complex samples: 5 + 3 = 8 words = 32 bytes, size field 7.
    let mut buf = vec![0u8; HEADER_BYTES + 3 * 4];
    buf[0..4].copy_from_slice(&(0x10D0_0000u32 | 7).to_be_bytes());
    buf[8..12].copy_from_slice(&99u32.to_be_bytes());
    buf[12..20].copy_from_slice(&2048u64.to_be_bytes());
    for i in 0..3 {
        let off = HEADER_BYTES + i * 4;
        buf[off..off + 2].copy_from_slice(&(256i16 * (i as i16 + 1)).to_be_bytes());
    }

    let pkt = parse_datagram(&buf).expect("short packet parses");
    assert_eq!(pkt.header.size_words, 7);
    assert!(pkt.size_field_matches);
    assert_eq!(pkt.complex_samples(), 3);
    assert_eq!(pkt.to_i8()[0], 1); // 256 >> 8
}

#[test]
fn legacy_8202_byte_layout_is_tolerated_but_flagged() {
    // A sender that declared 4101 pseudo-words for an 8202-byte datagram whose
    // payload ran to byte 8212. The datagram length wins.
    let mut buf = vec![0u8; 8202];
    buf[0..4].copy_from_slice(&0x10D0_1004u32.to_be_bytes());
    buf[12..20].copy_from_slice(&1500u64.to_be_bytes());

    let pkt = parse_datagram(&buf).expect("legacy datagram still parses");
    assert_eq!(pkt.header.size_words, 4100);
    assert!(!pkt.size_field_matches, "declared 16404 bytes, delivered 8202");
    assert_eq!(pkt.payload.len(), 8180, "whole words only");
    assert_eq!(pkt.complex_samples(), 2045);
    assert_eq!(pkt.trailing_bytes, 2);
    assert_eq!(pkt.ts_frac, 1500);
}

#[test]
fn truncated_datagrams_are_rejected_without_panicking() {
    for len in 0..MIN_DATAGRAM_BYTES {
        let buf = vec![0u8; len];
        let err = parse_datagram(&buf).expect_err("must reject");
        assert_eq!(err, ParseError::TooShort { len, need: MIN_DATAGRAM_BYTES });
    }

    // The header is 20 bytes, so 27 bytes carry one usable sample and the 3
    // leftover bytes are discarded rather than failing the packet.
    let mut buf = vec![0u8; 27];
    buf[0..4].copy_from_slice(&(0x10D0_0000u32 | 6).to_be_bytes());
    let pkt = parse_datagram(&buf).expect("20-byte header + 7 payload bytes");
    assert_eq!(pkt.complex_samples(), 1);
    assert_eq!(pkt.trailing_bytes, 3);
    assert!(!pkt.size_field_matches);
}

#[test]
fn foreign_and_trailerized_datagrams_are_rejected() {
    let mut ctx = full_packet(0, 0);
    // Context packet (type 0x4) must never be accepted as I/Q.
    ctx[0] = 0x40;
    assert_eq!(
        parse_datagram(&ctx).unwrap_err(),
        ParseError::UnsupportedPacketType(0x4)
    );

    let mut trailer = full_packet(0, 0);
    let header = u32::from_be_bytes([trailer[0], trailer[1], trailer[2], trailer[3]]);
    trailer[0..4].copy_from_slice(&(header | (1 << 25)).to_be_bytes());
    assert_eq!(
        parse_datagram(&trailer).unwrap_err(),
        ParseError::UnsupportedTrailer
    );
}

#[test]
fn timestamp_fraction_rolls_over_into_seconds() {
    // Fraction near the top of one second, then a carry: the unwrapped counter must
    // stay monotonic across the boundary.
    let before_datagram = full_packet(100, 1_999_000);
    let after_datagram = full_packet(101, 1024);
    let before = parse_datagram(&before_datagram).unwrap();
    let after = parse_datagram(&after_datagram).unwrap();

    let c0 = before.sample_counter(SAMPLE_RATE);
    let c1 = after.sample_counter(SAMPLE_RATE);
    assert!(c1 > c0, "counter must be monotonic across ts_int carry");
    assert_eq!(c0, 100 * 2_000_000 + 1_999_000);
    assert_eq!(c1, 101 * 2_000_000 + 1024);
    // The step is real, visible loss: 1000 samples remained in the first second when
    // the previous packet was stamped, plus 1024 into the next.
    let step = c1 - c0;
    assert_eq!(step, (2_000_000 - 1_999_000) + 1024);
}

#[test]
fn counter_wraps_ts_frac_at_the_sample_rate() {
    // ts_frac is 0..sample_rate-1 and must be interpreted in sample counts, never as
    // a sub-second fraction.
    let datagram = full_packet(0, 1_999_999);
    let pkt = parse_datagram(&datagram).unwrap();
    assert_eq!(pkt.sample_counter(SAMPLE_RATE), 1_999_999);
    assert!(pkt.ts_frac < NOMINAL_SAMPLE_RATE);
}

#[test]
fn gap_tracker_reports_only_real_discontinuities() {
    let mut t = GapTracker::new(NOMINAL_COMPLEX_SAMPLES as u64);

    assert_eq!(t.observe(0, 2048), None);
    assert_eq!(t.observe(2048, 2048), None, "contiguous");
    assert_eq!(t.observe(4096, 2048), None, "contiguous");

    // Unsigned shift in 1 sample (sender truncation): not loss.
    assert_eq!(t.observe(6143, 2048), None);
    assert_eq!(t.gaps, 0);

    // Short read: step below nominal is not loss either.
    assert_eq!(t.observe(7167, 1024), None);
    assert_eq!(t.gaps, 0);

    // A real dropout of three packets.
    let gap = t.observe(7167 + 2048 * 4, 2048).expect("gap detected");
    assert_eq!(gap.missing_samples, 2048 * 3);
    assert_eq!(t.gaps, 1);
    assert_eq!(t.missing_samples, 2048 * 3);

    // Backwards counter: counted, never treated as a huge gap.
    assert_eq!(t.observe(100, 2048), None);
    assert_eq!(t.out_of_order, 1);
    assert_eq!(t.gaps, 1);

    assert_eq!(t.last_counter(), Some(100));
}

#[test]
fn gap_tracker_counts_a_non_contiguous_injected_sequence() {
    // Feed a deliberately gapped sequence: 0, 2048, [drop 2], 8192.
    let mut t = GapTracker::new(2048);
    for counter in [0u64, 2048, 8192] {
        t.observe(counter, 2048);
    }
    assert_eq!(t.gaps, 1);
    assert_eq!(t.missing_samples, 4096);
}

#[test]
fn one_sample_of_slack_is_no_gap_and_two_are() {
    let mut t = GapTracker::new(2048);
    assert_eq!(t.last_counter(), None);
    assert_eq!(t.observe(1_000_000, 2048), None, "the first packet is no gap");
    assert_eq!(t.observe(1_000_000 + 2049, 2048), None);
    assert_eq!(t.last_step, 2049);
    let gap = t.observe(1_002_049 + 2050, 2048).unwrap();
    assert_eq!(gap.at_counter, 1_004_099);
    assert_eq!(gap.missing_samples, 2);
    assert_eq!(t.observe(1_004_099, 2048), None, "a repeated counter is no loss");
    assert_eq!(t.out_of_order, 0);
}

#[test]
fn a_tracker_says_when_its_counts_are_full() {
    let mut t = GapTracker::default();
    assert_eq!(t.last_counter(), None);
    assert!(t.has_room_for(u64::MAX));
    t.observe(0, 0);
    t.missing_samples = u64::MAX - 10;
    assert!(t.has_room_for(10));
    assert!(!t.has_room_for(11));
    t.missing_samples = 0;
    t.gaps = u64::MAX;
    assert!(t.has_room_for(1));
    assert!(!t.has_room_for(2));
}

#[test]
fn header_fields_stand_at_their_bits() {
    let h = parse_header(0x1 << 28 | 2 << 22 | 1 << 20 | 9 << 16 | 0xABCD);
    assert_eq!(h.packet_type, 1);
    assert_eq!(h.tsi, 2);
    assert_eq!(h.tsf, 1);
    assert_eq!(h.packet_count, 9);
    assert_eq!(h.size_words, 0xABCD);
    assert!(!h.class_id_present && !h.trailer_present);
    assert_eq!(parse_header(0xFFFF_FFFF).declared_bytes(), 262_144);
    assert_eq!(parse_header(0).declared_bytes(), 4);
}

#[test]
fn parsing_gives_back_what_was_framed() {
    let mut buf = full_packet(0x0102_0304, 0x1122_3344_5566_7788);
    buf[4..8].copy_from_slice(&0xA1B2_C3D4u32.to_be_bytes());
    let pkt = parse_datagram(&buf).unwrap();
    assert_eq!(pkt.stream_id, 0xA1B2_C3D4);
    assert_eq!(pkt.ts_int, 0x0102_0304);
    assert_eq!(pkt.ts_frac, 0x1122_3344_5566_7788);
    assert_eq!(pkt.payload, &buf[20..]);
    assert_eq!(pkt.components(), 4096);
    let iq = pkt.to_i16();
    assert_eq!(iq.len(), 4096);
    assert_eq!(iq[2 * 700], 700);
    assert_eq!(iq[2 * 700 + 1], -700);
}

#[test]
fn the_counter_saturates() {
    let datagram = full_packet(u32::MAX, u64::MAX);
    let pkt = parse_datagram(&datagram).unwrap();
    assert_eq!(pkt.sample_counter(2_000_000), u64::MAX);
    assert_eq!(pkt.sample_counter(u64::MAX), u64::MAX);
    let datagram = full_packet(3, 7);
    let pkt = parse_datagram(&datagram).unwrap();
    assert_eq!(pkt.sample_counter(u64::MAX), u64::MAX);
    assert_eq!(pkt.sample_counter(0), 7);
}

#[test]
fn errors_say_what_is_wrong() {
    assert_eq!(
        ParseError::TooShort { len: 7, need: 24 }.message(),
        "datagram too short: 7 bytes, need at least 24"
    );
    assert_eq!(
        ParseError::TooShort { len: 0, need: 1000 }.message(),
        "datagram too short: 0 bytes, need at least 1000"
    );
    assert_eq!(
        ParseError::UnsupportedPacketType(0xF).message(),
        "unsupported VITA49 packet type 0xf (expected IF Data 0x1)"
    );
    assert_eq!(
        ParseError::UnsupportedTrailer.message(),
        "VITA49 trailer bit set; payload trailer not supported"
    );
}
