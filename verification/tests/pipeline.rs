//! Samples, packets and tones through the real transform.
//!
//! Numbers asserted for a 2 MS/s stream with a 4096-point transform:
//!   * a tone at bin 512 is 250 kHz above DC,
//!   * amplitude 64 (of the 127 full scale) reads 20*log10(64/127) = -5.94 dBFS.

use num_complex::Complex;
use rand::Rng;
use rustfft::{Fft, FftPlanner};
use std::f32::consts::PI;
use std::sync::Arc;
use waterfall::consumer::PacketProcessor;
use waterfall::vita49::{
    parse_datagram, GapTracker, ParseError, NOMINAL_COMPLEX_SAMPLES, NOMINAL_SAMPLE_RATE,
};
use waterfall::{
    bytes_to_complex, complex_vec_to_bytes, stft, Iq, Row, StftProcessor, FFT_SIZE, HOP_SIZE,
};

// ---------------- Transforms ----------------

fn planned(n: usize) -> Arc<dyn Fft<f32>> {
    FftPlanner::<f32>::new().plan_fft_forward(n)
}

fn transform(fft: &Arc<dyn Fft<f32>>, window: &[Iq]) -> Vec<Complex<f32>> {
    let mut buffer: Vec<Complex<f32>> = window
        .iter()
        .map(|s| Complex::new(s.re as f32, s.im as f32))
        .collect();
    fft.process(&mut buffer);
    buffer
}

/// Power in dBFS against `full_scale`, clipped to -100..0.
fn decibels(bins: &[Complex<f32>], full_scale: f32) -> Vec<f32> {
    let n = bins.len().max(1) as f32;
    bins.iter()
        .map(|c| {
            let amp = (c.norm() / n).max(1e-12);
            (20.0 * (amp / full_scale).log10()).clamp(-100.0, 0.0)
        })
        .collect()
}

/// Whole transform of the 8-bit path: bins as complex numbers.
fn spectrum() -> impl Fn(&[Iq]) -> Result<Vec<Complex<f32>>, String> + Sync {
    let fft = planned(FFT_SIZE);
    move |window: &[Iq]| Ok(transform(&fft, window))
}

/// Power per bin of the 8-bit path.
fn backend() -> impl Fn(&[Iq]) -> Vec<f32> {
    let fft = planned(FFT_SIZE);
    move |window: &[Iq]| decibels(&transform(&fft, window), 127.0)
}

/// Power per bin of the 16-bit path.
fn backend_sc16() -> impl Fn(&[Iq]) -> Vec<f32> {
    let fft = planned(FFT_SIZE);
    move |window: &[Iq]| decibels(&transform(&fft, window), 32767.0)
}

fn zero() -> Complex<f32> {
    Complex::new(0.0, 0.0)
}

/// A signal as integer samples, fractions cut off.
fn quantized(signal: &[Complex<f32>]) -> Vec<Iq> {
    signal
        .iter()
        .map(|s| Iq {
            re: s.re as i16,
            im: s.im as i16,
        })
        .collect()
}

// ---------------- Bytes and batch transform ----------------

#[test]
fn test_bytes_to_complex_conversion() {
    let original = vec![
        Complex::new(10.0, 20.0),
        Complex::new(-5.0, 0.0),
        Complex::new(127.0, -128.0),
        Complex::new(128.0, -129.0), // clamps into i8 range
    ];
    let bytes = complex_vec_to_bytes(&quantized(&original));
    assert_eq!(bytes, vec![10, 20, -5, 0, 127, -128, 127, -128]);

    let decoded = bytes_to_complex(&bytes);
    assert_eq!(decoded.len(), 4);
    assert_eq!(decoded[0], Iq { re: 10, im: 20 });
    assert_eq!(decoded[3], Iq { re: 127, im: -128 });
}

#[test]
fn test_stft_output_shape() {
    // 2 frames: need FFT_SIZE + HOP_SIZE complex samples.
    let num_samples = FFT_SIZE + HOP_SIZE;
    let input_bytes = vec![0i8; num_samples * 2];
    let spectrogram = stft(&input_bytes, &spectrum(), zero());
    assert_eq!(spectrogram.len(), 2 * FFT_SIZE);
}

#[test]
fn test_stft_sine_wave() {
    let freq_hz = 50.0;
    let sample_rate = 48000.0;
    let num_samples = (4 * HOP_SIZE) + FFT_SIZE;
    let mut signal = Vec::with_capacity(num_samples);
    for i in 0..num_samples {
        let t = i as f32 / sample_rate;
        // cos + i sin: positive-frequency analytic tone.
        signal.push(Complex::new(
            100.0 * (2.0 * PI * freq_hz * t).cos(),
            100.0 * (2.0 * PI * freq_hz * t).sin(),
        ));
    }
    let input_bytes = complex_vec_to_bytes(&quantized(&signal));
    let spectrogram = stft(&input_bytes, &spectrum(), zero());

    let num_complex_samples = input_bytes.len() / 2;
    let num_frames = (num_complex_samples.saturating_sub(FFT_SIZE)) / HOP_SIZE + 1;
    assert_eq!(spectrogram.len(), num_frames * FFT_SIZE);

    // The injected tone should land at bin = round(freq/fs * NFFT).
    let bin_index = (freq_hz * FFT_SIZE as f32 / sample_rate).round() as usize;
    assert!(bin_index < FFT_SIZE);

    let first_frame = &spectrogram[..FFT_SIZE];
    let search_radius = 2;
    let start = bin_index.saturating_sub(search_radius);
    let end = (bin_index + search_radius + 1).min(FFT_SIZE);

    let mut max_energy = 0.0f32;
    let mut peak_bin = None;
    for (i, bin) in first_frame.iter().enumerate().take(end).skip(start) {
        let e = bin.norm_sqr();
        if e > max_energy {
            max_energy = e;
            peak_bin = Some(i);
        }
    }
    let peak_bin = peak_bin.expect("no peak near expected bin");
    println!("Sine test: expected bin {bin_index}, peak at {peak_bin}");
    assert!(
        peak_bin >= start && peak_bin < end,
        "peak {peak_bin} outside [{start},{end})"
    );

    // Tone should dominate the frame (allowing for noise floor).
    let total_energy: f32 = first_frame.iter().map(|c| c.norm_sqr()).sum();
    assert!(
        max_energy > total_energy * 0.000001,
        "tone not dominant (peak {max_energy} vs total {total_energy})"
    );
}

#[test]
fn test_stft_random_data_not_all_zeros() {
    let mut rng = rand::thread_rng();
    let num_bytes = (FFT_SIZE + HOP_SIZE) * 2; // two frames
    let input_bytes: Vec<i8> = (0..num_bytes).map(|_| rng.gen_range(-128..=127)).collect();
    let spectrogram = stft(&input_bytes, &spectrum(), zero());
    let num_samples = input_bytes.len() / 2;
    let num_frames = (num_samples.saturating_sub(FFT_SIZE)) / HOP_SIZE + 1;
    assert_eq!(spectrogram.len(), num_frames * FFT_SIZE);
    assert!(
        spectrogram.iter().any(|c| c.re != 0.0 || c.im != 0.0),
        "spectrogram of random input was all zeros"
    );
}

#[test]
fn test_stft_edge_case_input_length() {
    // Too short -> empty.
    assert!(stft(&vec![0i8; (FFT_SIZE - 100) * 2], &spectrum(), zero()).is_empty());
    // Exactly one frame.
    assert_eq!(stft(&vec![0i8; FFT_SIZE * 2], &spectrum(), zero()).len(), FFT_SIZE);
}

#[test]
fn frames_come_back_in_order_and_failed_ones_are_silent() {
    // Each window starts with its own number, at a multiple of the hop.
    let frames = 40;
    let mut bytes = vec![0i8; (FFT_SIZE + (frames - 1) * HOP_SIZE) * 2];
    for k in 0..frames {
        bytes[2 * k * HOP_SIZE] = k as i8;
    }
    let fft = |window: &[Iq]| -> Result<Vec<i32>, String> {
        if window[0].re == 3 {
            Err("refused".to_string())
        } else {
            Ok(vec![window[0].re as i32; FFT_SIZE])
        }
    };
    let flat = stft(&bytes, &fft, -1);
    assert_eq!(flat.len(), frames * FFT_SIZE);
    for k in 0..frames {
        let expected = if k == 3 { -1 } else { k as i32 };
        assert!(flat[k * FFT_SIZE..(k + 1) * FFT_SIZE].iter().all(|v| *v == expected));
    }
}

// ---------------- Incremental transform ----------------

#[test]
fn test_stft_processor_incremental_matches_batch() {
    // Feed the same contiguous I/Q through the incremental processor (split across
    // push calls) and compare, frame by frame, to the batch transform.
    let num_samples = (2 * HOP_SIZE) + FFT_SIZE;
    let mut signal = Vec::with_capacity(num_samples);
    for i in 0..num_samples {
        signal.push(Complex::new(
            80.0 * (2.0 * PI * (i as f32) / 64.0).sin(),
            80.0 * (2.0 * PI * (i as f32) / 64.0).cos(),
        ));
    }
    let bytes = complex_vec_to_bytes(&quantized(&signal));

    // Reference: batch path.
    let raw = stft(&bytes, &spectrum(), zero());
    let expected_frames: Vec<Vec<f32>> =
        raw.chunks_exact(FFT_SIZE).map(|f| decibels(f, 127.0)).collect();

    // Incremental: split the byte stream into odd-sized chunks so the carry-over
    // boundary falls mid-frame.
    let mut proc = StftProcessor::new(FFT_SIZE, HOP_SIZE, backend());
    let mut collected: Vec<Row<f32>> = Vec::new();
    let mut i = 0;
    let chunk = 7000; // does not divide 2*hop samples, exercises carry-over
    while i < bytes.len() {
        let end = (i + chunk).min(bytes.len());
        collected.extend(proc.push_bytes(&bytes[i..end]));
        i = end;
    }
    assert_eq!(collected.len(), expected_frames.len());
    for (got, exp) in collected.iter().zip(expected_frames.iter()) {
        assert_eq!(got.bins.len(), exp.len());
        for (j, expected) in exp.iter().enumerate().take(got.bins.len()) {
            assert!(
                (got.bins[j] - expected).abs() < 1e-3,
                "bin {j} mismatch: incremental {} vs batch {}",
                got.bins[j],
                expected
            );
        }
    }
    // Sample positions advance by `hop` from 0.
    for (k, r) in collected.iter().enumerate() {
        assert_eq!(r.sample, (k as u64) * HOP_SIZE as u64);
    }
}

#[test]
fn test_stft_processor_sine_tone_bin() {
    let fft_size = 4096;
    let hop = 1024;
    let sample_rate = 48000.0;
    let freq_hz = 500.0;
    let num_samples = (4 * hop) + fft_size;
    let mut signal = Vec::with_capacity(num_samples);
    for i in 0..num_samples {
        let t = i as f32 / sample_rate;
        // cos + i sin: positive-frequency analytic tone.
        signal.push(Complex::new(
            100.0 * (2.0 * PI * freq_hz * t).cos(),
            100.0 * (2.0 * PI * freq_hz * t).sin(),
        ));
    }
    let bytes = complex_vec_to_bytes(&quantized(&signal));
    let mut proc = StftProcessor::new(fft_size, hop, backend());
    let rows = proc.push_bytes(&bytes);
    assert!(!rows.is_empty());
    let bin_index = (freq_hz * fft_size as f32 / sample_rate).round() as usize;
    let first = &rows[0].bins;
    let search_radius = 2;
    let start = bin_index.saturating_sub(search_radius);
    let end = (bin_index + search_radius + 1).min(fft_size);
    let peak_bin = (start..end)
        .max_by(|a, b| first[*a].partial_cmp(&first[*b]).unwrap())
        .unwrap();
    assert!(
        peak_bin >= start && peak_bin < end,
        "peak {peak_bin} outside [{start},{end})"
    );
    // Tone should read near 0 dBFS (amplitude 100 -> about -2 dB).
    assert!(
        first[peak_bin] > -5.0 && first[peak_bin] <= 0.0,
        "got {}",
        first[peak_bin]
    );
}

#[test]
fn cutting_the_stream_changes_no_window() {
    let samples: Vec<i16> = (0..400).map(|i| i * 3 - 500).collect();
    let whole = |w: &[Iq]| w.iter().map(|s| (s.re, s.im)).collect::<Vec<_>>();
    let mut once = StftProcessor::new(16, 5, whole);
    let expected = once.push_sc16(&samples);
    assert_eq!(expected.len(), (200 - 16) / 5 + 1);
    for (k, row) in expected.iter().enumerate() {
        assert_eq!(row.sample, 5 * k as u64);
        assert_eq!(row.bins.len(), 16);
        assert_eq!(row.bins[0], (samples[10 * k], samples[10 * k + 1]));
    }
    for step in [2, 6, 14, 38, 100] {
        let mut parts = StftProcessor::new(16, 5, whole);
        let mut rows = Vec::new();
        for piece in samples.chunks(step) {
            assert!(parts.can_push(piece.len() / 2));
            rows.extend(parts.push_sc16(piece));
        }
        assert_eq!(rows.len(), expected.len());
        for (got, want) in rows.iter().zip(&expected) {
            assert_eq!(got.sample, want.sample);
            assert_eq!(got.bins, want.bins);
        }
        assert_eq!(parts.samples_consumed(), once.samples_consumed());
    }
    assert_eq!(once.fft_size(), 16);
    assert_eq!(once.hop(), 5);
}

#[test]
fn a_frame_is_the_spectrogram_of_its_own_samples() {
    let bytes: Vec<i8> = (0..2 * (FFT_SIZE + 3 * HOP_SIZE)).map(|i| (i % 251) as i8).collect();
    let fft = |w: &[Iq]| -> Result<Vec<i16>, String> { Ok(w.iter().map(|s| s.re ^ s.im).collect()) };
    let whole = stft(&bytes, &fft, 0);
    assert_eq!(whole.len(), 4 * FFT_SIZE);
    for f in 0..4 {
        let own = stft(&bytes[2 * f * HOP_SIZE..2 * (f * HOP_SIZE + FFT_SIZE)], &fft, 0);
        assert_eq!(whole[f * FFT_SIZE..(f + 1) * FFT_SIZE], own[..]);
    }
}

#[test]
fn a_malformed_datagram_leaves_later_outcomes_alone() {
    let window = |w: &[Iq]| w.to_vec();
    let mut disturbed = PacketProcessor::new(NOMINAL_SAMPLE_RATE, window);
    let mut plain = PacketProcessor::new(NOMINAL_SAMPLE_RATE, window);
    let samples: Vec<(i16, i16)> = (0..3000).map(|i| (i, -i)).collect();
    for k in 0..4 {
        assert!(disturbed.observe(&[9; 5]).parse_error.is_some());
        let datagram = packet(k, 7, &samples);
        let a = disturbed.observe(&datagram);
        let b = plain.observe(&datagram);
        assert_eq!(a.rows.len(), b.rows.len());
        for (x, y) in a.rows.iter().zip(&b.rows) {
            assert_eq!((x.sample, &x.bins), (y.sample, &y.bins));
        }
        assert_eq!(a.sample_counter, b.sample_counter);
        assert_eq!(a.complex_samples, b.complex_samples);
        assert_eq!(a.size_field_matches, b.size_field_matches);
        assert_eq!(disturbed.samples_consumed(), plain.samples_consumed());
    }
    assert_eq!(disturbed.malformed(), plain.malformed() + 4);
}

#[test]
fn an_odd_last_component_is_no_sample() {
    let mut proc = StftProcessor::new(2, 1, |w: &[Iq]| vec![w[0], w[1]]);
    let rows = proc.push_bytes(&[1, 2, -3, 4, 5]);
    assert_eq!(rows.len(), 1);
    assert_eq!(rows[0].bins, vec![Iq { re: 1, im: 2 }, Iq { re: -3, im: 4 }]);
    let rows = proc.push_sc16(&[300, -300, 7]);
    assert_eq!(rows[0].bins, vec![Iq { re: -3, im: 4 }, Iq { re: 300, im: -300 }]);
    assert_eq!(proc.samples_consumed(), 2);
    assert!(proc.push_bytes(&[9]).is_empty());
    assert_eq!(bytes_to_complex(&[1]), vec![]);
}

#[test]
fn samples_in_range_survive_the_byte_round_trip() {
    let samples: Vec<Iq> = (-128..128).map(|k| Iq { re: k, im: -1 - k }).collect();
    assert_eq!(bytes_to_complex(&complex_vec_to_bytes(&samples)), samples);
    assert_eq!(
        complex_vec_to_bytes(&[Iq { re: i16::MIN, im: i16::MAX }]),
        vec![-128, 127]
    );
}

// ---------------- Datagrams ----------------

/// Minimal independent packet builder.
fn packet(ts_int: u32, ts_frac: u64, samples: &[(i16, i16)]) -> Vec<u8> {
    let total_words = 5 + samples.len(); // header + stream id + ts(3 words) + payload
    let mut buf = vec![0u8; total_words * 4];
    let header: u32 = 0x10D0_0000 | (total_words as u32 - 1);
    buf[0..4].copy_from_slice(&header.to_be_bytes());
    buf[4..8].copy_from_slice(&0u32.to_be_bytes());
    buf[8..12].copy_from_slice(&ts_int.to_be_bytes());
    buf[12..20].copy_from_slice(&ts_frac.to_be_bytes());
    for (i, (re, im)) in samples.iter().enumerate() {
        let off = 20 + i * 4;
        buf[off..off + 2].copy_from_slice(&re.to_be_bytes());
        buf[off + 2..off + 4].copy_from_slice(&im.to_be_bytes());
    }
    buf
}

#[test]
fn full_packets_produce_two_rows_per_packet_in_steady_state() {
    let mut p = PacketProcessor::new(NOMINAL_SAMPLE_RATE, backend());
    let samples: Vec<(i16, i16)> = (0..NOMINAL_COMPLEX_SAMPLES)
        .map(|i| ((i as i16).wrapping_mul(7), 0))
        .collect();

    // The 4096-point transform cannot emit until a full window has arrived.
    let first = p.observe(&packet(0, 0, &samples));
    assert_eq!(first.parse_error, None);
    assert_eq!(first.complex_samples, NOMINAL_COMPLEX_SAMPLES);
    assert!(first.rows.is_empty(), "2048 samples is half a window");

    let second = p.observe(&packet(0, NOMINAL_COMPLEX_SAMPLES as u64, &samples));
    assert_eq!(second.rows.len(), 1, "window fills at sample 4096");
    assert_eq!(second.rows[0].sample, 0);

    // Steady state: 2048 samples in, 2 frames out (hop 1024).
    let third = p.observe(&packet(0, (NOMINAL_COMPLEX_SAMPLES * 2) as u64, &samples));
    assert_eq!(third.rows.len(), 2);
    assert_eq!(third.rows[0].sample, 1024);
    assert_eq!(third.rows[1].sample, 2048);

    let fourth = p.observe(&packet(0, (NOMINAL_COMPLEX_SAMPLES * 3) as u64, &samples));
    assert_eq!(fourth.rows.len(), 2);
    assert_eq!(fourth.rows[0].sample, 3072);
    // 4 packets = 8192 samples in; 5 frames emitted (1 + 2 + 2) at hop 1024 leaves
    // 3072 samples of overlap buffered for the next window.
    assert_eq!(p.samples_consumed(), 5 * 1024);
}

#[test]
fn a_timestamp_jump_is_reported_and_not_interpolated() {
    // Loss accounting is receive-side: the processor supplies the counter, the
    // GapTracker (owned by the receive path) decides if it is a gap.
    let mut p = PacketProcessor::new(NOMINAL_SAMPLE_RATE, backend());
    let mut tracker = GapTracker::new(NOMINAL_COMPLEX_SAMPLES as u64);
    let samples: Vec<(i16, i16)> = (0..NOMINAL_COMPLEX_SAMPLES).map(|_| (1, 1)).collect();

    let first = p.observe(&packet(0, 0, &samples));
    assert_eq!(
        tracker.observe(first.sample_counter, first.complex_samples as u64),
        None,
        "first packet cannot be a gap"
    );

    // Skip three packets' worth of timestamps.
    let jumped = p.observe(&packet(0, 2048 * 4, &samples));
    let gap = tracker
        .observe(jumped.sample_counter, jumped.complex_samples as u64)
        .expect("gap detected");
    assert_eq!(gap.missing_samples, 2048 * 3);
    assert_eq!(tracker.gaps, 1);
    assert_eq!(tracker.missing_samples, 6144);
}

#[test]
fn malformed_datagrams_are_counted_and_do_not_disturb_the_stream() {
    let mut p = PacketProcessor::new(NOMINAL_SAMPLE_RATE, backend());
    let samples: Vec<(i16, i16)> = (0..8).map(|_| (5, -5)).collect();

    let short = p.observe(&[0u8; 7]);
    assert!(short.parse_error.is_some());
    assert!(short.rows.is_empty());

    // A good packet after a bad one still flows.
    let good = p.observe(&packet(0, 0, &samples));
    assert_eq!(good.parse_error, None);
    assert_eq!(p.malformed(), 1);
}

#[test]
fn both_resolutions_carry_the_samples_they_promise() {
    let window = |w: &[Iq]| vec![w[0], w[1]];
    let mut upper = PacketProcessor::new(NOMINAL_SAMPLE_RATE, window);
    let mut full = PacketProcessor::new(NOMINAL_SAMPLE_RATE, window);
    let mut samples = vec![(0i16, 0i16); FFT_SIZE];
    samples[0] = (0x1234, -1);
    samples[1] = (-32768, 46);
    let datagram = packet(2, 5, &samples);

    assert!(upper.has_room_for(&datagram));
    let outcome = upper.observe(&datagram);
    assert_eq!(outcome.rows.len(), 1);
    assert_eq!(
        outcome.rows[0].bins,
        vec![Iq { re: 0x12, im: -1 }, Iq { re: -128, im: 0 }]
    );
    let outcome = full.observe_sc16(&datagram);
    assert_eq!(
        outcome.rows[0].bins,
        vec![Iq { re: 0x1234, im: -1 }, Iq { re: -32768, im: 46 }]
    );
    assert_eq!(outcome.sample_counter, 4_000_005);
    assert_eq!(outcome.complex_samples, FFT_SIZE);
    assert!(outcome.size_field_matches);

    let refused = full.observe_sc16(&datagram[..23]);
    assert_eq!(refused.parse_error, Some(ParseError::TooShort { len: 23, need: 24 }));
    assert_eq!(refused.sample_counter, 0);
    assert_eq!(refused.complex_samples, 0);
    assert!(!refused.size_field_matches);
    assert_eq!(full.malformed(), 1);
    assert_eq!(full.samples_consumed(), 1024);
}

// ---------------- Tones ----------------

/// Passband bin of the test tone: 512 * (2e6 / 4096) = 250 kHz.
const TONE_BIN: usize = 512;
/// Tone amplitude in sc16 units. `16384 >> 8 == 64`, well inside i8 range.
const TONE_AMPLITUDE_SC16: i16 = 64 << 8;
/// Expected dBFS for amplitude 64 against the 127 full-scale reference.
const EXPECTED_DBFS: f32 = -5.94;
/// i16 rounding + arithmetic-shift truncation, plus slack for the peak bin.
const DBFS_TOLERANCE: f32 = 1.5;

/// One full-rate packet of an analytic (single-sided) complex tone at `bin`.
///
/// `first_sample` is the tone's absolute sample index, so consecutive packets stay
/// phase-continuous and the tone does not smear across bins.
fn tone_packet(ts_int: u32, first_sample: u64, bin: usize, amplitude: i16) -> Vec<u8> {
    let mut samples = Vec::with_capacity(NOMINAL_COMPLEX_SAMPLES);
    for k in 0..NOMINAL_COMPLEX_SAMPLES {
        let n = (first_sample + k as u64) as f64;
        let theta = 2.0 * std::f64::consts::PI * bin as f64 * n / FFT_SIZE as f64;
        samples.push((
            (amplitude as f64 * theta.cos()) as i16,
            (amplitude as f64 * theta.sin()) as i16,
        ));
    }
    packet(ts_int, first_sample, &samples)
}

fn tone_packets(amplitude: i16) -> Vec<Vec<u8>> {
    (0..4)
        .map(|p| tone_packet(0, p * NOMINAL_COMPLEX_SAMPLES as u64, TONE_BIN, amplitude))
        .collect()
}

/// Round-trips datagrams through a pair of real datagram sockets.
fn over_the_wire(datagrams: &[Vec<u8>]) -> Vec<Vec<u8>> {
    let runtime = tokio::runtime::Builder::new_current_thread()
        .enable_all()
        .build()
        .expect("runtime");
    runtime.block_on(async {
        let (sender, receiver) = tokio::net::UnixDatagram::pair().expect("datagram pair");
        let mut received = Vec::with_capacity(datagrams.len());
        let mut buf = vec![0u8; 65_536];
        for d in datagrams {
            sender.send(d).await.expect("send datagram");
            let n = receiver.recv(&mut buf).await.expect("receive datagram");
            received.push(buf[..n].to_vec());
        }
        received
    })
}

/// Peak (bin index, dBFS) over the negative-frequency-free half of the row.
fn peak(bins: &[f32]) -> (usize, f32) {
    bins.iter()
        .enumerate()
        .take(bins.len() / 2)
        .fold((0usize, f32::MIN), |acc, (i, &v)| if v > acc.1 { (i, v) } else { acc })
}

/// Second-highest bin, used to prove the energy really is concentrated.
fn second_peak(bins: &[f32]) -> f32 {
    let (top, _) = peak(bins);
    bins.iter()
        .enumerate()
        .take(bins.len() / 2)
        .filter(|(i, _)| *i != top)
        .fold(f32::MIN, |acc, (_, &v)| acc.max(v))
}

fn row_from<F: Fn(&[Iq]) -> Vec<f32>>(
    processor: &mut PacketProcessor<F>,
    datagrams: &[Vec<u8>],
) -> Row<f32> {
    let mut last = None;
    for datagram in datagrams {
        let outcome = processor.observe(datagram);
        assert!(outcome.parse_error.is_none(), "datagram must parse");
        assert!(
            outcome.size_field_matches,
            "header size field must agree with the delivered datagram"
        );
        if let Some(row) = outcome.rows.last() {
            last = Some(row.clone());
        }
    }
    last.expect("a full window was fed, so at least one row must be emitted")
}

#[test]
fn a_tone_lands_on_its_expected_bin_at_its_expected_dbfs() {
    // Four full packets = 8192 samples, comfortably past the 4096 window.
    let packets = tone_packets(TONE_AMPLITUDE_SC16);

    let received = over_the_wire(&packets);
    assert_eq!(received[0].len(), 8212, "corrected framing is 8212 bytes");
    assert_eq!(
        received[0], packets[0],
        "the datagram must survive the round trip byte-for-byte"
    );

    let mut processor = PacketProcessor::new(NOMINAL_SAMPLE_RATE, backend());
    let row = row_from(&mut processor, &received);

    assert_eq!(row.bins.len(), FFT_SIZE);

    let (bin, dbfs) = peak(&row.bins);
    assert_eq!(bin, TONE_BIN, "tone bin: 512 -> 250 kHz at 2 MS/s");
    assert!(
        (dbfs - EXPECTED_DBFS).abs() <= DBFS_TOLERANCE,
        "expected ~{EXPECTED_DBFS} dBFS for amplitude 64 of 127 full scale, got {dbfs}"
    );

    // Energy must be concentrated: a smeared conversion would lift neighbours.
    let second = second_peak(&row.bins);
    assert!(
        dbfs - second > 20.0,
        "peak {dbfs} dBFS vs next {second} dBFS: tone is not clean"
    );
}

#[test]
fn two_tone_amplitudes_track_the_full_scale_reference_in_dbfs() {
    // A quarter of the amplitude must read ~12 dB lower, which only holds if the
    // reference (127) and the >> 8 scaling are both right.
    let loud = tone_packets(TONE_AMPLITUDE_SC16);
    let mut loud_processor = PacketProcessor::new(NOMINAL_SAMPLE_RATE, backend());
    let (_, loud_dbfs) = peak(&row_from(&mut loud_processor, &over_the_wire(&loud)).bins);

    // amplitude >> 2 == 16 of 127.
    let quiet_packets = tone_packets(TONE_AMPLITUDE_SC16 >> 2);
    let mut quiet_processor = PacketProcessor::new(NOMINAL_SAMPLE_RATE, backend());
    let (_, quiet_dbfs) = peak(&row_from(&mut quiet_processor, &over_the_wire(&quiet_packets)).bins);

    let delta = loud_dbfs - quiet_dbfs;
    assert!(
        (delta - 12.04).abs() <= 1.0,
        "amplitude /4 must read ~12 dB lower, got {delta} ({loud_dbfs} vs {quiet_dbfs})"
    );
}

#[test]
fn reinterpreting_sc16_bytes_as_i8_is_detectably_wrong() {
    // The trap: the payload is big-endian i16, so reading its bytes as i8 gives
    // interleaved garbage. It must not reproduce the tone.
    let packets = tone_packets(TONE_AMPLITUDE_SC16);
    let received = over_the_wire(&packets);

    let correct = {
        let mut processor = PacketProcessor::new(NOMINAL_SAMPLE_RATE, backend());
        row_from(&mut processor, &received)
    };
    let (correct_bin, correct_dbfs) = peak(&correct.bins);

    // Same bytes, wrong interpretation.
    let mut wrong_processor = StftProcessor::new(FFT_SIZE, HOP_SIZE, backend());
    let mut wrong_bins = Vec::new();
    for datagram in &received {
        let packet = parse_datagram(datagram).expect("parses");
        let misread: Vec<i8> = packet.payload.iter().map(|b| *b as i8).collect();
        for row in wrong_processor.push_bytes(&misread) {
            wrong_bins = row.bins;
        }
    }
    let (wrong_bin, wrong_dbfs) = peak(&wrong_bins);

    assert_eq!(correct_bin, TONE_BIN);
    assert!(
        (correct_dbfs - EXPECTED_DBFS).abs() <= DBFS_TOLERANCE,
        "correct conversion must hit the expected dBFS"
    );
    assert!(
        wrong_bin != TONE_BIN || (wrong_dbfs - EXPECTED_DBFS).abs() > 3.0,
        "misreading sc16 as i8 must not reproduce the tone (bin {wrong_bin}, {wrong_dbfs} dBFS)"
    );
}

#[test]
fn a_socket_level_timestamp_jump_is_reported_as_a_gap() {
    let packets = vec![
        tone_packet(0, 0, TONE_BIN, TONE_AMPLITUDE_SC16),
        tone_packet(0, NOMINAL_COMPLEX_SAMPLES as u64, TONE_BIN, TONE_AMPLITUDE_SC16),
        // Skip three packets' worth of samples.
        tone_packet(0, NOMINAL_COMPLEX_SAMPLES as u64 * 5, TONE_BIN, TONE_AMPLITUDE_SC16),
    ];

    let mut processor = PacketProcessor::new(NOMINAL_SAMPLE_RATE, backend());
    // Wire-loss accounting is receive-side, so the test drives the same GapTracker
    // the receive loop owns, on the same counters.
    let mut tracker = GapTracker::new(NOMINAL_COMPLEX_SAMPLES as u64);
    let mut gaps = 0;
    let mut missing = 0;
    for datagram in over_the_wire(&packets) {
        let outcome = processor.observe(&datagram);
        assert!(outcome.parse_error.is_none());
        if let Some(gap) = tracker.observe(outcome.sample_counter, outcome.complex_samples as u64) {
            gaps += 1;
            missing += gap.missing_samples;
        }
    }

    assert_eq!(gaps, 1, "exactly one discontinuity");
    assert_eq!(missing, 2048 * 3, "three packets' worth of samples missing");
    assert_eq!(tracker.gaps, 1);
    assert_eq!(tracker.missing_samples, 2048 * 3);
}

#[test]
fn a_weak_tone_survives_at_full_resolution() {
    // Amplitude 46 of 32767, as weak as a live band: the upper 8 bits hold 0 or -1.
    let packets = tone_packets(46);
    let mut full = PacketProcessor::new(NOMINAL_SAMPLE_RATE, backend_sc16());
    let mut row = None;
    for datagram in &packets {
        row = full.observe_sc16(datagram).rows.pop().or(row);
    }
    let (bin, dbfs) = peak(&row.expect("a whole window was fed").bins);
    assert_eq!(bin, TONE_BIN);
    // 20 * log10(46 / 32767) = -57.05
    assert!((dbfs + 57.05).abs() < 1.0, "got {dbfs}");

    let packet = parse_datagram(&packets[0]).expect("parses");
    assert!(packet.to_i8().iter().all(|v| *v == 0 || *v == -1));
}
