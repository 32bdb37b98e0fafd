//! The decisions of the signal-middleware program: what each datagram counts as,
//! which rows are published, and what the statistics say.
//!
//! Constraints that are load-bearing:
//!   * The receive loop never blocks on analysis or on the network: a full queue is
//!     a counted drop.
//!   * Every packet is analysed; only publication is paced. Drops are deliberately
//!     counted, never silent.
//!   * There is no synthetic fallback. If the feed stops, the statistics say so.
use crate::cli::{
    chosen_text, flag_text, flag_value, is_reading, number_or, number_setting, parse_or, size_or,
    text_setting,
};
use crate::publish::{
    law_latest_rows_win, law_room_for_all_is_room_for_each, law_room_is_room_for_the_drops, pushed_all, BatchState, IngestMeta,
    IngestRequest, RowBatch, RowDto,
};
use crate::stft::Row;
use crate::text::{chars_of, decimal_value, opt_text, str_texts, texts};
use crate::vita49::{
    be32, header_of, law_every_byte_is_accounted_for, law_gaps_are_exactly_the_jumps, observed_all, parse_datagram, parse_header, parsed, read_u32, Gap, GapTracker, Header,
    LossTotals, Packet, PacketView, ParseError, TrackerState, NOMINAL_COMPLEX_SAMPLES,
};
use std::collections::HashSet;
use std::str::FromStr;
use vstd::prelude::*;
use vstd::slice::slice_subrange;
use vstd::string::*;

verus! {

/// Largest UDP datagram that is read (datagrams are 8202 to 8212 bytes today).
pub const RECV_BUF_BYTES: usize = 65_536;

/// Datagrams that may wait for analysis.
pub const ANALYSIS_QUEUE: usize = 512;

/// Rows that may wait for publication.
pub const PUBLISH_BATCH: usize = 64;

// ---------------- Counters ----------------

/// The sum of two counts in a 64-bit register: it starts over at zero behind the
/// largest number.
pub open spec fn wrapped(count: int) -> u64 {
    if count <= u64::MAX {
        count as u64
    } else {
        (count - 0x1_0000_0000_0000_0000) as u64
    }
}

/// Two counts show the same in a 64-bit register.
pub open spec fn same_in_register(a: int, b: int) -> bool {
    (a - b) % 0x1_0000_0000_0000_0000 == 0
}

/// Every drop and every rate signal, so loss can never be silent.
#[derive(Debug)]
pub struct Counters {
    pub packets_received: u64,
    pub packets_analyzed: u64,
    pub samples_received: u64,
    pub socket_errors: u64,
    pub parse_errors: u64,
    pub too_short: u64,
    pub wrong_type: u64,
    pub trailerized: u64,
    pub stft_dropped: u64,
    pub rows_produced: u64,
    pub rows_published: u64,
    pub batches_sent: u64,
    pub bridge_errors: u64,
    pub rows_lost_to_bridge: u64,
    pub publish_dropped: u64,
    pub size_field_mismatch: u64,
    pub gaps: u64,
    pub missing_samples: u64,
    pub out_of_order: u64,
    /// Last sample counter, or -1 before the first packet.
    pub last_counter: i64,
    /// Effective receive buffer granted by the kernel.
    pub rcvbuf_bytes: u64,
}

impl Counters {
    /// Nothing has happened yet.
    pub open spec fn fresh() -> Counters {
        Counters {
            packets_received: 0,
            packets_analyzed: 0,
            samples_received: 0,
            socket_errors: 0,
            parse_errors: 0,
            too_short: 0,
            wrong_type: 0,
            trailerized: 0,
            stft_dropped: 0,
            rows_produced: 0,
            rows_published: 0,
            batches_sent: 0,
            bridge_errors: 0,
            rows_lost_to_bridge: 0,
            publish_dropped: 0,
            size_field_mismatch: 0,
            gaps: 0,
            missing_samples: 0,
            out_of_order: 0,
            last_counter: (-1) as i64,
            rcvbuf_bytes: 0,
        }
    }

    /// Counts one more.
    pub fn bump(count: &mut u64)
        ensures
            *final(count) == wrapped(*old(count) + 1),
    {
        *count = count.wrapping_add(1);
    }

    /// Counts `more`.
    fn raise(count: &mut u64, more: u64)
        ensures
            *final(count) == wrapped(*old(count) + more),
    {
        *count = count.wrapping_add(more);
    }

    /// The counts after the socket failed.
    pub open spec fn after_socket_error(self) -> Counters {
        Counters { socket_errors: wrapped(self.socket_errors + 1), ..self }
    }

    /// Counts a failure of the socket.
    pub fn on_socket_error(&mut self)
        ensures
            *final(self) == old(self).after_socket_error(),
    {
        Counters::bump(&mut self.socket_errors);
    }
}

impl Default for Counters {
    fn default() -> (counters: Counters)
        ensures
            counters == Counters::fresh(),
    {
        Counters {
            packets_received: 0,
            packets_analyzed: 0,
            samples_received: 0,
            socket_errors: 0,
            parse_errors: 0,
            too_short: 0,
            wrong_type: 0,
            trailerized: 0,
            stft_dropped: 0,
            rows_produced: 0,
            rows_published: 0,
            batches_sent: 0,
            bridge_errors: 0,
            rows_lost_to_bridge: 0,
            publish_dropped: 0,
            size_field_mismatch: 0,
            gaps: 0,
            missing_samples: 0,
            out_of_order: 0,
            last_counter: -1,
            rcvbuf_bytes: 0,
        }
    }
}

/// A repeated event is worth a log line when it is one of the first five, and then
/// every `every` times.
pub open spec fn worth_a_line(count: u64, every: u64) -> bool {
    count <= 5 || count % every == 0
}

fn is_worth_a_line(count: u64, every: u64) -> (worth: bool)
    requires
        every > 0,
    ensures
        worth == worth_a_line(count, every),
{
    count <= 5 || count % every == 0
}

// ---------------- Receiving ----------------

/// What the receive loop was told to do.
#[derive(Debug, Clone, Copy)]
pub struct ReceiveRules {
    /// Sample rate in Hz, to unwrap timestamps.
    pub sample_rate: u64,
    /// How many datagrams to inspect from the start.
    pub hexdump_first: u64,
    /// Whether one real datagram is to be captured.
    pub capture: bool,
}

/// A gap that is worth a log line, with the totals so far.
#[derive(Debug, Clone, Copy, PartialEq, Eq, Structural)]
pub struct GapReport {
    pub gap: Gap,
    pub gaps: u64,
    pub missing_samples: u64,
}

/// What to do with a datagram that was received.
#[derive(Debug, Clone, Copy, PartialEq, Eq, Structural)]
pub struct Received {
    /// Number of the datagram since start, from 1.
    pub number: u64,
    /// Inspect and print it.
    pub inspect: bool,
    /// Log a gap.
    pub report: Option<GapReport>,
    /// Capture it to the file that was asked for.
    pub capture: bool,
    /// Hand it to the analysis worker.
    pub forward: bool,
}

/// How the analysis queue took a datagram.
#[derive(Debug, Clone, Copy, PartialEq, Eq, Structural)]
pub enum Handoff {
    Queued,
    Full,
    Closed,
}

impl Handoff {
    /// The receive loop goes on after it.
    pub open spec fn goes_on(self) -> bool {
        self != Handoff::Closed
    }
}

/// State of the receive loop.
///
/// Loss is tracked here, where every delivered datagram is observed, and not in the
/// analysis worker, which only sees datagrams that survived the bounded queue.
/// Counting gaps there would report the consumer's own deliberate drops as RF loss.
#[derive(Debug)]
pub struct Receiver {
    pub tracker: GapTracker,
    /// A packet was already considered for capture.
    pub fixture_written: bool,
}

/// Model of a [`Receiver`].
pub struct ReceiverState {
    pub tracker: TrackerState,
    pub fixture_written: bool,
}

impl View for Receiver {
    type V = ReceiverState;

    open spec fn view(&self) -> ReceiverState {
        ReceiverState { tracker: self.tracker@, fixture_written: self.fixture_written }
    }
}

impl Counters {
    /// The counts after a datagram that does not parse.
    pub open spec fn after_refusal(self, error: ParseError) -> Counters {
        let counted = Counters { parse_errors: wrapped(self.parse_errors + 1), ..self };
        match error {
            ParseError::TooShort { .. } => Counters {
                too_short: wrapped(self.too_short + 1),
                ..counted
            },
            ParseError::UnsupportedPacketType(_) => Counters {
                wrong_type: wrapped(self.wrong_type + 1),
                ..counted
            },
            ParseError::UnsupportedTrailer => Counters {
                trailerized: wrapped(self.trailerized + 1),
                ..counted
            },
        }
    }

    /// The counts after a packet that the tracker, in the state before it, sees. The
    /// loss counts are those of the tracker after it.
    pub open spec fn after_packet(
        self,
        tracker: TrackerState,
        packet: PacketView,
        sample_rate: u64,
    ) -> Counters {
        let counter = packet.counter(sample_rate);
        let seen = tracker.observed(counter);
        Counters {
            size_field_mismatch: if packet.size_field_matches {
                self.size_field_mismatch
            } else {
                wrapped(self.size_field_mismatch + 1)
            },
            samples_received: wrapped(self.samples_received + packet.payload.len() / 2),
            last_counter: if counter > i64::MAX {
                i64::MAX
            } else {
                counter as i64
            },
            gaps: seen.gaps as u64,
            missing_samples: seen.missing_samples as u64,
            out_of_order: seen.out_of_order as u64,
            ..self
        }
    }

    /// The counts after a datagram with this parse was received.
    pub open spec fn after_parse(
        self,
        tracker: TrackerState,
        outcome: Result<PacketView, ParseError>,
        sample_rate: u64,
    ) -> Counters {
        let counted = Counters { packets_received: wrapped(self.packets_received + 1), ..self };
        match outcome {
            Ok(packet) => counted.after_packet(tracker, packet, sample_rate),
            Err(error) => counted.after_refusal(error),
        }
    }

    /// The counts after a datagram was received, before it is handed on.
    pub open spec fn after_datagram(
        self,
        tracker: TrackerState,
        datagram: Seq<u8>,
        sample_rate: u64,
    ) -> Counters {
        self.after_parse(tracker, parsed(datagram), sample_rate)
    }

    /// The counts after the analysis queue took a datagram, or did not.
    pub open spec fn after_handoff(self, handoff: Handoff) -> Counters {
        match handoff {
            Handoff::Queued => Counters {
                packets_analyzed: wrapped(self.packets_analyzed + 1),
                ..self
            },
            Handoff::Full => Counters { stft_dropped: wrapped(self.stft_dropped + 1), ..self },
            Handoff::Closed => self,
        }
    }

    fn on_refusal(&mut self, error: &ParseError)
        ensures
            *final(self) == old(self).after_refusal(*error),
    {
        Counters::bump(&mut self.parse_errors);
        match error {
            ParseError::TooShort { .. } => Counters::bump(&mut self.too_short),
            ParseError::UnsupportedPacketType(_) => Counters::bump(&mut self.wrong_type),
            ParseError::UnsupportedTrailer => Counters::bump(&mut self.trailerized),
        }
    }

    /// Counts how the analysis queue took a datagram. Returns whether the receive
    /// loop goes on: it ends once the worker is gone. The socket is never blocked: a
    /// full queue is a counted drop, not backpressure.
    pub fn on_handoff(&mut self, handoff: Handoff) -> (goes_on: bool)
        ensures
            *final(self) == old(self).after_handoff(handoff),
            goes_on == handoff.goes_on(),
    {
        match handoff {
            Handoff::Queued => {
                Counters::bump(&mut self.packets_analyzed);
                true
            },
            Handoff::Full => {
                Counters::bump(&mut self.stft_dropped);
                true
            },
            Handoff::Closed => false,
        }
    }
}

impl ReceiverState {
    /// Nothing was received yet; packets are expected at the nominal spacing.
    pub open spec fn fresh() -> ReceiverState {
        ReceiverState {
            tracker: TrackerState {
                last: None,
                expected_step: NOMINAL_COMPLEX_SAMPLES as u64,
                gaps: 0,
                missing_samples: 0,
                last_step: 0,
                out_of_order: 0,
            },
            fixture_written: false,
        }
    }

    /// The state after a datagram.
    pub open spec fn after(self, datagram: Seq<u8>, rules: ReceiveRules) -> ReceiverState {
        match parsed(datagram) {
            Ok(packet) => ReceiverState {
                tracker: self.tracker.observed(packet.counter(rules.sample_rate)),
                fixture_written: self.fixture_written || rules.capture,
            },
            Err(_) => self,
        }
    }

    /// A packet is the one to capture: the first one that parses, where one is asked
    /// for and the packet is full.
    pub open spec fn captures(self, packet: PacketView, rules: ReceiveRules) -> bool {
        rules.capture && !self.fixture_written && packet.payload.len() / 4
            == NOMINAL_COMPLEX_SAMPLES
    }

    /// What to do with the datagram of number `number`.
    pub open spec fn decision(
        self,
        number: u64,
        datagram: Seq<u8>,
        rules: ReceiveRules,
    ) -> Received {
        let inspect = number <= rules.hexdump_first;
        match parsed(datagram) {
            Ok(packet) => {
                let counter = packet.counter(rules.sample_rate);
                let seen = self.tracker.observed(counter);
                Received {
                    number,
                    inspect,
                    report: match self.tracker.gap_at(counter) {
                        Some(gap) if worth_a_line(seen.gaps as u64, 100) => Some(
                            GapReport {
                                gap,
                                gaps: seen.gaps as u64,
                                missing_samples: seen.missing_samples as u64,
                            },
                        ),
                        _ => None,
                    },
                    capture: self.captures(packet, rules),
                    forward: true,
                }
            },
            Err(_) => Received { number, inspect, report: None, capture: false, forward: false },
        }
    }

    /// The tracker has room for what a datagram brings.
    pub open spec fn can_receive(self, datagram: Seq<u8>, sample_rate: u64) -> bool {
        parsed(datagram) matches Ok(packet) ==> self.tracker.can_observe(
            packet.counter(sample_rate),
        )
    }
}

impl Receiver {
    /// A receiver that has seen nothing yet.
    pub fn new() -> (receiver: Receiver)
        ensures
            receiver@ == ReceiverState::fresh(),
    {
        Receiver { tracker: GapTracker::new(NOMINAL_COMPLEX_SAMPLES as u64), fixture_written: false }
    }

    /// Whether the counts have room for receiving a datagram.
    pub fn has_room_for(&self, counters: &Counters, datagram: &[u8], sample_rate: u64) -> (room:
        bool)
        ensures
            room == (counters.packets_received < u64::MAX && self@.can_receive(
                datagram@,
                sample_rate,
            )),
    {
        counters.packets_received < u64::MAX && match parse_datagram(datagram) {
            Ok(packet) => self.tracker.has_room_for(packet.sample_counter(sample_rate)),
            Err(_) => true,
        }
    }

    /// Counts a datagram and decides what to do with it.
    ///
    /// Cheap rejection here keeps the counts honest in the receive path. This is the
    /// only place that sees every datagram, so it owns both the accounting of wire
    /// loss and the sample counter.
    pub fn on_datagram(
        &mut self,
        counters: &mut Counters,
        datagram: &[u8],
        rules: ReceiveRules,
    ) -> (decision: Received)
        requires
            old(counters).packets_received < u64::MAX,
            old(self)@.can_receive(datagram@, rules.sample_rate),
        ensures
            *final(counters) == old(counters).after_datagram(
                old(self)@.tracker,
                datagram@,
                rules.sample_rate,
            ),
            final(self)@ == old(self)@.after(datagram@, rules),
            decision == old(self)@.decision(
                (old(counters).packets_received + 1) as u64,
                datagram@,
                rules,
            ),
    {
        Counters::bump(&mut counters.packets_received);
        let number: u64 = counters.packets_received;
        let inspect: bool = number <= rules.hexdump_first;
        let packet: Packet<'_> = match parse_datagram(datagram) {
            Ok(packet) => packet,
            Err(error) => {
                counters.on_refusal(&error);
                return Received { number, inspect, report: None, capture: false, forward: false };
            },
        };
        if !packet.size_field_matches {
            Counters::bump(&mut counters.size_field_mismatch);
        }
        Counters::raise(&mut counters.samples_received, packet.components() as u64);
        // The unwrapped sample counter is the only loss signal available.
        let counter: u64 = packet.sample_counter(rules.sample_rate);
        counters.last_counter = if counter > i64::MAX as u64 {
            i64::MAX
        } else {
            counter as i64
        };
        let gap: Option<Gap> = self.tracker.observe(counter, packet.complex_samples() as u64);
        let LossTotals { gaps, missing_samples, out_of_order } = self.tracker.totals();
        counters.gaps = gaps;
        counters.missing_samples = missing_samples;
        counters.out_of_order = out_of_order;
        let report: Option<GapReport> = match gap {
            Some(gap) => if is_worth_a_line(gaps, 100) {
                Some(GapReport { gap, gaps, missing_samples })
            } else {
                None
            },
            None => None,
        };
        let capture: bool = rules.capture && !self.fixture_written && packet.complex_samples()
            == NOMINAL_COMPLEX_SAMPLES;
        if rules.capture {
            self.fixture_written = true;
        }
        Received { number, inspect, report, capture, forward: true }
    }
}

// ---------------- Analysis ----------------

/// A row as it is published.
pub open spec fn published_row<P>(row: Row<P>) -> RowDto<P> {
    RowDto { sample: row.sample, bins: row.bins }
}

/// Rows as they are published.
pub open spec fn published_rows<P>(rows: Seq<Row<P>>) -> Seq<RowDto<P>> {
    rows.map_values(|row: Row<P>| published_row(row))
}

impl Counters {
    /// The counts after `count` rows were queued, and `dropped` in all were evicted.
    pub open spec fn after_rows(self, count: nat, dropped: nat) -> Counters {
        if count == 0 {
            self
        } else {
            Counters {
                rows_produced: wrapped(self.rows_produced + count),
                publish_dropped: dropped as u64,
                ..self
            }
        }
    }
}

/// Queues the rows of one datagram for publication and counts them.
pub fn queue_rows<P>(rows: Vec<Row<P>>, batch: &mut RowBatch<P>, counters: &mut Counters)
    requires
        old(batch)@.wf(),
        old(batch)@.can_push(rows@.len()),
    ensures
        final(batch)@ == pushed_all(old(batch)@, published_rows(rows@)),
        final(batch)@.wf(),
        *final(counters) == old(counters).after_rows(rows@.len(), final(batch)@.dropped),
{
    let ghost all = published_rows(rows@);
    let ghost start = batch@;
    let ghost total = rows.len() as nat;
    assert(start.dropped <= u64::MAX) by {
        batch.lemma_drop_count_fits();
    }
    let ghost given = rows@;
    proof {
        law_room_for_all_is_room_for_each(start, all);
        assert(all.take(0) =~= Seq::empty());
    }
    for row in it: rows
        invariant
            it.seq() == given,
            all == published_rows(given),
            total == given.len(),
            total <= usize::MAX,
            start.wf(),
            start == old(batch)@,
            batch@ == pushed_all(start, all.take(it.index() as int)),
            batch@.wf(),
            forall|k: int|
                0 <= k < all.len() ==> (#[trigger] pushed_all(start, all.take(k))).can_push(1),
            *counters == old(counters).after_rows(it.index() as nat, batch@.dropped),
    {
        let ghost k = it.index() as int;
        proof {
            assert(pushed_all(start, all.take(k)).can_push(1));
            assert(all.take(k + 1).drop_last() =~= all.take(k));
            assert(all.take(k + 1).last() == published_row(row));
        }
        Counters::bump(&mut counters.rows_produced);
        batch.push(RowDto { sample: row.sample, bins: row.bins });
        counters.publish_dropped = batch.dropped();
    }
    assert(all.take(total as int) =~= all);
}

// ---------------- Publishing ----------------

/// The text without the slashes at its end.
pub open spec fn without_slashes(text: Seq<char>) -> Seq<char>
    decreases text.len(),
{
    if text.len() > 0 && text.last() == '/' {
        without_slashes(text.drop_last())
    } else {
        text
    }
}

/// Where batches are posted to: the bridge's address, then `/ingest`.
pub open spec fn ingest_address(bridge_url: Seq<char>) -> Seq<char> {
    without_slashes(bridge_url) + "/ingest"@
}

/// Where batches are posted to: the bridge's address, then `/ingest`.
pub fn ingest_url(bridge_url: &str) -> (url: String)
    ensures
        url@ == ingest_address(bridge_url@),
{
    let chars: Vec<char> = chars_of(bridge_url);
    let mut end: usize = chars.len();
    assert(chars@.take(end as int) =~= bridge_url@);
    while end > 0 && chars[end - 1] == '/'
        invariant
            end <= chars@.len(),
            chars@ == bridge_url@,
            without_slashes(chars@.take(end as int)) == without_slashes(bridge_url@),
        decreases end,
    {
        assert(chars@.take(end as int).drop_last() =~= chars@.take(end - 1));
        end -= 1;
    }
    let mut url: String = bridge_url.substring_char(0, end).to_owned();
    assert(url@ =~= chars@.take(end as int));
    url.append("/ingest");
    url
}

impl Counters {
    /// The sample counter to report: zero before the first packet.
    pub open spec fn reported_counter(self) -> u64 {
        if self.last_counter < 0 {
            0
        } else {
            self.last_counter as u64
        }
    }
}

/// `meta` reports exactly these counts, for this receiver.
pub open spec fn is_meta_of<F>(
    meta: IngestMeta<F>,
    counters: Counters,
    center_hz: F,
    sample_rate_hz: F,
) -> bool {
    &&& meta.source@ == "vita49"@
    &&& meta.center_hz == center_hz
    &&& meta.sample_rate_hz == sample_rate_hz
    &&& meta.last_sample_counter == counters.reported_counter()
    &&& meta.gaps == counters.gaps
    &&& meta.missing_samples == counters.missing_samples
    &&& meta.packets_received == counters.packets_received
    &&& meta.parse_errors == counters.parse_errors
    &&& meta.stft_dropped == counters.stft_dropped
    &&& meta.publish_dropped == counters.publish_dropped
    &&& meta.rcvbuf_bytes == counters.rcvbuf_bytes
}

/// The loss and health report that goes with a batch.
fn ingest_meta<F>(counters: &Counters, center_hz: F, sample_rate_hz: F) -> (meta: IngestMeta<F>)
    ensures
        is_meta_of(meta, *counters, center_hz, sample_rate_hz),
{
    IngestMeta {
        source: "vita49".to_owned(),
        center_hz,
        sample_rate_hz,
        last_sample_counter: if counters.last_counter < 0 {
            0
        } else {
            counters.last_counter as u64
        },
        gaps: counters.gaps,
        missing_samples: counters.missing_samples,
        packets_received: counters.packets_received,
        parse_errors: counters.parse_errors,
        stft_dropped: counters.stft_dropped,
        publish_dropped: counters.publish_dropped,
        rcvbuf_bytes: counters.rcvbuf_bytes,
    }
}

impl Counters {
    /// The counts once a batch was taken out for publication.
    pub open spec fn after_drain(self, dropped: nat) -> Counters {
        Counters { publish_dropped: dropped as u64, ..self }
    }

    /// The counts once `count` rows were posted, and the bridge took them or not.
    pub open spec fn after_post(self, accepted: bool, count: u64) -> Counters {
        if accepted {
            Counters {
                batches_sent: wrapped(self.batches_sent + 1),
                rows_published: wrapped(self.rows_published + count),
                ..self
            }
        } else {
            Counters {
                bridge_errors: wrapped(self.bridge_errors + 1),
                rows_lost_to_bridge: wrapped(self.rows_lost_to_bridge + count),
                ..self
            }
        }
    }

    /// Whether a post that ends now is worth a log line: a failure that is one of the
    /// first five, and then every sixtieth.
    pub open spec fn post_is_logged(self, accepted: bool) -> bool {
        !accepted && worth_a_line(wrapped(self.bridge_errors + 1), 60)
    }

    /// Counts how a post ended. Returns whether a failure is worth a log line.
    pub fn on_post(&mut self, accepted: bool, count: u64) -> (log: bool)
        ensures
            *final(self) == old(self).after_post(accepted, count),
            log == old(self).post_is_logged(accepted),
    {
        if accepted {
            Counters::bump(&mut self.batches_sent);
            Counters::raise(&mut self.rows_published, count);
            false
        } else {
            Counters::bump(&mut self.bridge_errors);
            Counters::raise(&mut self.rows_lost_to_bridge, count);
            is_worth_a_line(self.bridge_errors, 60)
        }
    }
}

/// `request` is what is posted next: nothing while no row waits; else every row that
/// waits, in order, and the report on the counts once they are taken out.
pub open spec fn is_publication<P, F>(
    request: Option<IngestRequest<P, F>>,
    batch: BatchState<P>,
    counters: Counters,
    center_hz: F,
    sample_rate_hz: F,
) -> bool {
    match request {
        None => batch.rows.len() == 0,
        Some(request) => batch.rows.len() > 0 && request.rows@ == batch.rows && is_meta_of(
            request.meta,
            counters.after_drain(batch.dropped),
            center_hz,
            sample_rate_hz,
        ),
    }
}

/// Takes the rows that wait and makes the body of one post of them; nothing is
/// posted while no row waits.
pub fn next_publication<P, F>(
    batch: &mut RowBatch<P>,
    counters: &mut Counters,
    center_hz: F,
    sample_rate_hz: F,
) -> (request: Option<IngestRequest<P, F>>)
    requires
        old(batch)@.wf(),
    ensures
        final(batch)@ == old(batch)@.drained(),
        final(batch)@.wf(),
        *final(counters) == old(counters).after_drain(old(batch)@.dropped),
        is_publication(request, old(batch)@, *old(counters), center_hz, sample_rate_hz),
{
    counters.publish_dropped = batch.dropped();
    let rows: Vec<RowDto<P>> = batch.drain();
    if rows.len() == 0 {
        return None;
    }
    Some(IngestRequest { rows, meta: ingest_meta(counters, center_hz, sample_rate_hz) })
}

// ---------------- Statistics ----------------

/// Snapshot served by `GET /stats` and logged periodically. `F` is a rate in Hz.
#[derive(Debug, Clone)]
pub struct StatsSnapshot<F> {
    pub source: String,
    pub uptime_secs: u64,
    pub center_hz: F,
    pub sample_rate_hz: F,
    /// Receive rate over the sampling window (packets per second).
    pub packets_per_sec: F,
    pub packets_received: u64,
    pub packets_analyzed: u64,
    pub samples_received: u64,
    pub parse_errors: u64,
    pub too_short: u64,
    pub wrong_type: u64,
    pub trailerized: u64,
    pub size_field_mismatch: u64,
    pub stft_dropped: u64,
    pub rows_produced: u64,
    pub rows_published: u64,
    pub batches_sent: u64,
    pub bridge_errors: u64,
    pub rows_lost_to_bridge: u64,
    pub publish_dropped: u64,
    pub gaps: u64,
    pub missing_samples: u64,
    pub out_of_order: u64,
    pub last_sample_counter: Option<u64>,
    pub rcvbuf_bytes: u64,
}

impl<F> StatsSnapshot<F> {
    /// Everything but the counts.
    pub open spec fn is_labelled(
        self,
        center_hz: F,
        sample_rate_hz: F,
        uptime_secs: u64,
        packets_per_sec: F,
    ) -> bool {
        &&& self.source@ == "vita49"@
        &&& self.uptime_secs == uptime_secs
        &&& self.center_hz == center_hz
        &&& self.sample_rate_hz == sample_rate_hz
        &&& self.packets_per_sec == packets_per_sec
    }

    /// Every count is the one of `counters`, and the sample counter is missing
    /// exactly before the first packet.
    pub open spec fn shows(self, counters: Counters) -> bool {
        &&& self.packets_received == counters.packets_received
        &&& self.packets_analyzed == counters.packets_analyzed
        &&& self.samples_received == counters.samples_received
        &&& self.parse_errors == counters.parse_errors
        &&& self.too_short == counters.too_short
        &&& self.wrong_type == counters.wrong_type
        &&& self.trailerized == counters.trailerized
        &&& self.size_field_mismatch == counters.size_field_mismatch
        &&& self.stft_dropped == counters.stft_dropped
        &&& self.rows_produced == counters.rows_produced
        &&& self.rows_published == counters.rows_published
        &&& self.batches_sent == counters.batches_sent
        &&& self.bridge_errors == counters.bridge_errors
        &&& self.rows_lost_to_bridge == counters.rows_lost_to_bridge
        &&& self.publish_dropped == counters.publish_dropped
        &&& self.gaps == counters.gaps
        &&& self.missing_samples == counters.missing_samples
        &&& self.out_of_order == counters.out_of_order
        &&& self.last_sample_counter == (if counters.last_counter < 0 {
            None
        } else {
            Some(counters.last_counter as u64)
        })
        &&& self.rcvbuf_bytes == counters.rcvbuf_bytes
    }
}

/// The statistics at one moment.
pub fn snapshot<F>(
    counters: &Counters,
    center_hz: F,
    sample_rate_hz: F,
    uptime_secs: u64,
    packets_per_sec: F,
) -> (snapshot: StatsSnapshot<F>)
    ensures
        snapshot.shows(*counters),
        snapshot.is_labelled(center_hz, sample_rate_hz, uptime_secs, packets_per_sec),
{
    StatsSnapshot {
        source: "vita49".to_owned(),
        uptime_secs,
        center_hz,
        sample_rate_hz,
        packets_per_sec,
        packets_received: counters.packets_received,
        packets_analyzed: counters.packets_analyzed,
        samples_received: counters.samples_received,
        parse_errors: counters.parse_errors,
        too_short: counters.too_short,
        wrong_type: counters.wrong_type,
        trailerized: counters.trailerized,
        size_field_mismatch: counters.size_field_mismatch,
        stft_dropped: counters.stft_dropped,
        rows_produced: counters.rows_produced,
        rows_published: counters.rows_published,
        batches_sent: counters.batches_sent,
        bridge_errors: counters.bridge_errors,
        rows_lost_to_bridge: counters.rows_lost_to_bridge,
        publish_dropped: counters.publish_dropped,
        gaps: counters.gaps,
        missing_samples: counters.missing_samples,
        out_of_order: counters.out_of_order,
        last_sample_counter: if counters.last_counter < 0 {
            None
        } else {
            Some(counters.last_counter as u64)
        },
        rcvbuf_bytes: counters.rcvbuf_bytes,
    }
}

// ---------------- Inspection ----------------

/// What the payload of a packet looks like.
#[derive(Debug, Clone, Copy, PartialEq, Eq, Structural)]
pub struct PayloadReport {
    pub stream_id: u32,
    pub ts_int: u32,
    pub ts_frac: u64,
    pub complex_samples: usize,
    pub sample_counter: u64,
    pub trailing_bytes: usize,
    pub size_field_matches: bool,
    pub components: usize,
    /// How many different component values occur.
    pub distinct: usize,
    /// How many components are not zero.
    pub nonzero: usize,
    /// The payload is constant (dead ADC, misframed datagram), the only thing that
    /// can honestly be called wrong: a clean tone quantizes to a handful of values.
    pub degenerate: bool,
}

/// What a datagram looks like on the wire: length, header word, decoded fields,
/// first and last bytes, timestamps and payload.
#[derive(Debug)]
pub struct Inspection {
    pub len: usize,
    /// The first word, or zero where there is none.
    pub header_word: u32,
    pub header: Header,
    /// The first bytes, at most 64.
    pub first: Vec<u8>,
    /// The last 16 bytes, where the first ones are not all.
    pub last: Vec<u8>,
    pub payload: Result<PayloadReport, ParseError>,
}

/// How many of the components are not zero.
pub open spec fn nonzero_in(components: Seq<i16>) -> nat
    decreases components.len(),
{
    if components.len() == 0 {
        0
    } else {
        nonzero_in(components.drop_last()) + if components.last() != 0 {
            1nat
        } else {
            0
        }
    }
}

/// The report on a packet.
pub open spec fn payload_report(packet: PacketView, sample_rate: u64) -> PayloadReport {
    let components = packet.as_i16();
    PayloadReport {
        stream_id: packet.stream_id,
        ts_int: packet.ts_int,
        ts_frac: packet.ts_frac,
        complex_samples: (packet.payload.len() / 4) as usize,
        sample_counter: packet.counter(sample_rate),
        trailing_bytes: packet.trailing_bytes,
        size_field_matches: packet.size_field_matches,
        components: (packet.payload.len() / 2) as usize,
        distinct: components.to_set().len() as usize,
        nonzero: nonzero_in(components) as usize,
        degenerate: components.to_set().len() <= 1,
    }
}

/// The first word of a datagram, or zero where there is none.
pub open spec fn leading_word(datagram: Seq<u8>) -> u32 {
    if datagram.len() >= 4 {
        be32(datagram, 0) as u32
    } else {
        0
    }
}

/// `inspection` says of `datagram` what there is to say.
pub open spec fn is_inspection_of(
    inspection: Inspection,
    datagram: Seq<u8>,
    sample_rate: u64,
) -> bool {
    &&& inspection.len == datagram.len()
    &&& inspection.header_word == leading_word(datagram)
    &&& inspection.header == header_of(leading_word(datagram))
    &&& inspection.first@ == (if datagram.len() > 64 {
        datagram.take(64)
    } else {
        datagram
    })
    &&& inspection.last@ == (if datagram.len() > 64 {
        datagram.skip(datagram.len() - 16)
    } else {
        Seq::empty()
    })
    &&& inspection.payload == (match parsed(datagram) {
        Ok(packet) => Ok(payload_report(packet, sample_rate)),
        Err(error) => Err(error),
    })
}

fn report_on(packet: &Packet<'_>, sample_rate: u64) -> (report: PayloadReport)
    ensures
        report == payload_report(packet@, sample_rate),
{
    broadcast use vstd::std_specs::hash::group_hash_axioms;

    let components: Vec<i16> = packet.to_i16();
    let mut values: HashSet<i16> = HashSet::new();
    let mut nonzero: usize = 0;
    let mut k: usize = 0;
    assert(components@.take(0).to_set() =~= Set::<i16>::empty());
    while k < components.len()
        invariant
            k <= components@.len(),
            values@ == components@.take(k as int).to_set(),
            nonzero == nonzero_in(components@.take(k as int)),
            nonzero <= k,
        decreases components@.len() - k,
    {
        broadcast use vstd::std_specs::hash::group_hash_axioms;

        let value: i16 = components[k];
        proof {
            let before = components@.take(k as int);
            let now = components@.take(k + 1);
            assert(now =~= before.push(value));
            assert(now.drop_last() =~= before);
            assert(now.to_set() =~= before.to_set().insert(value)) by {
                assert forall|v: i16| now.to_set().contains(v) implies before.to_set().insert(
                    value,
                ).contains(v) by {
                    let i = choose|i: int| 0 <= i < now.len() && now[i] == v;
                    if i < k {
                        assert(before[i] == v);
                    }
                }
                assert forall|v: i16| before.to_set().insert(value).contains(v) implies now.to_set().contains(
                    v,
                ) by {
                    if v == value {
                        assert(now[k as int] == v);
                    } else {
                        let i = choose|i: int| 0 <= i < before.len() && before[i] == v;
                        assert(now[i] == v);
                    }
                }
            }
        }
        if value != 0 {
            nonzero += 1;
        }
        values.insert(value);
        k += 1;
    }
    assert(components@.take(k as int) =~= components@);
    let distinct: usize = values.len();
    PayloadReport {
        stream_id: packet.stream_id,
        ts_int: packet.ts_int,
        ts_frac: packet.ts_frac,
        complex_samples: packet.complex_samples(),
        sample_counter: packet.sample_counter(sample_rate),
        trailing_bytes: packet.trailing_bytes,
        size_field_matches: packet.size_field_matches,
        components: packet.components(),
        distinct,
        nonzero,
        degenerate: distinct <= 1,
    }
}

/// Looks at a datagram, to prove the transport before a parser is trusted.
pub fn inspect(datagram: &[u8], sample_rate: u64) -> (inspection: Inspection)
    ensures
        is_inspection_of(inspection, datagram@, sample_rate),
{
    let len: usize = datagram.len();
    let header_word: u32 = if len >= 4 {
        read_u32(datagram, 0)
    } else {
        0
    };
    let shown: usize = if len > 64 {
        64
    } else {
        len
    };
    let mut first: Vec<u8> = Vec::new();
    first.extend_from_slice(slice_subrange(datagram, 0, shown));
    let mut last: Vec<u8> = Vec::new();
    if len > shown {
        last.extend_from_slice(slice_subrange(datagram, len - 16, len));
    }
    let payload: Result<PayloadReport, ParseError> = match parse_datagram(datagram) {
        Ok(packet) => Ok(report_on(&packet, sample_rate)),
        Err(error) => Err(error),
    };
    proof {
        assert(first@ =~= datagram@.take(shown as int));
        if len > 64 {
            assert(last@ =~= datagram@.skip(len - 16));
        } else {
            assert(datagram@.take(shown as int) =~= datagram@);
        }
    }
    Inspection { len, header_word, header: parse_header(header_word), first, last, payload }
}

// ---------------- Configuration ----------------

/// Configuration resolved from flags and environment. `F` is a frequency in Hz;
/// addresses are texts that the socket layer reads.
#[derive(Debug, Clone)]
pub struct Config<F> {
    pub listen: String,
    pub bridge_url: String,
    pub sample_rate: F,
    pub center_hz: F,
    pub publish_hz: F,
    pub stats_listen: String,
    pub rcvbuf: usize,
    pub hexdump_first: u64,
    pub capture_fixture: Option<String>,
}

/// The frequencies that hold where no flag gives others.
#[derive(Debug, Clone, Copy)]
pub struct DefaultRates<F> {
    pub sample_rate: F,
    pub center_hz: F,
    pub publish_hz: F,
}

/// Every flag that the program takes.
pub open spec fn known_flag_texts() -> Seq<Seq<char>> {
    seq![
        "--listen"@,
        "--bridge-url"@,
        "--sample-rate"@,
        "--center-freq"@,
        "--publish-hz"@,
        "--stats-listen"@,
        "--rcvbuf"@,
        "--hexdump-first"@,
        "--capture-fixture"@,
    ]
}

/// Every flag that the program takes.
pub fn known_flags() -> (flags: Vec<&'static str>)
    ensures
        str_texts(flags@) == known_flag_texts(),
{
    let flags: Vec<&'static str> = vec![
        "--listen",
        "--bridge-url",
        "--sample-rate",
        "--center-freq",
        "--publish-hz",
        "--stats-listen",
        "--rcvbuf",
        "--hexdump-first",
        "--capture-fixture",
    ];
    assert(str_texts(flags@) =~= known_flag_texts());
    flags
}

/// `config` is what the arguments and the two environment variables ask for: the
/// environment goes before a flag, and a flag before the default.
pub open spec fn is_config_of<F: FromStr>(
    config: Config<F>,
    args: Seq<Seq<char>>,
    listen: Option<Seq<char>>,
    bridge_url: Option<Seq<char>>,
    rates: DefaultRates<F>,
) -> bool {
    &&& config.listen@ == chosen_text(listen, args, "--listen"@, "0.0.0.0:4820"@)
    &&& config.bridge_url@ == chosen_text(
        bridge_url,
        args,
        "--bridge-url"@,
        "http://waterfall-ui.default.svc.cluster.local:4780"@,
    )
    &&& is_reading(flag_text(args, "--sample-rate"@), rates.sample_rate, config.sample_rate)
    &&& is_reading(flag_text(args, "--center-freq"@), rates.center_hz, config.center_hz)
    &&& is_reading(flag_text(args, "--publish-hz"@), rates.publish_hz, config.publish_hz)
    &&& config.stats_listen@ == chosen_text(None, args, "--stats-listen"@, "0.0.0.0:4830"@)
    &&& config.rcvbuf == number_setting(args, "--rcvbuf"@, 8_388_608, usize::MAX as nat)
    &&& config.hexdump_first == number_setting(args, "--hexdump-first"@, 0, u64::MAX as nat)
    &&& opt_text(config.capture_fixture) == flag_text(args, "--capture-fixture"@)
}

/// Resolves the configuration. `listen` and `bridge_url` are the values of
/// `WATERFALL_CONSUMER_LISTEN` and `WATERFALL_BRIDGE_URL`.
pub fn load_config<F: FromStr>(
    args: &[String],
    listen: Option<String>,
    bridge_url: Option<String>,
    rates: DefaultRates<F>,
) -> (config: Config<F>)
    ensures
        is_config_of(config, texts(args@), opt_text(listen), opt_text(bridge_url), rates),
{
    Config {
        listen: text_setting(listen, args, "--listen", "0.0.0.0:4820"),
        bridge_url: text_setting(
            bridge_url,
            args,
            "--bridge-url",
            "http://waterfall-ui.default.svc.cluster.local:4780",
        ),
        sample_rate: parse_or(args, "--sample-rate", rates.sample_rate),
        center_hz: parse_or(args, "--center-freq", rates.center_hz),
        publish_hz: parse_or(args, "--publish-hz", rates.publish_hz),
        stats_listen: text_setting(None, args, "--stats-listen", "0.0.0.0:4830"),
        rcvbuf: size_or(args, "--rcvbuf", 8_388_608),
        hexdump_first: number_or(args, "--hexdump-first", 0),
        capture_fixture: flag_value(args, "--capture-fixture"),
    }
}

// ---------------- Laws ----------------

impl Counters {
    /// Every datagram received was refused, handed to analysis or dropped at the
    /// queue, and every refusal has its reason counted.
    pub open spec fn balanced(self) -> bool {
        &&& same_in_register(
            self.packets_received as int,
            self.parse_errors + self.packets_analyzed + self.stft_dropped,
        )
        &&& same_in_register(
            self.parse_errors as int,
            self.too_short + self.wrong_type + self.trailerized,
        )
    }
}

impl Counters {
    /// The same, in plain numbers: no count has started over.
    pub open spec fn balanced_exactly(self) -> bool {
        &&& self.packets_received == self.parse_errors + self.packets_analyzed + self.stft_dropped
        &&& self.parse_errors == self.too_short + self.wrong_type + self.trailerized
    }
}

/// A datagram that came, and how the analysis queue would take it.
pub struct Arrival {
    pub datagram: Seq<u8>,
    pub handoff: Handoff,
}

/// The counts and the receiver after one arrival: a datagram is handed on where the
/// receiver decides so.
pub open spec fn after_arrival(
    counters: Counters,
    receiver: ReceiverState,
    arrival: Arrival,
    rules: ReceiveRules,
) -> (Counters, ReceiverState) {
    let received = counters.after_datagram(
        receiver.tracker,
        arrival.datagram,
        rules.sample_rate,
    );
    (
        if receiver.decision(
            wrapped(counters.packets_received + 1),
            arrival.datagram,
            rules,
        ).forward {
            received.after_handoff(arrival.handoff)
        } else {
            received
        },
        receiver.after(arrival.datagram, rules),
    )
}

/// The counts and the receiver after arrivals one after the other.
pub open spec fn after_arrivals(
    counters: Counters,
    receiver: ReceiverState,
    arrivals: Seq<Arrival>,
    rules: ReceiveRules,
) -> (Counters, ReceiverState)
    decreases arrivals.len(),
{
    if arrivals.len() == 0 {
        (counters, receiver)
    } else {
        let before = after_arrivals(counters, receiver, arrivals.drop_last(), rules);
        after_arrival(before.0, before.1, arrivals.last(), rules)
    }
}

proof fn lemma_one_more_datagram_keeps_the_exact_balance(
    counters: Counters,
    tracker: TrackerState,
    outcome: Result<PacketView, ParseError>,
    sample_rate: u64,
    handoff: Handoff,
)
    requires
        counters.balanced_exactly(),
        counters.packets_received < u64::MAX,
        handoff != Handoff::Closed,
    ensures
        ({
            let received = counters.after_parse(tracker, outcome, sample_rate);
            let after = if outcome is Ok {
                received.after_handoff(handoff)
            } else {
                received
            };
            after.balanced_exactly() && after.packets_received == counters.packets_received + 1
        }),
{
}

/// No datagram goes uncounted, in plain numbers: from the start on, for as many
/// datagrams as the count can hold, the datagrams that came are those received, and
/// these are exactly those refused, handed to analysis or dropped at the queue.
pub proof fn law_every_datagram_is_accounted_for_exactly(
    receiver: ReceiverState,
    arrivals: Seq<Arrival>,
    rules: ReceiveRules,
)
    requires
        arrivals.len() <= u64::MAX,
        forall|k: int| 0 <= k < arrivals.len() ==> (#[trigger] arrivals[k]).handoff != Handoff::Closed,
    ensures
        ({
            let after = after_arrivals(Counters::fresh(), receiver, arrivals, rules).0;
            after.packets_received == arrivals.len() && after.balanced_exactly()
        }),
    decreases arrivals.len(),
{
    if arrivals.len() > 0 {
        let front = arrivals.drop_last();
        assert forall|k: int| 0 <= k < front.len() implies (#[trigger] front[k]).handoff
            != Handoff::Closed by {
            assert(arrivals[k].handoff != Handoff::Closed);
        }
        law_every_datagram_is_accounted_for_exactly(receiver, front, rules);
        let before = after_arrivals(Counters::fresh(), receiver, front, rules);
        let last = arrivals[arrivals.len() - 1];
        lemma_one_more_datagram_keeps_the_exact_balance(
            before.0,
            before.1.tracker,
            parsed(last.datagram),
            rules.sample_rate,
            last.handoff,
        );
    }
}

proof fn lemma_one_more_datagram_keeps_the_balance(
    counters: Counters,
    tracker: TrackerState,
    outcome: Result<PacketView, ParseError>,
    sample_rate: u64,
    handoff: Handoff,
)
    requires
        counters.balanced(),
        handoff != Handoff::Closed,
    ensures
        ({
            let received = counters.after_parse(tracker, outcome, sample_rate);
            if outcome is Ok {
                received.after_handoff(handoff).balanced()
            } else {
                received.balanced()
            }
        }),
{
    let received = counters.after_parse(tracker, outcome, sample_rate);
    let after = if outcome is Ok {
        received.after_handoff(handoff)
    } else {
        received
    };
    let parts = counters.parse_errors + counters.packets_analyzed + counters.stft_dropped;
    let parts_after = after.parse_errors + after.packets_analyzed + after.stft_dropped;
    assert(after.packets_received == wrapped(counters.packets_received + 1));
    assert(parts_after == parts + 1 || parts_after == parts + 1 - 0x1_0000_0000_0000_0000);
    let reasons = counters.too_short + counters.wrong_type + counters.trailerized;
    let reasons_after = after.too_short + after.wrong_type + after.trailerized;
    if outcome is Err {
        assert(after.parse_errors == wrapped(counters.parse_errors + 1));
        assert(reasons_after == reasons + 1 || reasons_after == reasons + 1
            - 0x1_0000_0000_0000_0000);
        lemma_stepping_keeps_register(
            counters.parse_errors as int,
            reasons,
            after.parse_errors as int,
            reasons_after,
        );
    } else {
        assert(after.parse_errors == counters.parse_errors && reasons_after == reasons);
    }
    lemma_stepping_keeps_register(
        counters.packets_received as int,
        parts,
        after.packets_received as int,
        parts_after,
    );
}

proof fn lemma_stepping_keeps_register(a: int, b: int, a_after: int, b_after: int)
    requires
        same_in_register(a, b),
        a_after == a + 1 || a_after == a + 1 - 0x1_0000_0000_0000_0000,
        b_after == b + 1 || b_after == b + 1 - 0x1_0000_0000_0000_0000,
    ensures
        same_in_register(a_after, b_after),
{
}

/// No datagram goes uncounted: one more datagram, handed on where it parses, keeps
/// the books balanced; and they are balanced at the start.
pub proof fn law_every_datagram_is_accounted_for(
    counters: Counters,
    tracker: TrackerState,
    datagram: Seq<u8>,
    sample_rate: u64,
    handoff: Handoff,
)
    requires
        counters.balanced(),
        handoff != Handoff::Closed,
    ensures
        Counters::fresh().balanced(),
        ({
            let received = counters.after_datagram(tracker, datagram, sample_rate);
            if parsed(datagram) is Ok {
                received.after_handoff(handoff).balanced()
            } else {
                received.balanced()
            }
        }),
{
    lemma_one_more_datagram_keeps_the_balance(
        counters,
        tracker,
        parsed(datagram),
        sample_rate,
        handoff,
    );
}

/// The datagrams that reach analysis: those that parse and found room in the queue, as
/// they came.
pub open spec fn handed_on(arrivals: Seq<Arrival>) -> Seq<Seq<u8>>
    decreases arrivals.len(),
{
    if arrivals.len() == 0 {
        Seq::empty()
    } else {
        let last = arrivals.last();
        let front = handed_on(arrivals.drop_last());
        if parsed(last.datagram) is Ok && last.handoff == Handoff::Queued {
            front.push(last.datagram)
        } else {
            front
        }
    }
}

/// The sample counters of the datagrams that parse, in order, whatever the queue did
/// with them.
pub open spec fn counters_seen(arrivals: Seq<Arrival>, sample_rate: u64) -> Seq<u64>
    decreases arrivals.len(),
{
    if arrivals.len() == 0 {
        Seq::empty()
    } else {
        let front = counters_seen(arrivals.drop_last(), sample_rate);
        match parsed(arrivals.last().datagram) {
            Ok(packet) => front.push(packet.counter(sample_rate)),
            Err(_) => front,
        }
    }
}

/// Loss is tracked over every datagram that parses, those dropped at the queue among
/// them; and what is counted as analysed is what was handed on.
pub proof fn law_loss_is_tracked_over_every_usable_datagram(
    receiver: ReceiverState,
    arrivals: Seq<Arrival>,
    rules: ReceiveRules,
)
    requires
        arrivals.len() <= u64::MAX,
        forall|k: int| 0 <= k < arrivals.len() ==> (#[trigger] arrivals[k]).handoff != Handoff::Closed,
    ensures
        after_arrivals(Counters::fresh(), receiver, arrivals, rules).1.tracker == observed_all(
            receiver.tracker,
            counters_seen(arrivals, rules.sample_rate),
        ),
        after_arrivals(Counters::fresh(), receiver, arrivals, rules).0.packets_analyzed
            == handed_on(arrivals).len(),
        handed_on(arrivals).len() <= arrivals.len(),
    decreases arrivals.len(),
{
    if arrivals.len() > 0 {
        let front = arrivals.drop_last();
        assert forall|k: int| 0 <= k < front.len() implies (#[trigger] front[k]).handoff
            != Handoff::Closed by {
            assert(arrivals[k].handoff != Handoff::Closed);
        }
        law_loss_is_tracked_over_every_usable_datagram(receiver, front, rules);
        let before = after_arrivals(Counters::fresh(), receiver, front, rules);
        let last = arrivals.last();
        let seen = counters_seen(front, rules.sample_rate);
        lemma_analyzed_after_arrival(
            before.0,
            before.1.tracker,
            parsed(last.datagram),
            rules.sample_rate,
            last.handoff,
        );
        match parsed(last.datagram) {
            Ok(packet) => {
                let counter = packet.counter(rules.sample_rate);
                assert(seen.push(counter).drop_last() =~= seen);
                assert(seen.push(counter).last() == counter);
            },
            Err(_) => {},
        }
    }
}

proof fn lemma_analyzed_after_arrival(
    counters: Counters,
    tracker: TrackerState,
    outcome: Result<PacketView, ParseError>,
    sample_rate: u64,
    handoff: Handoff,
)
    ensures
        ({
            let received = counters.after_parse(tracker, outcome, sample_rate);
            &&& received.packets_analyzed == counters.packets_analyzed
            &&& received.after_handoff(handoff).packets_analyzed == (if handoff == Handoff::Queued {
                wrapped(counters.packets_analyzed + 1)
            } else {
                counters.packets_analyzed
            })
        }),
{
}

/// What happens at the queue changes no loss count: the consumer's own drops are
/// never reported as loss on the wire.
pub proof fn law_queue_drops_are_no_wire_loss(counters: Counters, handoff: Handoff)
    ensures
        counters.after_handoff(handoff).gaps == counters.gaps,
        counters.after_handoff(handoff).missing_samples == counters.missing_samples,
        counters.after_handoff(handoff).out_of_order == counters.out_of_order,
        counters.after_handoff(handoff).last_counter == counters.last_counter,
{
}

/// The loss counts served are those of the tracker: gaps, samples missing and packets
/// out of order. They are so at the start, and stay so with every datagram.
pub proof fn law_loss_counts_follow_the_tracker(
    counters: Counters,
    receiver: ReceiverState,
    datagram: Seq<u8>,
    rules: ReceiveRules,
)
    requires
        counters.shows_loss_of(receiver.tracker),
        receiver.can_receive(datagram, rules.sample_rate),
    ensures
        counters.after_datagram(receiver.tracker, datagram, rules.sample_rate).shows_loss_of(
            receiver.after(datagram, rules).tracker,
        ),
        Counters::fresh().shows_loss_of(
            TrackerState {
                last: None,
                expected_step: NOMINAL_COMPLEX_SAMPLES as u64,
                gaps: 0,
                missing_samples: 0,
                last_step: 0,
                out_of_order: 0,
            },
        ),
{
}

impl Counters {
    /// The loss counts are those of a tracker.
    pub open spec fn shows_loss_of(self, tracker: TrackerState) -> bool {
        &&& self.gaps == tracker.gaps
        &&& self.missing_samples == tracker.missing_samples
        &&& self.out_of_order == tracker.out_of_order
    }
}

/// At most one datagram is captured, the first that parses: where capture is asked for,
/// that one is captured if it is full, and none after it.
pub proof fn law_at_most_one_capture(
    receiver: ReceiverState,
    number: u64,
    datagram: Seq<u8>,
    rules: ReceiveRules,
)
    ensures
        receiver.decision(number, datagram, rules).capture <==> rules.capture
            && !receiver.fixture_written && (parsed(datagram) matches Ok(packet)
            && packet.payload.len() / 4 == NOMINAL_COMPLEX_SAMPLES),
        receiver.after(datagram, rules).fixture_written <==> receiver.fixture_written || (
        rules.capture && parsed(datagram) is Ok),
{
}

/// Every row produced is held, was evicted, was published, was lost to the bridge,
/// or is on its way there.
pub open spec fn rows_balanced<P>(counters: Counters, batch: BatchState<P>, in_flight: nat) -> bool {
    same_in_register(
        counters.rows_produced as int,
        batch.rows.len() + batch.dropped + counters.rows_published + counters.rows_lost_to_bridge
            + in_flight,
    )
}

/// No row goes uncounted: queueing, draining and posting keep the books balanced.
pub proof fn law_every_row_is_accounted_for<P>(
    counters: Counters,
    batch: BatchState<P>,
    in_flight: nat,
    rows: Seq<Row<P>>,
    accepted: bool,
)
    requires
        batch.wf(),
        rows_balanced(counters, batch, in_flight),
        in_flight <= u64::MAX,
        rows.len() <= u64::MAX,
    ensures
        rows_balanced(
            counters.after_rows(
                rows.len(),
                pushed_all(batch, published_rows(rows)).dropped,
            ),
            pushed_all(batch, published_rows(rows)),
            in_flight,
        ),
        rows_balanced(
            counters.after_drain(batch.dropped),
            batch.drained(),
            in_flight + batch.rows.len(),
        ),
        rows_balanced(counters.after_post(accepted, in_flight as u64), batch, 0),
{
    law_latest_rows_win(batch, published_rows(rows));
}

/// The same, in plain numbers: no count has started over.
pub open spec fn rows_balanced_exactly<P>(
    counters: Counters,
    batch: BatchState<P>,
    in_flight: nat,
) -> bool {
    counters.rows_produced == batch.rows.len() + batch.dropped + counters.rows_published
        + counters.rows_lost_to_bridge + in_flight
}

/// No row goes uncounted, in plain numbers: the books are balanced at the start, and
/// queueing, draining and posting keep them so for as many rows as the count can hold.
pub proof fn law_every_row_is_accounted_for_exactly<P>(
    counters: Counters,
    batch: BatchState<P>,
    in_flight: nat,
    rows: Seq<Row<P>>,
    accepted: bool,
)
    requires
        batch.wf(),
        rows_balanced_exactly(counters, batch, in_flight),
        counters.rows_produced + rows.len() <= u64::MAX,
    ensures
        rows_balanced_exactly(
            counters.after_rows(
                rows.len(),
                pushed_all(batch, published_rows(rows)).dropped,
            ),
            pushed_all(batch, published_rows(rows)),
            in_flight,
        ),
        rows_balanced_exactly(
            counters.after_drain(batch.dropped),
            batch.drained(),
            in_flight + batch.rows.len(),
        ),
        rows_balanced_exactly(counters.after_post(accepted, in_flight as u64), batch, 0),
        rows_balanced_exactly(
            Counters::fresh(),
            BatchState { rows: Seq::<RowDto<P>>::empty(), capacity: batch.capacity, dropped: 0 },
            0,
        ),
{
    law_latest_rows_win(batch, published_rows(rows));
}

/// Slashes at the end of the bridge's address do not matter: they go, all of them, and
/// nothing else does.
pub proof fn law_trailing_slashes_do_not_matter(address: Seq<char>)
    ensures
        without_slashes(address).len() <= address.len(),
        forall|i: int|
            without_slashes(address).len() <= i < address.len() ==> #[trigger] address[i] == '/',
        ingest_address(address) == without_slashes(address) + "/ingest"@,
        without_slashes(address.push('/')) == without_slashes(address),
        without_slashes(address).len() > 0 ==> without_slashes(address).last() != '/',
        without_slashes(address).is_prefix_of(address),
    decreases address.len(),
{
    assert(address.push('/').drop_last() =~= address);
    if address.len() > 0 && address.last() == '/' {
        let front = address.drop_last();
        law_trailing_slashes_do_not_matter(front);
        let kept = without_slashes(front);
        assert forall|i: int| kept.len() <= i < address.len() implies #[trigger] address[i]
            == '/' by {
            if i < front.len() {
                assert(front[i] == '/');
            }
        }
        assert(address.subrange(0, kept.len() as int) =~= front.subrange(0, kept.len() as int));
    } else {
        assert(address.subrange(0, address.len() as int) =~= address);
    }
}

// ---------------- What the operations mean ----------------

/// At the start nothing is counted, the last counter is missing, no packet was seen,
/// packets are expected 2048 samples apart, and nothing was captured.
pub proof fn law_everything_starts_at_zero()
    ensures
        ({
            let c = Counters::fresh();
            &&& c.packets_received == 0 && c.packets_analyzed == 0 && c.samples_received == 0
            &&& c.socket_errors == 0 && c.parse_errors == 0 && c.too_short == 0
            &&& c.wrong_type == 0 && c.trailerized == 0 && c.stft_dropped == 0
            &&& c.rows_produced == 0 && c.rows_published == 0 && c.batches_sent == 0
            &&& c.bridge_errors == 0 && c.rows_lost_to_bridge == 0 && c.publish_dropped == 0
            &&& c.size_field_mismatch == 0 && c.gaps == 0 && c.missing_samples == 0
            &&& c.out_of_order == 0 && c.rcvbuf_bytes == 0 && c.last_counter == -1
        }),
        ({
            let r = ReceiverState::fresh();
            &&& r.tracker.last is None && r.tracker.expected_step == 2048
            &&& r.tracker.gaps == 0 && r.tracker.missing_samples == 0
            &&& r.tracker.out_of_order == 0 && r.tracker.last_step == 0
            &&& !r.fixture_written
        }),
{
}

/// A count goes up by what is added, and starts over at zero behind the largest 64-bit
/// number.
pub proof fn law_counts_add_up_in_a_register(count: u64, more: u64)
    ensures
        wrapped(count + more) == count.wrapping_add(more),
        count + more <= 0xFFFF_FFFF_FFFF_FFFF ==> wrapped(count + more) == count + more,
        same_in_register(wrapped(count + more) as int, count + more),
{
}

/// A datagram is handed to analysis exactly where it parses, whatever its size, its
/// counter or the state of the receiver; it is inspected exactly where it is one of the
/// first that are to be; and it keeps its number.
pub proof fn law_every_usable_datagram_is_handed_on(
    receiver: ReceiverState,
    number: u64,
    datagram: Seq<u8>,
    rules: ReceiveRules,
)
    ensures
        receiver.decision(number, datagram, rules).forward <==> parsed(datagram) is Ok,
        receiver.decision(number, datagram, rules).inspect <==> number <= rules.hexdump_first,
        receiver.decision(number, datagram, rules).number == number,
{
}

/// A gap is logged exactly where a packet closes one and it is among the first five or a
/// hundredth; the line names the gap (where the counter is, and how far it lies beyond
/// the expected step) and the totals with it.
pub proof fn law_gaps_are_logged_with_their_numbers(
    receiver: ReceiverState,
    number: u64,
    datagram: Seq<u8>,
    rules: ReceiveRules,
)
    requires
        receiver.can_receive(datagram, rules.sample_rate),
        0 <= receiver.tracker.gaps,
        0 <= receiver.tracker.missing_samples,
    ensures
        ({
            let report = receiver.decision(number, datagram, rules).report;
            let gaps = receiver.tracker.gaps + 1;
            match (parsed(datagram), receiver.tracker.last) {
                (Ok(packet), Some(previous)) => {
                    let counter = packet.counter(rules.sample_rate);
                    let beyond = counter - previous - receiver.tracker.expected_step;
                    &&& report is Some <==> beyond > 1 && (gaps <= 5 || gaps % 100 == 0)
                    &&& report matches Some(line) ==> {
                        &&& line.gap.at_counter == counter
                        &&& line.gap.missing_samples == beyond
                        &&& line.gaps == gaps
                        &&& line.missing_samples == receiver.tracker.missing_samples + beyond
                    }
                },
                _ => report is None,
            }
        }),
{
    if let Ok(packet) = parsed(datagram) {
        law_gaps_are_exactly_the_jumps(receiver.tracker, packet.counter(rules.sample_rate));
    }
}

/// A capture is made exactly of the first packet that parses, where one is asked for and
/// the packet holds 2048 samples; the tracker sees every packet that parses, and no
/// other datagram changes the receiver.
pub proof fn law_only_packets_change_the_receiver(
    receiver: ReceiverState,
    number: u64,
    datagram: Seq<u8>,
    rules: ReceiveRules,
)
    ensures
        match parsed(datagram) {
            Ok(packet) => {
                let after = receiver.after(datagram, rules);
                &&& after.tracker == receiver.tracker.observed(packet.counter(rules.sample_rate))
                &&& after.fixture_written == (receiver.fixture_written || rules.capture)
                &&& receiver.decision(number, datagram, rules).capture == (rules.capture
                    && !receiver.fixture_written && packet.payload.len() / 4 == 2048)
                &&& receiver.can_receive(datagram, rules.sample_rate)
                    == receiver.tracker.can_observe(packet.counter(rules.sample_rate))
            },
            Err(_) => {
                &&& receiver.after(datagram, rules) == receiver
                &&& !receiver.decision(number, datagram, rules).capture
                &&& receiver.can_receive(datagram, rules.sample_rate)
            },
        },
{
}

/// A packet raises the datagrams received by one, the samples by its components, and the
/// mismatches by one where its size field disagrees; its counter is the last one, as far
/// as a signed number holds it; the loss counts are those of the tracker with it. No
/// other count changes.
pub proof fn law_a_packet_is_counted(
    counters: Counters,
    tracker: TrackerState,
    datagram: Seq<u8>,
    sample_rate: u64,
)
    requires
        parsed(datagram) is Ok,
        tracker.can_observe(parsed(datagram)->Ok_0.counter(sample_rate)),
        0 <= tracker.gaps,
        0 <= tracker.missing_samples,
        0 <= tracker.out_of_order,
        datagram.len() <= u64::MAX,
    ensures
        ({
            let packet = parsed(datagram)->Ok_0;
            let counter = packet.counter(sample_rate);
            let after = counters.after_datagram(tracker, datagram, sample_rate);
            let seen = tracker.observed(counter);
            &&& after.packets_received == counters.packets_received.wrapping_add(1)
            &&& after.samples_received == counters.samples_received.wrapping_add(
                (packet.payload.len() / 2) as u64,
            )
            &&& after.size_field_mismatch == if packet.size_field_matches {
                counters.size_field_mismatch
            } else {
                counters.size_field_mismatch.wrapping_add(1)
            }
            &&& after.last_counter == if counter <= 0x7FFF_FFFF_FFFF_FFFF {
                counter as int
            } else {
                0x7FFF_FFFF_FFFF_FFFF
            }
            &&& after.gaps == seen.gaps
            &&& after.missing_samples == seen.missing_samples
            &&& after.out_of_order == seen.out_of_order
            &&& after == Counters {
                packets_received: after.packets_received,
                samples_received: after.samples_received,
                size_field_mismatch: after.size_field_mismatch,
                last_counter: after.last_counter,
                gaps: after.gaps,
                missing_samples: after.missing_samples,
                out_of_order: after.out_of_order,
                ..counters
            }
        }),
{
    law_every_byte_is_accounted_for(datagram);
}

/// A datagram that does not parse raises the datagrams received, the parse errors and
/// the count of its own reason by one each, and no other count.
pub proof fn law_a_refusal_is_counted_with_its_reason(
    counters: Counters,
    tracker: TrackerState,
    datagram: Seq<u8>,
    sample_rate: u64,
)
    requires
        parsed(datagram) is Err,
    ensures
        ({
            let after = counters.after_datagram(tracker, datagram, sample_rate);
            let error = parsed(datagram)->Err_0;
            &&& after.packets_received == counters.packets_received.wrapping_add(1)
            &&& after.parse_errors == counters.parse_errors.wrapping_add(1)
            &&& after.too_short == if error is TooShort {
                counters.too_short.wrapping_add(1)
            } else {
                counters.too_short
            }
            &&& after.wrong_type == if error is UnsupportedPacketType {
                counters.wrong_type.wrapping_add(1)
            } else {
                counters.wrong_type
            }
            &&& after.trailerized == if error is UnsupportedTrailer {
                counters.trailerized.wrapping_add(1)
            } else {
                counters.trailerized
            }
            &&& after == Counters {
                packets_received: after.packets_received,
                parse_errors: after.parse_errors,
                too_short: after.too_short,
                wrong_type: after.wrong_type,
                trailerized: after.trailerized,
                ..counters
            }
        }),
{
}

/// A datagram that the queue took raises the analysed ones by one, one that found it
/// full the dropped ones, and a queue that is gone nothing; a failure of the socket
/// raises the socket errors. No other count changes.
pub proof fn law_handoffs_and_socket_errors_are_counted(counters: Counters)
    ensures
        counters.after_handoff(Handoff::Queued) == (Counters {
            packets_analyzed: counters.packets_analyzed.wrapping_add(1),
            ..counters
        }),
        counters.after_handoff(Handoff::Full) == (Counters {
            stft_dropped: counters.stft_dropped.wrapping_add(1),
            ..counters
        }),
        counters.after_handoff(Handoff::Closed) == counters,
        counters.after_socket_error() == (Counters {
            socket_errors: counters.socket_errors.wrapping_add(1),
            ..counters
        }),
{
}

/// Rows that are queued raise the rows produced by their number, and the drops shown are
/// those of the batch, as soon as one is queued and whenever rows are taken out. No other
/// count changes, and a row keeps its position and its bins.
pub proof fn law_rows_are_counted<P>(
    counters: Counters,
    batch: BatchState<P>,
    rows: Seq<Row<P>>,
    k: int,
)
    requires
        batch.wf(),
        rows.len() <= u64::MAX,
        batch.dropped <= u64::MAX,
        batch.can_push(rows.len()),
    ensures
        ({
            let after_batch = pushed_all(batch, published_rows(rows));
            let after = counters.after_rows(rows.len(), after_batch.dropped);
            &&& rows.len() == 0 ==> after == counters
            &&& after.rows_produced == counters.rows_produced.wrapping_add(rows.len() as u64)
            &&& rows.len() > 0 ==> after.publish_dropped == after_batch.dropped
            &&& after == Counters {
                rows_produced: after.rows_produced,
                publish_dropped: after.publish_dropped,
                ..counters
            }
        }),
        counters.after_drain(batch.dropped).publish_dropped == batch.dropped,
        counters.after_drain(batch.dropped) == (Counters {
            publish_dropped: batch.dropped as u64,
            ..counters
        }),
        published_rows(rows).len() == rows.len(),
        0 <= k < rows.len() ==> published_rows(rows)[k].sample == rows[k].sample && published_rows(
            rows,
        )[k].bins == rows[k].bins,
{
    law_room_is_room_for_the_drops(batch, published_rows(rows));
}

/// A post that was taken raises the batches sent by one and the rows published by its
/// rows; one that was not raises the bridge errors and the rows lost. No other count
/// changes. A failure is logged where it is among the first five or a sixtieth.
pub proof fn law_posts_are_counted(counters: Counters, count: u64)
    ensures
        counters.after_post(true, count) == (Counters {
            batches_sent: counters.batches_sent.wrapping_add(1),
            rows_published: counters.rows_published.wrapping_add(count),
            ..counters
        }),
        counters.after_post(false, count) == (Counters {
            bridge_errors: counters.bridge_errors.wrapping_add(1),
            rows_lost_to_bridge: counters.rows_lost_to_bridge.wrapping_add(count),
            ..counters
        }),
        !counters.post_is_logged(true),
        counters.post_is_logged(false) <==> counters.bridge_errors.wrapping_add(1) <= 5
            || counters.bridge_errors.wrapping_add(1) % 60 == 0,
{
}

/// A post holds every row that waits, in order, and the counts as they are once the rows
/// are taken out; nothing is posted exactly where no row waits.
pub proof fn law_posts_hold_all_rows_and_the_counts<P, F>(
    request: Option<IngestRequest<P, F>>,
    batch: BatchState<P>,
    counters: Counters,
    center_hz: F,
    sample_rate_hz: F,
)
    requires
        is_publication(request, batch, counters, center_hz, sample_rate_hz),
        batch.dropped <= u64::MAX,
    ensures
        request is None <==> batch.rows.len() == 0,
        request matches Some(request) ==> {
            &&& request.rows@ == batch.rows
            &&& request.meta.source@ == "vita49"@
            &&& request.meta.center_hz == center_hz
            &&& request.meta.sample_rate_hz == sample_rate_hz
            &&& request.meta.last_sample_counter == if counters.last_counter < 0 {
                0int
            } else {
                counters.last_counter as int
            }
            &&& request.meta.gaps == counters.gaps
            &&& request.meta.missing_samples == counters.missing_samples
            &&& request.meta.packets_received == counters.packets_received
            &&& request.meta.parse_errors == counters.parse_errors
            &&& request.meta.stft_dropped == counters.stft_dropped
            &&& request.meta.publish_dropped == batch.dropped
            &&& request.meta.rcvbuf_bytes == counters.rcvbuf_bytes
        },
{
}

/// The statistics show every count under its own name, and the last counter where there
/// is one.
pub proof fn law_statistics_show_every_count<F>(
    snapshot: StatsSnapshot<F>,
    counters: Counters,
    center_hz: F,
    sample_rate_hz: F,
    uptime_secs: u64,
    packets_per_sec: F,
)
    requires
        snapshot.shows(counters),
        snapshot.is_labelled(center_hz, sample_rate_hz, uptime_secs, packets_per_sec),
    ensures
        snapshot.source@ == "vita49"@,
        snapshot.center_hz == center_hz && snapshot.sample_rate_hz == sample_rate_hz,
        snapshot.uptime_secs == uptime_secs && snapshot.packets_per_sec == packets_per_sec,
        snapshot.packets_received == counters.packets_received,
        snapshot.packets_analyzed == counters.packets_analyzed,
        snapshot.samples_received == counters.samples_received,
        snapshot.parse_errors == counters.parse_errors,
        snapshot.too_short == counters.too_short,
        snapshot.wrong_type == counters.wrong_type,
        snapshot.trailerized == counters.trailerized,
        snapshot.size_field_mismatch == counters.size_field_mismatch,
        snapshot.stft_dropped == counters.stft_dropped,
        snapshot.rows_produced == counters.rows_produced,
        snapshot.rows_published == counters.rows_published,
        snapshot.batches_sent == counters.batches_sent,
        snapshot.bridge_errors == counters.bridge_errors,
        snapshot.rows_lost_to_bridge == counters.rows_lost_to_bridge,
        snapshot.publish_dropped == counters.publish_dropped,
        snapshot.gaps == counters.gaps,
        snapshot.missing_samples == counters.missing_samples,
        snapshot.out_of_order == counters.out_of_order,
        snapshot.rcvbuf_bytes == counters.rcvbuf_bytes,
        counters.last_counter < 0 <==> snapshot.last_sample_counter is None,
        snapshot.last_sample_counter matches Some(counter) ==> counter == counters.last_counter,
{
}

/// An inspection shows the datagram: its length, its first word where there is one, the
/// fields of that word, its first bytes up to 64, and its last 16 where there are more;
/// and its parse error, or its payload.
pub proof fn law_inspections_show_the_datagram(
    inspection: Inspection,
    datagram: Seq<u8>,
    sample_rate: u64,
)
    requires
        is_inspection_of(inspection, datagram, sample_rate),
    ensures
        inspection.len == datagram.len(),
        datagram.len() >= 4 ==> inspection.header_word == datagram[0] * 0x100_0000 + datagram[1]
            * 0x1_0000 + datagram[2] * 0x100 + datagram[3],
        datagram.len() < 4 ==> inspection.header_word == 0,
        inspection.header == header_of(inspection.header_word),
        inspection.first@.len() == if datagram.len() < 64 {
            datagram.len()
        } else {
            64
        },
        forall|i: int| 0 <= i < inspection.first@.len() ==> #[trigger] inspection.first@[i]
            == datagram[i],
        inspection.last@.len() == if datagram.len() > 64 {
            16nat
        } else {
            0
        },
        forall|i: int|
            0 <= i < inspection.last@.len() ==> #[trigger] inspection.last@[i]
                == datagram[datagram.len() - 16 + i],
        parsed(datagram) matches Err(error) ==> inspection.payload == Err::<
            PayloadReport,
            ParseError,
        >(error),
        parsed(datagram) matches Ok(packet) ==> inspection.payload is Ok,
{
}

/// The payload of an inspection is that of the packet: its fields, the number of its
/// components, how many values occur among them, how many of them are not zero, and
/// that it is degenerate exactly where all its components are the same.
pub proof fn law_inspections_count_the_payload(
    inspection: Inspection,
    datagram: Seq<u8>,
    sample_rate: u64,
)
    requires
        is_inspection_of(inspection, datagram, sample_rate),
        parsed(datagram) is Ok,
        datagram.len() <= usize::MAX,
    ensures
        ({
            let packet = parsed(datagram)->Ok_0;
            let report = inspection.payload->Ok_0;
            let components = packet.as_i16();
            &&& report.stream_id == packet.stream_id
            &&& report.ts_int == packet.ts_int
            &&& report.ts_frac == packet.ts_frac
            &&& report.complex_samples == packet.payload.len() / 4
            &&& report.sample_counter == packet.counter(sample_rate)
            &&& report.trailing_bytes == packet.trailing_bytes
            &&& report.size_field_matches == packet.size_field_matches
            &&& report.components == packet.payload.len() / 2
            &&& report.distinct == components.to_set().len()
            &&& report.nonzero == components.filter(|c: i16| c != 0).len()
            &&& report.degenerate <==> forall|i: int, j: int|
                0 <= i < components.len() && 0 <= j < components.len() ==> #[trigger] components[i]
                    == #[trigger] components[j]
        }),
{
    let packet = parsed(datagram)->Ok_0;
    let components = packet.as_i16();
    law_every_byte_is_accounted_for(datagram);
    lemma_nonzero_are_filtered(components);
    components.lemma_cardinality_of_set();
    let values = components.to_set();
    assert(values.finite());
    if values.len() <= 1 {
        assert forall|i: int, j: int|
            0 <= i < components.len() && 0 <= j < components.len() implies #[trigger] components[i]
            == #[trigger] components[j] by {
            assert(values.contains(components[i]) && values.contains(components[j]));
            if components[i] != components[j] {
                assert(values.remove(components[i]).contains(components[j]));
                assert(values.remove(components[i]).len() == 0);
            }
        }
    } else {
        let first = components[0];
        assert(components.len() > 0) by {
            if components.len() == 0 {
                assert(values =~= Set::empty());
            }
        }
        assert(values.contains(first));
        let others = values.remove(first);
        assert(others.len() >= 1);
        let other = others.choose();
        assert(others.contains(other)) by {
            if !(exists|v: i16| others.contains(v)) {
                assert(others =~= Set::empty());
            }
        }
        assert(values.contains(other));
        let j = choose|j: int| 0 <= j < components.len() && components[j] == other;
        assert(components[0] != components[j]);
    }
}

proof fn lemma_nonzero_are_filtered(components: Seq<i16>)
    ensures
        nonzero_in(components) == components.filter(|c: i16| c != 0).len(),
        nonzero_in(components) <= components.len(),
    decreases components.len(),
{
    reveal(Seq::filter);
    if components.len() > 0 {
        lemma_nonzero_are_filtered(components.drop_last());
    }
}

/// Every setting comes from its own place: the two addresses from the environment where
/// it is set, else from their flags, else they are the defaults; the others from their
/// flags, else they are the defaults.
pub proof fn law_settings_come_from_their_places<F: FromStr>(
    config: Config<F>,
    args: Seq<Seq<char>>,
    listen: Option<Seq<char>>,
    bridge_url: Option<Seq<char>>,
    rates: DefaultRates<F>,
)
    requires
        is_config_of(config, args, listen, bridge_url, rates),
    ensures
        config.listen@ == match (listen, flag_text(args, "--listen"@)) {
            (Some(text), _) => text,
            (None, Some(text)) => text,
            (None, None) => "0.0.0.0:4820"@,
        },
        config.bridge_url@ == match (bridge_url, flag_text(args, "--bridge-url"@)) {
            (Some(text), _) => text,
            (None, Some(text)) => text,
            (None, None) => "http://waterfall-ui.default.svc.cluster.local:4780"@,
        },
        config.stats_listen@ == match flag_text(args, "--stats-listen"@) {
            Some(text) => text,
            None => "0.0.0.0:4830"@,
        },
        is_reading(flag_text(args, "--sample-rate"@), rates.sample_rate, config.sample_rate),
        is_reading(flag_text(args, "--center-freq"@), rates.center_hz, config.center_hz),
        is_reading(flag_text(args, "--publish-hz"@), rates.publish_hz, config.publish_hz),
        config.rcvbuf == match flag_text(args, "--rcvbuf"@) {
            Some(text) => match decimal_value(text) {
                Some(number) if number <= usize::MAX => number,
                _ => 8_388_608,
            },
            None => 8_388_608,
        },
        config.hexdump_first == match flag_text(args, "--hexdump-first"@) {
            Some(text) => match decimal_value(text) {
                Some(number) if number <= u64::MAX => number,
                _ => 0,
            },
            None => 0,
        },
        opt_text(config.capture_fixture) == flag_text(args, "--capture-fixture"@),
{
}

/// Every flag that a setting comes from is known, and no other.
pub proof fn law_the_flags_of_the_settings_are_known()
    ensures
        known_flag_texts().to_set() == set![
            "--listen"@,
            "--bridge-url"@,
            "--sample-rate"@,
            "--center-freq"@,
            "--publish-hz"@,
            "--stats-listen"@,
            "--rcvbuf"@,
            "--hexdump-first"@,
            "--capture-fixture"@,
        ],
{
    let flags = known_flag_texts();
    assert(flags[0] == "--listen"@ && flags[1] == "--bridge-url"@ && flags[2] == "--sample-rate"@
        && flags[3] == "--center-freq"@ && flags[4] == "--publish-hz"@ && flags[5]
        == "--stats-listen"@ && flags[6] == "--rcvbuf"@ && flags[7] == "--hexdump-first"@
        && flags[8] == "--capture-fixture"@);
    assert(flags.to_set() =~= set![
        "--listen"@,
        "--bridge-url"@,
        "--sample-rate"@,
        "--center-freq"@,
        "--publish-hz"@,
        "--stats-listen"@,
        "--rcvbuf"@,
        "--hexdump-first"@,
        "--capture-fixture"@,
    ]);
}

/// The receive loop goes on unless the worker is gone: a full queue does not end it.
pub proof fn law_only_a_closed_queue_ends_the_loop(handoff: Handoff)
    ensures
        Handoff::Queued.goes_on(),
        Handoff::Full.goes_on(),
        handoff.goes_on() <==> handoff != Handoff::Closed,
{
}

} // verus!
