//! The datagram to rows pipeline.
//!
//! Binding sockets, threading, pacing and HTTP stay outside; everything that
//! decides what a datagram means is here.
use crate::stft::{
    accepts, decoded, is_function, law_feeding_completes_every_window, law_room_is_room_for_the_position,
    law_rows_come_from_their_windows, law_samples_are_pairs_of_components,
    law_windows_determine_rows, paired, rows_of, same_rows, Frame, Iq,
    Row, StftProcessor, StftState, FFT_SIZE, HOP_SIZE,
};
use crate::vita49::{
    law_components_survive_the_wire, law_every_byte_is_accounted_for, parse_datagram, parsed, Packet,
    PacketView, ParseError,
};
use vstd::prelude::*;

verus! {

/// What one datagram produced.
#[derive(Debug)]
pub struct Outcome<P> {
    /// Frames completed by this datagram (0..n, in time order).
    pub rows: Vec<Row<P>>,
    /// Why the datagram was unusable, if it was.
    pub parse_error: Option<ParseError>,
    /// Complex samples carried (0 when malformed).
    pub complex_samples: usize,
    /// Unwrapped sample counter (0 when malformed).
    pub sample_counter: u64,
    /// Whether the header size field agreed with the delivered length.
    pub size_field_matches: bool,
}

impl<P> Outcome<P> {
    /// The outcome of a datagram that could not be used.
    pub open spec fn reports(self, error: ParseError) -> bool {
        &&& self.rows@.len() == 0
        &&& self.parse_error == Some(error)
        &&& self.complex_samples == 0
        &&& self.sample_counter == 0
        &&& !self.size_field_matches
    }

    /// Everything but the rows of the outcome of a usable packet.
    pub open spec fn describes(self, packet: PacketView, sample_rate: u64) -> bool {
        &&& self.parse_error is None
        &&& self.complex_samples == packet.payload.len() / 4
        &&& self.sample_counter == packet.counter(sample_rate)
        &&& self.size_field_matches == packet.size_field_matches
    }

    fn malformed(error: ParseError) -> (outcome: Self)
        ensures
            outcome.reports(error),
    {
        Outcome {
            rows: Vec::new(),
            parse_error: Some(error),
            complex_samples: 0,
            sample_counter: 0,
            size_field_matches: false,
        }
    }
}

/// The resolution at which payload samples reach the transform.
#[derive(Debug, Clone, Copy, PartialEq, Eq, Structural)]
pub enum Resolution {
    /// The upper 8 bits of every component.
    Upper8,
    /// All 16 bits of every component.
    Full16,
}

impl Resolution {
    /// The samples of a packet at this resolution.
    pub open spec fn samples(self, packet: PacketView) -> Seq<Iq> {
        match self {
            Resolution::Upper8 => decoded(packet.as_i8()),
            Resolution::Full16 => paired(packet.as_i16()),
        }
    }
}

/// Model of a [`PacketProcessor`].
pub struct PipelineState {
    pub stft: StftState,
    pub sample_rate: u64,
    pub malformed: int,
}

impl PipelineState {
    pub open spec fn wf(self) -> bool {
        self.stft.wf()
    }

    /// The state after a datagram. One that does not parse is counted and leaves
    /// the stream as it was.
    pub open spec fn observed(self, datagram: Seq<u8>, resolution: Resolution) -> PipelineState {
        match parsed(datagram) {
            Ok(packet) => PipelineState { stft: self.stft.fed(resolution.samples(packet)), ..self },
            Err(_) => PipelineState { malformed: self.malformed + 1, ..self },
        }
    }

    /// The windows that a datagram completes.
    pub open spec fn completed(self, datagram: Seq<u8>, resolution: Resolution) -> Seq<Frame> {
        match parsed(datagram) {
            Ok(packet) => self.stft.completed(resolution.samples(packet)),
            Err(_) => Seq::empty(),
        }
    }

    /// The counts that a datagram changes still fit their fields.
    pub open spec fn can_observe(self, datagram: Seq<u8>) -> bool {
        match parsed(datagram) {
            Ok(packet) => self.stft.has_room(packet.payload.len() / 4),
            Err(_) => self.malformed < u64::MAX,
        }
    }
}

/// `outcome` is what a datagram produces in a state: the report of its error, or what
/// the packet says and the rows of the windows it completes.
pub open spec fn is_outcome_of<P, F: Fn(&[Iq]) -> Vec<P>>(
    outcome: Outcome<P>,
    backend: F,
    state: PipelineState,
    datagram: Seq<u8>,
    resolution: Resolution,
) -> bool {
    match parsed(datagram) {
        Ok(packet) => outcome.describes(packet, state.sample_rate) && rows_of(
            backend,
            state.completed(datagram, resolution),
            outcome.rows@,
        ),
        Err(error) => outcome.reports(error),
    }
}

/// Stateful packets to rows pipeline.
///
/// Holds the overlap buffer of the transform; driven from a single analysis thread,
/// which is what keeps the transform off the socket.
///
/// Gap tracking is deliberately not here. This processor only sees the datagrams
/// that survived the analysis queue, so counting discontinuities here would report
/// the consumer's own deliberate drops as RF loss, a misdiagnosis that makes a
/// healthy link look lossy. Loss is tracked where every datagram is observed: the
/// receive loop.
pub struct PacketProcessor<F> {
    processor: StftProcessor<F>,
    sample_rate: u64,
    malformed: u64,
}

impl<F> View for PacketProcessor<F> {
    type V = PipelineState;

    closed spec fn view(&self) -> PipelineState {
        PipelineState {
            stft: self.processor@,
            sample_rate: self.sample_rate,
            malformed: self.malformed as int,
        }
    }
}

impl<F> PacketProcessor<F> {
    /// The transform applied to every window.
    pub closed spec fn transform(self) -> F {
        self.processor.transform()
    }

    /// `sample_rate` is needed to unwrap the timestamp pair into a sample counter.
    pub fn new(sample_rate: u64, backend: F) -> (processor: Self)
        ensures
            processor@ == (PipelineState {
                stft: StftState {
                    fft_size: FFT_SIZE as nat,
                    hop: HOP_SIZE as nat,
                    pending: Seq::empty(),
                    next_sample: 0,
                },
                sample_rate,
                malformed: 0,
            }),
            processor@.wf(),
            processor.transform() == backend,
    {
        PacketProcessor {
            processor: StftProcessor::new(FFT_SIZE, HOP_SIZE, backend),
            sample_rate,
            malformed: 0,
        }
    }

    /// Parses one datagram, converts it to 8-bit samples and advances the transform.
    pub fn observe<P>(&mut self, datagram: &[u8]) -> (outcome: Outcome<P>) where
        F: Fn(&[Iq]) -> Vec<P>,

        requires
            old(self)@.wf(),
            old(self)@.can_observe(datagram@),
            accepts(old(self).transform(), old(self)@.stft.fft_size),
        ensures
            final(self)@ == old(self)@.observed(datagram@, Resolution::Upper8),
            final(self)@.wf(),
            final(self).transform() == old(self).transform(),
            is_outcome_of(
                outcome,
                old(self).transform(),
                old(self)@,
                datagram@,
                Resolution::Upper8,
            ),
    {
        let packet: Packet<'_> = match parse_datagram(datagram) {
            Ok(packet) => packet,
            Err(error) => {
                self.malformed += 1;
                return Outcome::malformed(error);
            },
        };
        let iq: Vec<i8> = packet.to_i8();
        let rows: Vec<Row<P>> = self.processor.push_bytes(iq.as_slice());
        Outcome {
            rows,
            parse_error: None,
            complex_samples: packet.complex_samples(),
            sample_counter: packet.sample_counter(self.sample_rate),
            size_field_matches: packet.size_field_matches,
        }
    }

    /// Parses one datagram and advances the transform at the full 16-bit resolution
    /// of the payload.
    pub fn observe_sc16<P>(&mut self, datagram: &[u8]) -> (outcome: Outcome<P>) where
        F: Fn(&[Iq]) -> Vec<P>,

        requires
            old(self)@.wf(),
            old(self)@.can_observe(datagram@),
            accepts(old(self).transform(), old(self)@.stft.fft_size),
        ensures
            final(self)@ == old(self)@.observed(datagram@, Resolution::Full16),
            final(self)@.wf(),
            final(self).transform() == old(self).transform(),
            is_outcome_of(
                outcome,
                old(self).transform(),
                old(self)@,
                datagram@,
                Resolution::Full16,
            ),
    {
        let packet: Packet<'_> = match parse_datagram(datagram) {
            Ok(packet) => packet,
            Err(error) => {
                self.malformed += 1;
                return Outcome::malformed(error);
            },
        };
        let iq: Vec<i16> = packet.to_i16();
        let rows: Vec<Row<P>> = self.processor.push_sc16(iq.as_slice());
        Outcome {
            rows,
            parse_error: None,
            complex_samples: packet.complex_samples(),
            sample_counter: packet.sample_counter(self.sample_rate),
            size_field_matches: packet.size_field_matches,
        }
    }

    /// Whether the counts have room for observing a datagram.
    pub fn has_room_for(&self, datagram: &[u8]) -> (room: bool)
        requires
            self@.wf(),
        ensures
            room == self@.can_observe(datagram@),
    {
        match parse_datagram(datagram) {
            Ok(packet) => self.processor.can_push(packet.complex_samples()),
            Err(_) => self.malformed < u64::MAX,
        }
    }

    /// Datagrams rejected as malformed.
    pub fn malformed(&self) -> (count: u64)
        ensures
            count == self@.malformed,
    {
        self.malformed
    }

    /// Samples consumed by the transform so far.
    pub fn samples_consumed(&self) -> (count: u64)
        ensures
            count == self@.stft.next_sample,
    {
        self.processor.samples_consumed()
    }
}

// ---------------- Laws ----------------

/// The state after datagrams one after the other.
pub open spec fn observed_all(
    state: PipelineState,
    datagrams: Seq<Seq<u8>>,
    resolution: Resolution,
) -> PipelineState
    decreases datagrams.len(),
{
    if datagrams.len() == 0 {
        state
    } else {
        observed_all(state, datagrams.drop_last(), resolution).observed(
            datagrams.last(),
            resolution,
        )
    }
}

/// The windows that datagrams complete, one datagram after the other.
pub open spec fn completed_by_all(
    state: PipelineState,
    datagrams: Seq<Seq<u8>>,
    resolution: Resolution,
) -> Seq<Frame>
    decreases datagrams.len(),
{
    if datagrams.len() == 0 {
        Seq::empty()
    } else {
        completed_by_all(state, datagrams.drop_last(), resolution) + observed_all(
            state,
            datagrams.drop_last(),
            resolution,
        ).completed(datagrams.last(), resolution)
    }
}

/// The samples of the datagrams that parse, in order.
pub open spec fn usable_samples(datagrams: Seq<Seq<u8>>, resolution: Resolution) -> Seq<Iq>
    decreases datagrams.len(),
{
    if datagrams.len() == 0 {
        Seq::empty()
    } else {
        usable_samples(datagrams.drop_last(), resolution) + (match parsed(datagrams.last()) {
            Ok(packet) => resolution.samples(packet),
            Err(_) => Seq::empty(),
        })
    }
}

/// How many datagrams do not parse.
pub open spec fn unusable(datagrams: Seq<Seq<u8>>) -> int
    decreases datagrams.len(),
{
    if datagrams.len() == 0 {
        0
    } else {
        unusable(datagrams.drop_last()) + if parsed(datagrams.last()) is Err {
            1int
        } else {
            0
        }
    }
}

/// Rows and overlap depend on the samples of the usable datagrams alone: however
/// the stream is cut into packets, and whatever unusable datagrams stand between
/// them, the windows are those of one uninterrupted stream, and every unusable
/// datagram is counted.
pub proof fn law_malformed_datagrams_do_not_disturb_the_stream(
    state: PipelineState,
    datagrams: Seq<Seq<u8>>,
    resolution: Resolution,
)
    requires
        state.wf(),
    ensures
        ({
            let after = observed_all(state, datagrams, resolution);
            let samples = usable_samples(datagrams, resolution);
            &&& after.wf()
            &&& after.stft == state.stft.fed(samples)
            &&& completed_by_all(state, datagrams, resolution) == state.stft.completed(samples)
            &&& after.malformed == state.malformed + unusable(datagrams)
            &&& after.sample_rate == state.sample_rate
        }),
    decreases datagrams.len(),
{
    if datagrams.len() == 0 {
        state.stft.law_feeding_nothing_changes_nothing();
    } else {
        let front = datagrams.drop_last();
        let before = usable_samples(front, resolution);
        law_malformed_datagrams_do_not_disturb_the_stream(state, front, resolution);
        state.stft.law_feeding_keeps_wf(before);
        match parsed(datagrams.last()) {
            Ok(packet) => {
                let more = resolution.samples(packet);
                state.stft.law_feeding_twice_is_feeding_once(before, more);
                state.stft.fed(before).law_feeding_keeps_wf(more);
            },
            Err(_) => {
                assert(before + Seq::<Iq>::empty() =~= before);
                assert(state.stft.completed(before) + Seq::<Frame>::empty()
                    =~= state.stft.completed(before));
            },
        }
    }
}

/// Two outcomes say the same.
pub open spec fn same_outcome<P>(a: Outcome<P>, b: Outcome<P>) -> bool {
    &&& same_rows(a.rows@, b.rows@)
    &&& a.parse_error == b.parse_error
    &&& a.complex_samples == b.complex_samples
    &&& a.sample_counter == b.sample_counter
    &&& a.size_field_matches == b.size_field_matches
}

/// A malformed datagram leaves later outcomes as they were: of two pipelines alike, one
/// of which has seen it, the next datagram produces the same in both, with the same
/// rows, and they have consumed the same samples; only the count of malformed
/// datagrams differs, by one.
pub proof fn law_a_malformed_datagram_leaves_later_outcomes_alone<P, F: Fn(&[Iq]) -> Vec<P>>(
    backend: F,
    state: PipelineState,
    malformed: Seq<u8>,
    datagram: Seq<u8>,
    resolution: Resolution,
    disturbed: Outcome<P>,
    undisturbed: Outcome<P>,
)
    requires
        is_function(backend),
        parsed(malformed) is Err,
        is_outcome_of(
            disturbed,
            backend,
            state.observed(malformed, resolution),
            datagram,
            resolution,
        ),
        is_outcome_of(undisturbed, backend, state, datagram, resolution),
    ensures
        same_outcome(disturbed, undisturbed),
        ({
            let seen = state.observed(malformed, resolution).observed(datagram, resolution);
            let plain = state.observed(datagram, resolution);
            &&& seen.stft == plain.stft
            &&& seen.malformed == plain.malformed + 1
        }),
{
    if parsed(datagram) is Ok {
        law_windows_determine_rows(
            backend,
            state.completed(datagram, resolution),
            disturbed.rows@,
            undisturbed.rows@,
        );
    }
}

/// In the steady state a packet of twice the hop gives two rows: once a whole
/// window has been seen, every `2 * HOP_SIZE` samples complete two windows.
pub proof fn law_full_packets_give_two_rows_in_steady_state(state: StftState, samples: Seq<Iq>)
    requires
        state.wf(),
        state.fft_size == FFT_SIZE,
        state.hop == HOP_SIZE,
        state.pending.len() >= FFT_SIZE - HOP_SIZE,
        samples.len() == 2 * HOP_SIZE,
    ensures
        state.completed(samples).len() == 2,
        state.fed(samples).pending.len() == state.pending.len(),
{
}

// ---------------- What the operations mean ----------------

/// Samples survive the wire: where a payload carries two 16-bit numbers as the
/// components of a sample, most significant byte first, that sample has exactly these
/// components at full resolution, and each divided by 256 and rounded down at 8 bits.
/// There is one sample per four bytes of payload.
pub proof fn law_samples_survive_the_wire(packet: PacketView, j: int, re: i16, im: i16)
    requires
        packet.payload.len() % 4 == 0,
        0 <= j < packet.payload.len() / 4,
        packet.payload[4 * j] == (re as int % 0x1_0000) / 0x100,
        packet.payload[4 * j + 1] == re as int % 0x100,
        packet.payload[4 * j + 2] == (im as int % 0x1_0000) / 0x100,
        packet.payload[4 * j + 3] == im as int % 0x100,
    ensures
        ({
            let full = Resolution::Full16.samples(packet);
            let upper = Resolution::Upper8.samples(packet);
            &&& full.len() == packet.payload.len() / 4
            &&& upper.len() == packet.payload.len() / 4
            &&& full[j].re == re && full[j].im == im
            &&& upper[j].re * 256 <= re < upper[j].re * 256 + 256
            &&& upper[j].im * 256 <= im < upper[j].im * 256 + 256
        }),
{
    law_components_survive_the_wire(packet, 2 * j, re);
    law_components_survive_the_wire(packet, 2 * j + 1, im);
    law_samples_are_pairs_of_components(packet.as_i8(), packet.as_i16(), j);
}

/// A datagram that does not parse is counted as malformed and changes nothing else; any
/// other feeds its samples, all of them, and is not counted.
pub proof fn law_every_usable_datagram_is_fed(
    state: PipelineState,
    datagram: Seq<u8>,
    resolution: Resolution,
)
    ensures
        ({
            let after = state.observed(datagram, resolution);
            &&& after.sample_rate == state.sample_rate
            &&& match parsed(datagram) {
                Ok(packet) => {
                    &&& after.malformed == state.malformed
                    &&& after.stft == state.stft.fed(resolution.samples(packet))
                    &&& state.completed(datagram, resolution) == state.stft.completed(
                        resolution.samples(packet),
                    )
                },
                Err(_) => {
                    &&& after.malformed == state.malformed + 1
                    &&& after.stft == state.stft
                    &&& state.completed(datagram, resolution).len() == 0
                },
            }
        }),
{
}

/// What is said of a datagram is what it holds: its error and nothing else, or its
/// complex samples, its counter, whether its size field agrees, and a row per window
/// that it completes, numbered from the position on in steps of the hop, each from a
/// call of the transform on that window.
pub proof fn law_outcomes_say_what_the_datagram_holds<P, F: Fn(&[Iq]) -> Vec<P>>(
    outcome: Outcome<P>,
    backend: F,
    state: PipelineState,
    datagram: Seq<u8>,
    resolution: Resolution,
    k: int,
)
    requires
        state.wf(),
        is_outcome_of(outcome, backend, state, datagram, resolution),
    ensures
        parsed(datagram) matches Err(error) ==> {
            &&& outcome.parse_error == Some(error)
            &&& outcome.rows@.len() == 0
            &&& outcome.complex_samples == 0
            &&& outcome.sample_counter == 0
            &&& !outcome.size_field_matches
        },
        parsed(datagram) matches Ok(packet) ==> {
            let done = state.stft.completed(resolution.samples(packet));
            &&& outcome.parse_error is None
            &&& outcome.complex_samples == packet.payload.len() / 4
            &&& outcome.sample_counter == packet.counter(state.sample_rate)
            &&& outcome.size_field_matches == packet.size_field_matches
            &&& outcome.rows@.len() == done.len()
            &&& 0 <= k < done.len() ==> outcome.rows@[k].sample == state.stft.next_sample + k
                * state.stft.hop
        },
        (parsed(datagram) matches Ok(packet) && 0 <= k < outcome.rows@.len()) ==> exists|w: &[Iq]|
            w@ == state.stft.completed(resolution.samples(parsed(datagram)->Ok_0))[k].window
                && #[trigger] call_ensures(backend, (w,), outcome.rows@[k].bins),
{
    if let Ok(packet) = parsed(datagram) {
        let samples = resolution.samples(packet);
        law_feeding_completes_every_window(state.stft, samples);
        law_rows_come_from_their_windows(
            backend,
            state.stft.completed(samples),
            outcome.rows@,
            k,
        );
    }
}

/// A datagram can be observed exactly where the position behind its windows, or the
/// count of malformed ones, still fits 64 bits.
pub proof fn law_observing_needs_only_room(
    state: PipelineState,
    datagram: Seq<u8>,
    resolution: Resolution,
)
    requires
        state.wf(),
        0 <= state.malformed <= 0xFFFF_FFFF_FFFF_FFFF,
    ensures
        parsed(datagram) is Err ==> (state.can_observe(datagram) <==> state.malformed + 1
            <= 0xFFFF_FFFF_FFFF_FFFF),
        parsed(datagram) is Ok ==> (state.can_observe(datagram) <==> state.observed(
            datagram,
            resolution,
        ).stft.next_sample <= 0xFFFF_FFFF_FFFF_FFFF),
{
    match parsed(datagram) {
        Ok(packet) => {
            let samples = resolution.samples(packet);
            law_every_byte_is_accounted_for(datagram);
            law_samples_are_pairs_of_components(packet.as_i8(), packet.as_i16(), 0);
            assert(samples.len() == packet.payload.len() / 4);
            law_room_is_room_for_the_position(state.stft, samples);
            law_feeding_completes_every_window(state.stft, samples);
        },
        Err(_) => {},
    }
}

} // verus!
