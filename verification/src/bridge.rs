//! The state of the web tier: what fed the history of rows, how fresh it is, and
//! what the front end is told of it.
//!
//! The deployed bridge takes rows from the consumer alone, and there is
//! deliberately no synthetic fallback: if the feed stops, it reports stale and the
//! rows stop, because fabricated rows look exactly like real signal on a waterfall.
use crate::cli::{
    chosen_text, flag_text, is_reading, number_or, number_setting, parse_or, text_setting,
};
use crate::publish::{
    law_newest_are_the_last, lemma_newest_of_newest, newest, IngestMeta, IngestRequest, RowDto,
};
use crate::stft::Row;
use crate::text::{decimal_value, opt_text, same_text, str_texts, texts};
use std::collections::VecDeque;
use std::str::FromStr;
use vstd::prelude::*;
use vstd::seq_lib::lemma_multiset_commutative;
use vstd::string::*;

verus! {

/// Most rows retained for `/chunks` (about 8 MB at 4096 bins per row).
pub const MAX_CHUNKS: usize = 512;

/// Rows served by `/chunks` where the request does not say how many.
pub const DEFAULT_CHUNKS: usize = 128;

/// A feed with no row for this many milliseconds is reported as stale.
pub const STALE_AFTER_MS: u128 = 3_000;

// ---------------- Rows ----------------

/// One spectrogram row served to the front end.
#[derive(Debug)]
pub struct SweepEntry<P> {
    /// Always `"sweep"`.
    pub kind: &'static str,
    pub bins: usize,
    pub samples: u64,
    pub intensity: Vec<P>,
}

/// Model of a [`SweepEntry`].
pub struct SweepView<P> {
    pub kind: Seq<char>,
    pub bins: nat,
    pub samples: u64,
    pub intensity: Seq<P>,
}

impl<P> View for SweepEntry<P> {
    type V = SweepView<P>;

    open spec fn view(&self) -> SweepView<P> {
        SweepView {
            kind: self.kind@,
            bins: self.bins as nat,
            samples: self.samples,
            intensity: self.intensity@,
        }
    }
}

/// What the front end is served of a row.
pub open spec fn sweep_of<P>(sample: u64, bins: Seq<P>) -> SweepView<P> {
    SweepView { kind: "sweep"@, bins: bins.len(), samples: sample, intensity: bins }
}

/// What the front end is served of a batch of rows, in order.
pub open spec fn sweeps_of<P>(rows: Seq<RowDto<P>>) -> Seq<SweepView<P>> {
    rows.map_values(|row: RowDto<P>| sweep_of(row.sample, row.bins@))
}

/// The contents of a list of entries.
pub open spec fn sweep_views<P>(entries: Seq<SweepEntry<P>>) -> Seq<SweepView<P>> {
    entries.map_values(|entry: SweepEntry<P>| entry@)
}

impl<P> SweepEntry<P> {
    pub fn from_row(row: Row<P>) -> (entry: SweepEntry<P>)
        ensures
            entry@ == sweep_of(row.sample, row.bins@),
    {
        SweepEntry { kind: "sweep", bins: row.bins.len(), samples: row.sample, intensity: row.bins }
    }
}

impl<P: Copy> SweepEntry<P> {
    /// The same entry once more, for another reader.
    pub fn copied(&self) -> (entry: SweepEntry<P>)
        ensures
            entry@ == self@,
    {
        let mut intensity: Vec<P> = Vec::with_capacity(self.intensity.len());
        let mut k: usize = 0;
        while k < self.intensity.len()
            invariant
                k <= self.intensity@.len(),
                intensity@ == self.intensity@.take(k as int),
            decreases self.intensity@.len() - k,
        {
            intensity.push(self.intensity[k]);
            k += 1;
            assert(intensity@ =~= self.intensity@.take(k as int));
        }
        assert(intensity@ =~= self.intensity@);
        SweepEntry { kind: self.kind, bins: self.bins, samples: self.samples, intensity }
    }
}

// ---------------- State ----------------

/// The producer that a bridge is started with.
#[derive(Debug, Clone, Copy, PartialEq, Eq, Structural)]
pub enum Source {
    /// A generated signal, for development without a radio.
    Synthetic,
    /// Rows posted by the consumer.
    Ingest,
}

impl Source {
    /// The producer that a setting names: `ingest` and `vita49` are the consumer,
    /// everything else the generated signal.
    pub open spec fn named(text: Seq<char>) -> Source {
        if text == "ingest"@ || text == "vita49"@ {
            Source::Ingest
        } else {
            Source::Synthetic
        }
    }

    /// The name shown for a producer.
    pub open spec fn shown(self) -> Seq<char> {
        match self {
            Source::Synthetic => "synthetic"@,
            Source::Ingest => "ingest"@,
        }
    }

    pub fn from_name(text: &str) -> (source: Source)
        ensures
            source == Source::named(text@),
    {
        if same_text(text, "ingest") || same_text(text, "vita49") {
            Source::Ingest
        } else {
            Source::Synthetic
        }
    }

    /// Whether rows are generated here. With the consumer as producer there is no
    /// fallback to generated rows.
    pub fn generates(&self) -> (generates: bool)
        ensures
            generates == (*self == Source::Synthetic),
    {
        match self {
            Source::Synthetic => true,
            Source::Ingest => false,
        }
    }

    pub fn name(&self) -> (name: &'static str)
        ensures
            name@ == self.shown(),
    {
        match self {
            Source::Synthetic => "synthetic",
            Source::Ingest => "ingest",
        }
    }
}

/// Producer state: what fed the ring, and how fresh it is. `F` is a frequency in
/// Hz; moments are nanoseconds on the system clock.
#[derive(Debug)]
pub struct ProducerMeta<F> {
    /// Which producer last delivered a row: "synthetic" or "vita49".
    pub source: String,
    pub center_hz: F,
    pub sample_rate_hz: F,
    pub last_row_at: Option<u128>,
    pub rows_ingested: u64,
    pub batches_ingested: u64,
    pub bins: usize,
    /// Latest loss and health report from the consumer.
    pub consumer: Option<IngestMeta<F>>,
}

/// The bounded history of rows and the producer state.
#[derive(Debug)]
pub struct Bridge<P, F> {
    ring: VecDeque<SweepEntry<P>>,
    producer: ProducerMeta<F>,
    configured: Source,
}

/// Model of a [`Bridge`]: the rows held, oldest first.
pub struct BridgeState<P, F> {
    pub ring: Seq<SweepView<P>>,
    pub source: Seq<char>,
    pub center_hz: F,
    pub sample_rate_hz: F,
    pub last_row_at: Option<u128>,
    pub rows_ingested: nat,
    pub batches_ingested: nat,
    pub bins: nat,
    pub consumer: Option<IngestMeta<F>>,
    pub configured: Source,
}

impl<P, F> View for Bridge<P, F> {
    type V = BridgeState<P, F>;

    closed spec fn view(&self) -> BridgeState<P, F> {
        BridgeState {
            ring: sweep_views(self.ring@),
            source: self.producer.source@,
            center_hz: self.producer.center_hz,
            sample_rate_hz: self.producer.sample_rate_hz,
            last_row_at: self.producer.last_row_at,
            rows_ingested: self.producer.rows_ingested as nat,
            batches_ingested: self.producer.batches_ingested as nat,
            bins: self.producer.bins as nat,
            consumer: self.producer.consumer,
            configured: self.configured,
        }
    }
}

/// Milliseconds since the last row, if any and if the clock did not go back.
pub open spec fn millis_since(last: Option<u128>, now: u128) -> Option<u128> {
    match last {
        Some(last) if last <= now => Some(((now - last) / 1_000_000) as u128),
        _ => None,
    }
}

impl<P, F> BridgeState<P, F> {
    /// The history is bounded.
    pub open spec fn wf(self) -> bool {
        self.ring.len() <= MAX_CHUNKS
    }

    /// The state after a batch from the consumer. Which producer last delivered a row,
    /// and when, changes only where the batch has a row.
    pub open spec fn ingested(self, rows: Seq<RowDto<P>>, meta: IngestMeta<F>, now: u128) -> Self {
        BridgeState {
            ring: newest(self.ring + sweeps_of(rows), MAX_CHUNKS as nat),
            source: if rows.len() > 0 {
                meta.source@
            } else {
                self.source
            },
            center_hz: meta.center_hz,
            sample_rate_hz: meta.sample_rate_hz,
            last_row_at: if rows.len() > 0 {
                Some(now)
            } else {
                self.last_row_at
            },
            rows_ingested: self.rows_ingested + rows.len(),
            batches_ingested: self.batches_ingested + 1,
            bins: if rows.len() > 0 {
                rows.last().bins@.len()
            } else {
                self.bins
            },
            consumer: Some(meta),
            ..self
        }
    }

    /// The state once the generated signal has begun.
    pub open spec fn synthetic(self, center_hz: F, sample_rate_hz: F) -> Self {
        BridgeState { source: "synthetic"@, center_hz, sample_rate_hz, ..self }
    }

    /// The state after a row of the generated signal.
    pub open spec fn generated(self, row: Row<P>, now: u128) -> Self {
        BridgeState {
            ring: newest(self.ring.push(sweep_of(row.sample, row.bins@)), MAX_CHUNKS as nat),
            source: "synthetic"@,
            last_row_at: Some(now),
            rows_ingested: self.rows_ingested + 1,
            bins: row.bins@.len(),
            ..self
        }
    }

    /// No row has arrived for longer than the limit, or ever.
    pub open spec fn stale(self, now: u128) -> bool {
        match millis_since(self.last_row_at, now) {
            Some(ms) => ms > STALE_AFTER_MS,
            None => true,
        }
    }
}

/// `sorted` with one more row put behind every row that does not lie after it.
pub open spec fn placed<P>(sorted: Seq<SweepView<P>>, entry: SweepView<P>) -> Seq<SweepView<P>>
    decreases sorted.len(),
{
    if sorted.len() > 0 && sorted.last().samples > entry.samples {
        placed(sorted.drop_last(), entry).push(sorted.last())
    } else {
        sorted.push(entry)
    }
}

/// Rows in ascending order of `samples`, equal ones as they came.
pub open spec fn in_order<P>(rows: Seq<SweepView<P>>) -> Seq<SweepView<P>>
    decreases rows.len(),
{
    if rows.len() == 0 {
        rows
    } else {
        placed(in_order(rows.drop_last()), rows.last())
    }
}

/// The row does not lie before `time`.
pub open spec fn not_before<P>(time: u64) -> spec_fn(SweepView<P>) -> bool {
    |entry: SweepView<P>| entry.samples >= time
}

/// The rows served from a history: those with `samples >= time`, in ascending order of
/// `samples`, equal ones as they came, and at most `size` of them.
pub open spec fn chunk_of<P>(ring: Seq<SweepView<P>>, time: u64, size: nat) -> Seq<SweepView<P>> {
    let selected = in_order(ring.filter(not_before(time)));
    if selected.len() <= size {
        selected
    } else {
        selected.take(size as int)
    }
}

/// How many rows a request asks for: 128 where it does not say, and never more than
/// the history holds.
pub open spec fn chunk_size(size: Option<usize>) -> nat {
    match size {
        Some(size) if size <= MAX_CHUNKS => size as nat,
        Some(_) => MAX_CHUNKS as nat,
        None => DEFAULT_CHUNKS as nat,
    }
}

/// The rows that a request is served: from the start where it gives no time.
pub open spec fn served<P>(
    ring: Seq<SweepView<P>>,
    time: Option<u64>,
    size: Option<usize>,
) -> Seq<SweepView<P>> {
    chunk_of(
        ring,
        match time {
            Some(time) => time,
            None => 0,
        },
        chunk_size(size),
    )
}

/// Answer to `POST /ingest`.
#[derive(Debug, Clone, Copy, PartialEq, Eq, Structural)]
pub struct IngestAck {
    pub accepted: usize,
    pub ring_len: usize,
}

/// What is known of the producer at one moment.
#[derive(Debug)]
pub struct SourceMeta<F> {
    pub source: String,
    pub center_hz: F,
    pub sample_rate_hz: F,
    pub bins: usize,
    pub stale_ms: Option<u128>,
    pub stale: bool,
    pub rows_ingested: u64,
    pub batches_ingested: u64,
    pub consumer: Option<IngestMeta<F>>,
}

/// Served by `GET /meta`: everything the front end needs to label the plot.
#[derive(Debug)]
pub struct MetaResponse<F> {
    /// Producer that last delivered rows.
    pub source: String,
    /// Producer this bridge was started with.
    pub configured_source: &'static str,
    pub center_hz: F,
    pub sample_rate_hz: F,
    /// Bins per row (0 until the first row arrives).
    pub bins: usize,
    /// Milliseconds since the last row, if any.
    pub stale_ms: Option<u128>,
    /// True when nothing has arrived for [`STALE_AFTER_MS`].
    pub stale: bool,
    pub rows_ingested: u64,
    pub batches_ingested: u64,
    pub ring_len: usize,
    pub consumer: Option<IngestMeta<F>>,
}

/// Served by `GET /stats`.
#[derive(Debug)]
pub struct StatsResponse<F> {
    pub source: String,
    pub configured_source: &'static str,
    pub rows_ingested: u64,
    pub batches_ingested: u64,
    pub ring_len: usize,
    pub ring_capacity: usize,
    pub subscribers: usize,
    pub stale: bool,
    pub consumer: Option<IngestMeta<F>>,
}

impl<P, F> BridgeState<P, F> {
    /// `meta` is what is known of the producer at a moment.
    pub open spec fn tells(self, meta: SourceMeta<F>, now: u128) -> bool {
        &&& meta.source@ == self.source
        &&& meta.center_hz == self.center_hz
        &&& meta.sample_rate_hz == self.sample_rate_hz
        &&& meta.bins == self.bins
        &&& meta.stale_ms == millis_since(self.last_row_at, now)
        &&& meta.stale == self.stale(now)
        &&& meta.rows_ingested == self.rows_ingested
        &&& meta.batches_ingested == self.batches_ingested
        &&& meta.consumer == self.consumer
    }

    /// `ack` is the answer to a batch, and `fan_out` what is sent on of it.
    pub open spec fn answers_batch(
        self,
        rows: Seq<RowDto<P>>,
        meta: IngestMeta<F>,
        now: u128,
        ack: IngestAck,
        fan_out: Seq<SweepEntry<P>>,
    ) -> bool {
        &&& ack.accepted == rows.len()
        &&& ack.ring_len == self.ingested(rows, meta, now).ring.len()
        &&& sweep_views(fan_out) == sweeps_of(rows)
    }

    /// `response` is the answer to `GET /meta` at a moment.
    pub open spec fn answers_meta(self, response: MetaResponse<F>, now: u128) -> bool {
        &&& response.source@ == self.source
        &&& response.configured_source@ == self.configured.shown()
        &&& response.center_hz == self.center_hz
        &&& response.sample_rate_hz == self.sample_rate_hz
        &&& response.bins == self.bins
        &&& response.stale_ms == millis_since(self.last_row_at, now)
        &&& response.stale == self.stale(now)
        &&& response.rows_ingested == self.rows_ingested
        &&& response.batches_ingested == self.batches_ingested
        &&& response.ring_len == self.ring.len()
        &&& response.consumer == self.consumer
    }

    /// `response` is the answer to `GET /stats` at a moment.
    pub open spec fn answers_stats(
        self,
        response: StatsResponse<F>,
        subscribers: usize,
        now: u128,
    ) -> bool {
        &&& response.source@ == self.source
        &&& response.configured_source@ == self.configured.shown()
        &&& response.rows_ingested == self.rows_ingested
        &&& response.batches_ingested == self.batches_ingested
        &&& response.ring_len == self.ring.len()
        &&& response.ring_capacity == MAX_CHUNKS
        &&& response.subscribers == subscribers
        &&& response.stale == self.stale(now)
        &&& response.consumer == self.consumer
    }
}

impl<P, F> Bridge<P, F> {
    /// Adds a row to the history and lets the oldest go where it is full.
    fn remember(&mut self, entry: SweepEntry<P>)
        requires
            old(self)@.wf(),
        ensures
            final(self)@ == (BridgeState {
                ring: newest(old(self)@.ring.push(entry@), MAX_CHUNKS as nat),
                ..old(self)@
            }),
            final(self)@.wf(),
    {
        let ghost grown = self@.ring.push(entry@);
        self.ring.push_back(entry);
        assert(sweep_views(self.ring@) =~= grown);
        if self.ring.len() > MAX_CHUNKS {
            let _ = self.ring.pop_front();
            assert(sweep_views(self.ring@) =~= grown.skip(1));
        }
    }

    /// Whether the counts have room for a batch of `rows` rows.
    pub fn can_ingest(&self, rows: usize) -> (room: bool)
        ensures
            room == (self@.rows_ingested + rows <= u64::MAX && self@.batches_ingested < u64::MAX),
    {
        self.producer.rows_ingested as u128 + rows as u128 <= u64::MAX as u128
            && self.producer.batches_ingested < u64::MAX
    }
}

impl<P: Copy, F: Copy> Bridge<P, F> {
    /// A bridge that was fed nothing yet. `zero` is the frequency shown until a
    /// producer reports one.
    pub fn new(configured: Source, zero: F) -> (bridge: Self)
        ensures
            bridge@ == (BridgeState {
                ring: Seq::<SweepView<P>>::empty(),
                source: Seq::empty(),
                center_hz: zero,
                sample_rate_hz: zero,
                last_row_at: None,
                rows_ingested: 0,
                batches_ingested: 0,
                bins: 0,
                consumer: None,
                configured,
            }),
            bridge@.wf(),
    {
        proof {
            reveal_strlit("");
        }
        let bridge = Bridge {
            ring: VecDeque::new(),
            producer: ProducerMeta {
                source: "".to_owned(),
                center_hz: zero,
                sample_rate_hz: zero,
                last_row_at: None,
                rows_ingested: 0,
                batches_ingested: 0,
                bins: 0,
                consumer: None,
            },
            configured,
        };
        assert(bridge@.ring =~= Seq::empty());
        assert(bridge@.source =~= Seq::empty());
        bridge
    }

    /// Takes a batch of rows from the consumer. Returns the answer and the entries
    /// to fan out, in order.
    pub fn ingest(&mut self, request: IngestRequest<P, F>, now: u128) -> (answer: (
        IngestAck,
        Vec<SweepEntry<P>>,
    ))
        requires
            old(self)@.wf(),
            old(self)@.rows_ingested + request.rows@.len() <= u64::MAX,
            old(self)@.batches_ingested < u64::MAX,
        ensures
            final(self)@ == old(self)@.ingested(request.rows@, request.meta, now),
            final(self)@.wf(),
            old(self)@.answers_batch(request.rows@, request.meta, now, answer.0, answer.1@),
    {
        let accepted: usize = request.rows.len();
        let IngestRequest { rows, meta } = request;
        let ghost given = rows@;
        if accepted > 0 {
            self.producer.source = meta.source.clone();
            self.producer.last_row_at = Some(now);
        }
        self.producer.center_hz = meta.center_hz;
        self.producer.sample_rate_hz = meta.sample_rate_hz;
        self.producer.rows_ingested += accepted as u64;
        self.producer.batches_ingested += 1;
        self.producer.consumer = Some(meta);
        let ghost fed = self@;
        let ghost all = sweeps_of(given);
        let mut fan_out: Vec<SweepEntry<P>> = Vec::new();
        proof {
            assert(fed.ring == old(self)@.ring);
            assert(fed.ring + all.take(0) =~= fed.ring);
            assert(sweep_views(fan_out@) =~= all.take(0));
        }
        for row in it: rows
            invariant
                it.seq() == given,
                all == sweeps_of(given),
                self@.wf(),
                fed.wf(),
                sweep_views(fan_out@) == all.take(it.index() as int),
                self@ == (BridgeState {
                    ring: newest(fed.ring + all.take(it.index() as int), MAX_CHUNKS as nat),
                    bins: if it.index() > 0 {
                        given[it.index() - 1].bins@.len()
                    } else {
                        fed.bins
                    },
                    ..fed
                }),
        {
            let ghost k = it.index() as int;
            let entry = SweepEntry {
                kind: "sweep",
                bins: row.bins.len(),
                samples: row.sample,
                intensity: row.bins,
            };
            self.producer.bins = entry.bins;
            fan_out.push(entry.copied());
            let ghost sweep = entry@;
            self.remember(entry);
            proof {
                assert(all[k] == sweep);
                assert(all.take(k + 1) =~= all.take(k).push(sweep));
                assert(sweep_views(fan_out@) =~= all.take(k + 1));
                let before = fed.ring + all.take(k);
                lemma_newest_of_newest(before, seq![sweep], MAX_CHUNKS as nat);
                assert(newest(before, MAX_CHUNKS as nat).push(sweep) =~= newest(
                    before,
                    MAX_CHUNKS as nat,
                ) + seq![sweep]);
                assert(before + seq![sweep] =~= fed.ring + all.take(k + 1));
            }
        }
        assert(all.take(given.len() as int) =~= all);
        (IngestAck { accepted, ring_len: self.ring.len() }, fan_out)
    }

    /// The generated signal begins.
    pub fn begin_synthetic(&mut self, center_hz: F, sample_rate_hz: F)
        ensures
            final(self)@ == old(self)@.synthetic(center_hz, sample_rate_hz),
    {
        self.producer.source = "synthetic".to_owned();
        self.producer.center_hz = center_hz;
        self.producer.sample_rate_hz = sample_rate_hz;
    }

    /// Takes a row of the generated signal. Returns the entry to fan out.
    pub fn accept_generated(&mut self, row: Row<P>, now: u128) -> (entry: SweepEntry<P>)
        requires
            old(self)@.wf(),
            old(self)@.rows_ingested < u64::MAX,
        ensures
            final(self)@ == old(self)@.generated(row, now),
            final(self)@.wf(),
            entry@ == sweep_of(row.sample, row.bins@),
    {
        let entry: SweepEntry<P> = SweepEntry::from_row(row);
        self.producer.source = "synthetic".to_owned();
        self.producer.last_row_at = Some(now);
        self.producer.bins = entry.bins;
        self.producer.rows_ingested += 1;
        let shared: SweepEntry<P> = entry.copied();
        self.remember(entry);
        shared
    }

    /// What is known of the producer now.
    pub fn source_meta(&self, now: u128) -> (meta: SourceMeta<F>)
        ensures
            self@.tells(meta, now),
    {
        let stale_ms: Option<u128> = match self.producer.last_row_at {
            Some(last) => if last <= now {
                Some((now - last) / 1_000_000)
            } else {
                None
            },
            None => None,
        };
        let stale: bool = match stale_ms {
            Some(ms) => ms > STALE_AFTER_MS,
            None => true,
        };
        let consumer: Option<IngestMeta<F>> = match &self.producer.consumer {
            Some(meta) => Some(meta.copied()),
            None => None,
        };
        SourceMeta {
            source: self.producer.source.clone(),
            center_hz: self.producer.center_hz,
            sample_rate_hz: self.producer.sample_rate_hz,
            bins: self.producer.bins,
            stale_ms,
            stale,
            rows_ingested: self.producer.rows_ingested,
            batches_ingested: self.producer.batches_ingested,
            consumer,
        }
    }

    /// RF metadata for the front end's frequency axis, with freshness and loss.
    pub fn meta(&self, now: u128) -> (response: MetaResponse<F>)
        ensures
            self@.answers_meta(response, now),
    {
        let known: SourceMeta<F> = self.source_meta(now);
        MetaResponse {
            source: known.source,
            configured_source: self.configured.name(),
            center_hz: known.center_hz,
            sample_rate_hz: known.sample_rate_hz,
            bins: known.bins,
            stale_ms: known.stale_ms,
            stale: known.stale,
            rows_ingested: known.rows_ingested,
            batches_ingested: known.batches_ingested,
            ring_len: self.ring.len(),
            consumer: known.consumer,
        }
    }

    /// Counts for operators and verification.
    pub fn stats(&self, subscribers: usize, now: u128) -> (response: StatsResponse<F>)
        ensures
            self@.answers_stats(response, subscribers, now),
    {
        let known: SourceMeta<F> = self.source_meta(now);
        StatsResponse {
            source: known.source,
            configured_source: self.configured.name(),
            rows_ingested: known.rows_ingested,
            batches_ingested: known.batches_ingested,
            ring_len: self.ring.len(),
            ring_capacity: MAX_CHUNKS,
            subscribers,
            stale: known.stale,
            consumer: known.consumer,
        }
    }

    /// Rows of the history with `samples >= time`, ascending, up to `size`.
    pub fn chunks(&self, time: Option<u64>, size: Option<usize>) -> (rows: Vec<SweepEntry<P>>)
        ensures
            sweep_views(rows@) == served(self@.ring, time, size),
    {
        let time: u64 = match time {
            Some(time) => time,
            None => 0,
        };
        let size: usize = match size {
            Some(size) => if size <= MAX_CHUNKS {
                size
            } else {
                MAX_CHUNKS
            },
            None => DEFAULT_CHUNKS,
        };
        let ghost ring = self@.ring;
        let order: Vec<usize> = self.order_from(time);
        let ghost selected = at_places(ring, order@);
        let mut rows: Vec<SweepEntry<P>> = Vec::new();
        assert(sweep_views(rows@) =~= selected.take(0));
        while rows.len() < size && rows.len() < order.len()
            invariant
                ring == sweep_views(self.ring@),
                selected == at_places(ring, order@),
                forall|j: int| 0 <= j < order@.len() ==> (#[trigger] order@[j]) < ring.len(),
                rows@.len() <= size,
                rows@.len() <= order@.len(),
                sweep_views(rows@) == selected.take(rows@.len() as int),
            decreases order@.len() - rows@.len(),
        {
            let ghost k = rows@.len() as int;
            let place: usize = order[rows.len()];
            let entry: SweepEntry<P> = self.ring[place].copied();
            assert(entry@ == selected[k]);
            rows.push(entry);
            assert(sweep_views(rows@) =~= selected.take(k + 1));
        }
        assert(sweep_views(rows@) =~= chunk_of(ring, time, size as nat));
        rows
    }
}

/// The rows of a history at some places.
pub open spec fn at_places<P>(ring: Seq<SweepView<P>>, places: Seq<usize>) -> Seq<SweepView<P>> {
    places.map_values(|place: usize| ring[place as int])
}

impl<P, F> Bridge<P, F> {
    /// The places in the history of the rows with `samples >= time`, in ascending
    /// order of `samples`, equal ones as they came.
    fn order_from(&self, time: u64) -> (order: Vec<usize>)
        ensures
            forall|j: int| 0 <= j < order@.len() ==> (#[trigger] order@[j]) < self@.ring.len(),
            at_places(self@.ring, order@) == in_order(self@.ring.filter(not_before(time))),
    {
        let ghost ring = self@.ring;
        let ghost late = not_before::<P>(time);
        let len: usize = self.ring.len();
        let mut order: Vec<usize> = Vec::new();
        let mut k: usize = 0;
        proof {
            reveal(Seq::filter);
            assert(ring.take(0).filter(late) =~= Seq::empty());
            assert(at_places(ring, order@) =~= Seq::empty());
        }
        while k < len
            invariant
                k <= len,
                len == ring.len(),
                ring == sweep_views(self.ring@),
                late == not_before::<P>(time),
                forall|j: int| 0 <= j < order@.len() ==> (#[trigger] order@[j]) < len,
                at_places(ring, order@) == in_order(ring.take(k as int).filter(late)),
            decreases len - k,
        {
            let samples: u64 = self.ring[k].samples;
            let ghost entry = ring[k as int];
            let ghost sorted = at_places(ring, order@);
            proof {
                reveal(Seq::filter);
                assert(entry == self.ring@[k as int]@);
                assert(ring.take(k + 1).drop_last() =~= ring.take(k as int));
                assert(ring.take(k + 1).last() == entry);
            }
            if samples >= time {
                let mut place: usize = order.len();
                while place > 0
                    invariant
                        place <= order@.len(),
                        len == ring.len(),
                        ring == sweep_views(self.ring@),
                        sorted == at_places(ring, order@),
                        samples == entry.samples,
                        forall|j: int| 0 <= j < order@.len() ==> (#[trigger] order@[j]) < len,
                        forall|j: int|
                            place <= j < sorted.len() ==> (#[trigger] sorted[j]).samples > samples,
                    ensures
                        place > 0 ==> sorted[place - 1].samples <= samples,
                    decreases place,
                {
                    let earlier: usize = order[place - 1];
                    assert(sorted[place - 1] == self.ring@[earlier as int]@);
                    if self.ring[earlier].samples <= samples {
                        break;
                    }
                    place -= 1;
                }
                proof {
                    lemma_placed_is_inserted(sorted, entry, place as int);
                    let kept = ring.take(k as int).filter(late);
                    assert(ring.take(k + 1).filter(late) == kept.push(entry));
                    assert(kept.push(entry).drop_last() =~= kept);
                }
                order.insert(place, k);
                assert(at_places(ring, order@) =~= sorted.insert(place as int, entry));
            } else {
                assert(ring.take(k + 1).filter(late) == ring.take(k as int).filter(late));
            }
            k += 1;
        }
        assert(ring.take(len as int) =~= ring);
        order
    }
}

proof fn lemma_placed_is_inserted<P>(sorted: Seq<SweepView<P>>, entry: SweepView<P>, place: int)
    requires
        0 <= place <= sorted.len(),
        forall|j: int| place <= j < sorted.len() ==> (#[trigger] sorted[j]).samples > entry.samples,
        place > 0 ==> sorted[place - 1].samples <= entry.samples,
    ensures
        placed(sorted, entry) == sorted.insert(place, entry),
    decreases sorted.len(),
{
    if place < sorted.len() {
        lemma_placed_is_inserted(sorted.drop_last(), entry, place);
        assert(sorted.drop_last().insert(place, entry).push(sorted.last()) =~= sorted.insert(
            place,
            entry,
        ));
    } else {
        assert(sorted.push(entry) =~= sorted.insert(place, entry));
    }
}

// ---------------- Configuration ----------------

/// What a bridge is started with. `F` is a frequency in Hz; the address is a text
/// that the socket layer reads.
#[derive(Debug, Clone)]
pub struct BridgeConfig<F> {
    pub listen: String,
    pub static_dir: String,
    pub sweep_ms: u64,
    pub source: Source,
    pub center_hz: F,
    pub sample_rate_hz: F,
}

/// Every flag that the program takes.
pub open spec fn known_flag_texts() -> Seq<Seq<char>> {
    seq!["--source"@, "--static"@, "--sweep-ms"@, "--center-freq"@, "--sample-rate"@]
}

/// Every flag that the program takes.
pub fn known_flags() -> (flags: Vec<&'static str>)
    ensures
        str_texts(flags@) == known_flag_texts(),
{
    let flags: Vec<&'static str> = vec![
        "--source",
        "--static",
        "--sweep-ms",
        "--center-freq",
        "--sample-rate",
    ];
    assert(str_texts(flags@) =~= known_flag_texts());
    flags
}

/// `config` is what the arguments and the two environment variables ask for.
pub open spec fn is_config_of<F: FromStr>(
    config: BridgeConfig<F>,
    args: Seq<Seq<char>>,
    listen: Option<Seq<char>>,
    source: Option<Seq<char>>,
    center_hz: F,
    sample_rate_hz: F,
) -> bool {
    &&& config.listen@ == (match listen {
        Some(address) => address,
        None => "127.0.0.1:4780"@,
    })
    &&& config.static_dir@ == chosen_text(None, args, "--static"@, "."@)
    &&& config.sweep_ms == number_setting(args, "--sweep-ms"@, 60, u64::MAX as nat)
    &&& config.source == Source::named(chosen_text(source, args, "--source"@, "synthetic"@))
    &&& is_reading(flag_text(args, "--center-freq"@), center_hz, config.center_hz)
    &&& is_reading(flag_text(args, "--sample-rate"@), sample_rate_hz, config.sample_rate_hz)
}

/// Resolves the configuration. `listen` and `source` are the values of
/// `WATERFALL_LISTEN` and `WATERFALL_SOURCE`; the frequencies are those that hold
/// where no flag gives others.
pub fn load_config<F: FromStr>(
    args: &[String],
    listen: Option<String>,
    source: Option<String>,
    center_hz: F,
    sample_rate_hz: F,
) -> (config: BridgeConfig<F>)
    ensures
        is_config_of(
            config,
            texts(args@),
            opt_text(listen),
            opt_text(source),
            center_hz,
            sample_rate_hz,
        ),
{
    let chosen: String = text_setting(source, args, "--source", "synthetic");
    BridgeConfig {
        listen: match listen {
            Some(address) => address,
            None => "127.0.0.1:4780".to_owned(),
        },
        static_dir: text_setting(None, args, "--static", "."),
        sweep_ms: number_or(args, "--sweep-ms", 60),
        source: Source::from_name(chosen.as_str()),
        center_hz: parse_or(args, "--center-freq", center_hz),
        sample_rate_hz: parse_or(args, "--sample-rate", sample_rate_hz),
    }
}

// ---------------- Laws ----------------

/// One batch from the consumer, and when it came.
pub struct Batch<P, F> {
    pub rows: Seq<RowDto<P>>,
    pub meta: IngestMeta<F>,
    pub at: u128,
}

/// The state after batches one after the other.
pub open spec fn ingested_all<P, F>(
    state: BridgeState<P, F>,
    batches: Seq<Batch<P, F>>,
) -> BridgeState<P, F>
    decreases batches.len(),
{
    if batches.len() == 0 {
        state
    } else {
        let last = batches.last();
        ingested_all(state, batches.drop_last()).ingested(last.rows, last.meta, last.at)
    }
}

/// Every row of the batches, in order.
pub open spec fn rows_in<P, F>(batches: Seq<Batch<P, F>>) -> Seq<RowDto<P>>
    decreases batches.len(),
{
    if batches.len() == 0 {
        Seq::empty()
    } else {
        rows_in(batches.drop_last()) + batches.last().rows
    }
}

/// The history is bounded and holds the newest rows, in the order they came,
/// however they were batched; and every row and every batch is counted.
pub proof fn law_history_holds_the_newest_rows<P, F>(
    state: BridgeState<P, F>,
    batches: Seq<Batch<P, F>>,
)
    requires
        state.wf(),
    ensures
        ({
            let after = ingested_all(state, batches);
            &&& after.wf()
            &&& after.ring == newest(
                state.ring + sweeps_of(rows_in(batches)),
                MAX_CHUNKS as nat,
            )
            &&& after.rows_ingested == state.rows_ingested + rows_in(batches).len()
            &&& after.batches_ingested == state.batches_ingested + batches.len()
            &&& after.configured == state.configured
        }),
    decreases batches.len(),
{
    if batches.len() == 0 {
        assert(state.ring + sweeps_of(rows_in(batches)) =~= state.ring);
    } else {
        let front = batches.drop_last();
        let rows = batches.last().rows;
        law_history_holds_the_newest_rows(state, front);
        lemma_newest_of_newest(
            state.ring + sweeps_of(rows_in(front)),
            sweeps_of(rows),
            MAX_CHUNKS as nat,
        );
        assert(state.ring + sweeps_of(rows_in(front)) + sweeps_of(rows) =~= state.ring + sweeps_of(
            rows_in(batches),
        ));
    }
}

/// Nothing is fabricated: whatever stands in the history after a batch stood there
/// before or is a row of the batch.
pub proof fn law_history_holds_nothing_but_rows<P, F>(
    state: BridgeState<P, F>,
    rows: Seq<RowDto<P>>,
    meta: IngestMeta<F>,
    now: u128,
    k: int,
)
    requires
        0 <= k < state.ingested(rows, meta, now).ring.len(),
    ensures
        ({
            let entry = state.ingested(rows, meta, now).ring[k];
            state.ring.contains(entry) || exists|j: int|
                0 <= j < rows.len() && entry == sweep_of(#[trigger] rows[j].sample, rows[j].bins@)
        }),
{
    let all = state.ring + sweeps_of(rows);
    let entry = state.ingested(rows, meta, now).ring[k];
    let i = if all.len() <= MAX_CHUNKS {
        k
    } else {
        k + all.len() - MAX_CHUNKS
    };
    assert(entry == all[i]);
    if i < state.ring.len() {
        assert(state.ring[i] == entry);
    } else {
        let j = i - state.ring.len();
        assert(entry == sweep_of(rows[j].sample, rows[j].bins@));
    }
}

/// In order of time.
pub open spec fn in_time_order<P>(ring: Seq<SweepView<P>>) -> bool {
    forall|i: int, j: int|
        0 <= i <= j < ring.len() ==> (#[trigger] ring[i]).samples <= (#[trigger] ring[j]).samples
}

/// The rows at one position, as they stand.
pub open spec fn at_position<P>(rows: Seq<SweepView<P>>, samples: u64) -> Seq<SweepView<P>> {
    rows.filter(|entry: SweepView<P>| entry.samples == samples)
}

/// Putting rows in order orders them and does nothing else: they ascend, and at every
/// position stand the rows that stood there before, as they came.
pub proof fn law_ordering_is_stable<P>(rows: Seq<SweepView<P>>)
    ensures
        in_time_order(in_order(rows)),
        in_order(rows).len() == rows.len(),
        in_order(rows).to_multiset() == rows.to_multiset(),
        forall|samples: u64| #[trigger]
            at_position(in_order(rows), samples) == at_position(rows, samples),
    decreases rows.len(),
{
    if rows.len() > 0 {
        let front = rows.drop_last();
        let entry = rows.last();
        let sorted = in_order(front);
        law_ordering_is_stable(front);
        let place = place_in(sorted, entry.samples);
        lemma_place_in(sorted, entry.samples);
        lemma_placed_is_inserted(sorted, entry, place);
        let all = sorted.insert(place, entry);
        let head = sorted.take(place);
        let tail = sorted.skip(place);
        assert(all =~= head + seq![entry] + tail);
        assert(sorted =~= head + tail);
        assert(rows =~= front + seq![entry]);
        assert(in_time_order(all)) by {
            assert forall|i: int, j: int| 0 <= i <= j < all.len() implies (#[trigger] all[i]).samples
                <= (#[trigger] all[j]).samples by {
                if i < place {
                    assert(all[i] == sorted[i]);
                    assert(sorted[i].samples <= sorted[place - 1].samples);
                } else if i > place {
                    assert(all[i] == sorted[i - 1]);
                }
                if j < place {
                    assert(all[j] == sorted[j]);
                } else if j > place {
                    assert(all[j] == sorted[j - 1]);
                }
            }
        }
        assert(all.to_multiset() =~= rows.to_multiset()) by {
            lemma_multiset_commutative(head + seq![entry], tail);
            lemma_multiset_commutative(head, seq![entry]);
            lemma_multiset_commutative(head, tail);
            lemma_multiset_commutative(front, seq![entry]);
        }
        assert forall|samples: u64| #[trigger] at_position(all, samples) == at_position(
            rows,
            samples,
        ) by {
            let here = |e: SweepView<P>| e.samples == samples;
            assert(at_position(sorted, samples) == at_position(front, samples));
            Seq::filter_distributes_over_add(head + seq![entry], tail, here);
            Seq::filter_distributes_over_add(head, seq![entry], here);
            Seq::filter_distributes_over_add(head, tail, here);
            Seq::filter_distributes_over_add(front, seq![entry], here);
            let one = seq![entry];
            if entry.samples == samples {
                assert forall|k: int| 0 <= k < tail.len() implies !here(#[trigger] tail[k]) by {
                    assert(tail[k] == sorted[place + k]);
                }
                lemma_filter_none(tail, here);
                assert(head.filter(here) + one.filter(here) + Seq::<SweepView<P>>::empty()
                    =~= head.filter(here) + Seq::<SweepView<P>>::empty() + one.filter(here));
            } else {
                lemma_filter_none(one, here);
                assert(head.filter(here) + Seq::<SweepView<P>>::empty() =~= head.filter(here));
                assert(front.filter(here) + Seq::<SweepView<P>>::empty() =~= front.filter(here));
            }
        }
    }
}

/// Where a row at `samples` is put: behind the last row that does not lie after it.
spec fn place_in<P>(sorted: Seq<SweepView<P>>, samples: u64) -> int
    decreases sorted.len(),
{
    if sorted.len() > 0 && sorted.last().samples > samples {
        place_in(sorted.drop_last(), samples)
    } else {
        sorted.len() as int
    }
}

proof fn lemma_place_in<P>(sorted: Seq<SweepView<P>>, samples: u64)
    ensures
        0 <= place_in(sorted, samples) <= sorted.len(),
        forall|j: int|
            place_in(sorted, samples) <= j < sorted.len() ==> (#[trigger] sorted[j]).samples
                > samples,
        place_in(sorted, samples) > 0 ==> sorted[place_in(sorted, samples) - 1].samples <= samples,
    decreases sorted.len(),
{
    if sorted.len() > 0 && sorted.last().samples > samples {
        let front = sorted.drop_last();
        lemma_place_in(front, samples);
        assert forall|j: int| place_in(sorted, samples) <= j < sorted.len() implies (
        #[trigger] sorted[j]).samples > samples by {
            if j < front.len() {
                assert(front[j] == sorted[j]);
            }
        }
    }
}

/// On every history, what is served lies at or after the time asked for, in ascending
/// order. It is the first `size` of the rows selected, which are at every such
/// position the rows of the history there, as they came, and none elsewhere.
pub proof fn law_chunks_select_by_time<P>(ring: Seq<SweepView<P>>, time: u64, size: nat)
    ensures
        ({
            let served = chunk_of(ring, time, size);
            let selected = in_order(ring.filter(not_before(time)));
            &&& in_time_order(served)
            &&& forall|k: int| 0 <= k < served.len() ==> (#[trigger] served[k]).samples >= time
            &&& served.len() == if selected.len() <= size {
                selected.len()
            } else {
                size
            }
            &&& served == selected.take(served.len() as int)
            &&& selected.len() == ring.filter(not_before(time)).len()
            &&& forall|samples: u64| #[trigger]
                at_position(selected, samples) == if samples >= time {
                    at_position(ring, samples)
                } else {
                    Seq::empty()
                }
        }),
{
    let late = not_before::<P>(time);
    let kept = ring.filter(late);
    let selected = in_order(kept);
    let served = chunk_of(ring, time, size);
    law_ordering_is_stable(kept);
    lemma_filter_keeps(ring, late);
    assert(served =~= selected.take(served.len() as int));
    assert forall|i: int, j: int| 0 <= i <= j < served.len() implies (#[trigger] served[i]).samples
        <= (#[trigger] served[j]).samples by {
        assert(selected[i].samples <= selected[j].samples);
    }
    assert forall|k: int| 0 <= k < served.len() implies (#[trigger] served[k]).samples >= time by {
        assert(selected.contains(selected[k]));
        selected.to_multiset_ensures();
        kept.to_multiset_ensures();
        assert(selected.to_multiset().count(selected[k]) > 0);
        assert(kept.contains(selected[k]));
        let j = choose|j: int| 0 <= j < kept.len() && kept[j] == selected[k];
        assert(late(kept[j]));
    }
    assert forall|samples: u64| #[trigger] at_position(selected, samples) == (if samples >= time {
        at_position(ring, samples)
    } else {
        Seq::empty()
    }) by {
        let here = |e: SweepView<P>| e.samples == samples;
        assert(at_position(selected, samples) == at_position(kept, samples));
        if samples >= time {
            lemma_filter_twice(ring, late, here);
        } else {
            assert forall|k: int| 0 <= k < kept.len() implies !here(#[trigger] kept[k]) by {
                assert(late(kept[k]));
            }
            lemma_filter_none(kept, here);
        }
    }
}

/// A history in order of time is served as it stands: the rows at or after the time
/// asked for, up to `size`.
pub proof fn law_ordered_histories_are_served_as_they_stand<P>(
    ring: Seq<SweepView<P>>,
    time: u64,
    size: nat,
)
    requires
        in_time_order(ring),
    ensures
        ({
            let selected = ring.filter(not_before(time));
            chunk_of(ring, time, size) == if selected.len() <= size {
                selected
            } else {
                selected.take(size as int)
            }
        }),
{
    lemma_filter_keeps_order(ring, not_before::<P>(time));
    lemma_ordered_rows_stay(ring.filter(not_before::<P>(time)));
}

proof fn lemma_ordered_rows_stay<P>(rows: Seq<SweepView<P>>)
    requires
        in_time_order(rows),
    ensures
        in_order(rows) == rows,
    decreases rows.len(),
{
    if rows.len() > 0 {
        let front = rows.drop_last();
        assert(in_time_order(front)) by {
            assert forall|i: int, j: int| 0 <= i <= j < front.len() implies (
            #[trigger] front[i]).samples <= (#[trigger] front[j]).samples by {
                assert(rows[i].samples <= rows[j].samples);
            }
        }
        lemma_ordered_rows_stay(front);
        if front.len() > 0 {
            assert(rows[front.len() - 1].samples <= rows[rows.len() - 1].samples);
        }
        assert(front.push(rows.last()) =~= rows);
    }
}

proof fn lemma_filter_keeps_order<P>(rows: Seq<SweepView<P>>, keep: spec_fn(SweepView<P>) -> bool)
    requires
        in_time_order(rows),
    ensures
        in_time_order(rows.filter(keep)),
        rows.len() > 0 && rows.filter(keep).len() > 0 ==> rows.filter(keep).last().samples
            <= rows.last().samples,
    decreases rows.len(),
{
    reveal(Seq::filter);
    if rows.len() > 0 {
        let front = rows.drop_last();
        assert(in_time_order(front)) by {
            assert forall|i: int, j: int| 0 <= i <= j < front.len() implies (
            #[trigger] front[i]).samples <= (#[trigger] front[j]).samples by {
                assert(rows[i].samples <= rows[j].samples);
            }
        }
        lemma_filter_keeps_order(front, keep);
        let kept = front.filter(keep);
        if front.len() > 0 {
            assert(rows[front.len() - 1].samples <= rows[rows.len() - 1].samples);
        }
        let all = rows.filter(keep);
        assert forall|i: int, j: int| 0 <= i <= j < all.len() implies (#[trigger] all[i]).samples
            <= (#[trigger] all[j]).samples by {
            if j < kept.len() {
                assert(kept[i].samples <= kept[j].samples);
            } else if i < kept.len() {
                assert(kept[i].samples <= kept[kept.len() - 1].samples);
            }
        }
    }
}

proof fn lemma_filter_keeps<T>(items: Seq<T>, keep: spec_fn(T) -> bool)
    ensures
        forall|k: int| 0 <= k < items.filter(keep).len() ==> keep(#[trigger] items.filter(keep)[k]),
    decreases items.len(),
{
    reveal(Seq::filter);
    if items.len() > 0 {
        lemma_filter_keeps(items.drop_last(), keep);
        let kept = items.drop_last().filter(keep);
        let all = items.filter(keep);
        assert forall|k: int| 0 <= k < all.len() implies keep(#[trigger] all[k]) by {
            if k < kept.len() {
                assert(keep(kept[k]));
            }
        }
    }
}

/// What a narrower test keeps of what a wider one kept.
proof fn lemma_filter_twice<T>(items: Seq<T>, wide: spec_fn(T) -> bool, narrow: spec_fn(T) -> bool)
    requires
        forall|item: T| #[trigger] narrow(item) ==> wide(item),
    ensures
        items.filter(wide).filter(narrow) == items.filter(narrow),
    decreases items.len(),
{
    reveal(Seq::filter);
    if items.len() > 0 {
        let front = items.drop_last();
        lemma_filter_twice(front, wide, narrow);
        let last = items.last();
        if wide(last) {
            assert(front.filter(wide).push(last).drop_last() =~= front.filter(wide));
        } else {
            assert(!narrow(last));
        }
    }
}

proof fn lemma_filter_none<T>(items: Seq<T>, keep: spec_fn(T) -> bool)
    requires
        forall|k: int| 0 <= k < items.len() ==> !keep(#[trigger] items[k]),
    ensures
        items.filter(keep) == Seq::<T>::empty(),
    decreases items.len(),
{
    reveal(Seq::filter);
    if items.len() > 0 {
        assert(!keep(items[items.len() - 1]));
        assert forall|k: int| 0 <= k < items.drop_last().len() implies !keep(
            #[trigger] items.drop_last()[k],
        ) by {
            assert(!keep(items[k]));
        }
        lemma_filter_none(items.drop_last(), keep);
    }
}

/// A bridge that was never fed is stale. One that was fed is fresh for three
/// seconds, and stale from a millisecond later for as long as nothing comes.
pub proof fn law_a_dead_feed_goes_stale<P, F>(state: BridgeState<P, F>, now: u128)
    ensures
        state.last_row_at is None ==> state.stale(now),
        state.last_row_at matches Some(last) ==> {
            &&& last <= now <= last + 3_000_000_000 ==> !state.stale(now)
            &&& now >= last + 3_001_000_000 ==> state.stale(now)
        },
{
}

/// A feed that delivers no row is no fresher for the batches that come: whatever
/// batches without rows arrive, the bridge is stale when it would be without them,
/// and the rows, their producer and their count stay.
pub proof fn law_batches_without_rows_do_not_freshen<P, F>(
    state: BridgeState<P, F>,
    batches: Seq<Batch<P, F>>,
    now: u128,
)
    requires
        state.wf(),
        rows_in(batches).len() == 0,
    ensures
        ({
            let after = ingested_all(state, batches);
            &&& after.stale(now) == state.stale(now)
            &&& after.last_row_at == state.last_row_at
            &&& after.source == state.source
            &&& after.ring == state.ring
            &&& after.bins == state.bins
            &&& after.rows_ingested == state.rows_ingested
        }),
    decreases batches.len(),
{
    if batches.len() > 0 {
        let front = batches.drop_last();
        law_batches_without_rows_do_not_freshen(state, front, now);
        assert(state.ring + sweeps_of(batches.last().rows) =~= state.ring);
    }
}

/// The producer shown is the one that last delivered a row, and the freshness counts
/// from when it did.
pub proof fn law_the_last_row_tells_producer_and_time<P, F>(
    state: BridgeState<P, F>,
    rows: Seq<RowDto<P>>,
    meta: IngestMeta<F>,
    row: Row<P>,
    now: u128,
)
    requires
        rows.len() > 0,
    ensures
        state.ingested(rows, meta, now).source == meta.source@,
        state.ingested(rows, meta, now).last_row_at == Some(now),
        state.generated(row, now).source == "synthetic"@,
        state.generated(row, now).last_row_at == Some(now),
{
}

// ---------------- What the operations mean ----------------

/// What is served of a row is the row: its position, its bins, and how many they are.
pub proof fn law_rows_are_served_as_they_are<P>(rows: Seq<RowDto<P>>, sample: u64, bins: Seq<P>, k: int)
    ensures
        sweep_of(sample, bins).kind == "sweep"@,
        sweep_of(sample, bins).bins == bins.len(),
        sweep_of(sample, bins).samples == sample,
        sweep_of(sample, bins).intensity == bins,
        sweeps_of(rows).len() == rows.len(),
        0 <= k < rows.len() ==> {
            &&& sweeps_of(rows)[k].kind == "sweep"@
            &&& sweeps_of(rows)[k].bins == rows[k].bins@.len()
            &&& sweeps_of(rows)[k].samples == rows[k].sample
            &&& sweeps_of(rows)[k].intensity == rows[k].bins@
        },
{
}

/// The report shown is the latest: after any batches, the consumer's report and the two
/// frequencies are those of the last one, whether it had rows or not, and the batches
/// are all counted; the producer a bridge was started with stays.
pub proof fn law_the_latest_report_is_shown<P, F>(
    state: BridgeState<P, F>,
    batches: Seq<Batch<P, F>>,
)
    requires
        batches.len() > 0,
    ensures
        ({
            let after = ingested_all(state, batches);
            let latest = batches[batches.len() - 1].meta;
            &&& after.consumer == Some(latest)
            &&& after.center_hz == latest.center_hz
            &&& after.sample_rate_hz == latest.sample_rate_hz
        }),
{
}

/// The rows decide the rest: after any batches, the producer, the moment of the last row
/// and the bins are those of the last batch that had a row, and its last row.
pub proof fn law_the_last_batch_with_rows_decides<P, F>(
    state: BridgeState<P, F>,
    batches: Seq<Batch<P, F>>,
    last: int,
)
    requires
        0 <= last < batches.len(),
        batches[last].rows.len() > 0,
        forall|k: int| last < k < batches.len() ==> (#[trigger] batches[k]).rows.len() == 0,
    ensures
        ({
            let after = ingested_all(state, batches);
            let batch = batches[last];
            &&& after.source == batch.meta.source@
            &&& after.last_row_at == Some(batch.at)
            &&& after.bins == batch.rows[batch.rows.len() - 1].bins@.len()
        }),
    decreases batches.len(),
{
    if last < batches.len() - 1 {
        let front = batches.drop_last();
        assert(batches[batches.len() - 1].rows.len() == 0);
        assert forall|k: int| last < k < front.len() implies (#[trigger] front[k]).rows.len()
            == 0 by {
            assert(batches[k].rows.len() == 0);
        }
        law_the_last_batch_with_rows_decides(state, front, last);
    }
}

/// The history after any batches is the last rows of all, at most 512, in the order they
/// came; every row and every batch is counted.
pub proof fn law_history_is_the_last_rows<P, F>(
    state: BridgeState<P, F>,
    batches: Seq<Batch<P, F>>,
)
    requires
        state.wf(),
    ensures
        ({
            let after = ingested_all(state, batches);
            let all = state.ring + sweeps_of(rows_in(batches));
            let held = if all.len() < 512 {
                all.len()
            } else {
                512
            };
            &&& after.ring.len() == held
            &&& forall|i: int| 0 <= i < held ==> #[trigger] after.ring[i] == all[all.len() - held + i]
            &&& after.rows_ingested == state.rows_ingested + rows_in(batches).len()
            &&& after.batches_ingested == state.batches_ingested + batches.len()
        }),
{
    law_history_holds_the_newest_rows(state, batches);
    law_newest_are_the_last(state.ring + sweeps_of(rows_in(batches)), MAX_CHUNKS as nat);
}

/// A generated row is remembered like any other, at the end, and counted; it names its
/// producer, its moment and its bins, and changes nothing else. When the signal begins,
/// its name and its frequencies are shown.
pub proof fn law_generated_rows_are_remembered<P, F>(
    state: BridgeState<P, F>,
    row: Row<P>,
    now: u128,
    center_hz: F,
    sample_rate_hz: F,
)
    requires
        state.wf(),
    ensures
        ({
            let after = state.generated(row, now);
            let all = state.ring.push(sweep_of(row.sample, row.bins@));
            let held = if all.len() < 512 {
                all.len()
            } else {
                512
            };
            &&& after.ring.len() == held
            &&& forall|i: int| 0 <= i < held ==> #[trigger] after.ring[i] == all[all.len() - held + i]
            &&& after.source == "synthetic"@
            &&& after.last_row_at == Some(now)
            &&& after.rows_ingested == state.rows_ingested + 1
            &&& after.bins == row.bins@.len()
            &&& after.batches_ingested == state.batches_ingested
            &&& after.center_hz == state.center_hz
            &&& after.sample_rate_hz == state.sample_rate_hz
            &&& after.consumer == state.consumer
            &&& after.configured == state.configured
        }),
        ({
            let after = state.synthetic(center_hz, sample_rate_hz);
            &&& after.source == "synthetic"@
            &&& after.center_hz == center_hz
            &&& after.sample_rate_hz == sample_rate_hz
            &&& after.ring == state.ring
            &&& after.last_row_at == state.last_row_at
            &&& after.rows_ingested == state.rows_ingested
            &&& after.batches_ingested == state.batches_ingested
            &&& after.bins == state.bins
            &&& after.consumer == state.consumer
            &&& after.configured == state.configured
        }),
{
    law_newest_are_the_last(
        state.ring.push(sweep_of(row.sample, row.bins@)),
        MAX_CHUNKS as nat,
    );
}

/// A request for `n` rows is served `n`, or 512 where it asks for more, or as many rows
/// as there are at or after its time where they are fewer; 128 takes the place of `n`
/// only where the request gives none, and zero that of the time. They lie at or after
/// the time, in ascending order, and none that is left out lies before one served.
pub proof fn law_requests_are_served_what_they_ask_for<P>(
    ring: Seq<SweepView<P>>,
    time: Option<u64>,
    size: Option<usize>,
)
    ensures
        ({
            let rows = served(ring, time, size);
            let from = if time is Some {
                time->0
            } else {
                0
            };
            let asked = if size is Some {
                size->0 as int
            } else {
                128
            };
            let available = ring.filter(|entry: SweepView<P>| entry.samples >= from).len();
            &&& rows.len() <= asked && rows.len() <= 512 && rows.len() <= available
            &&& rows.len() == asked || rows.len() == 512 || rows.len() == available
            &&& forall|k: int| 0 <= k < rows.len() ==> (#[trigger] rows[k]).samples >= from
            &&& forall|k: int| 0 <= k < rows.len() ==> ring.contains(#[trigger] rows[k])
            &&& forall|i: int, j: int|
                0 <= i <= j < rows.len() ==> (#[trigger] rows[i]).samples <= (
                #[trigger] rows[j]).samples
            &&& forall|i: int, k: int|
                0 <= i < ring.len() && ring[i].samples >= from && !rows.contains(#[trigger] ring[i])
                    && 0 <= k < rows.len() ==> (#[trigger] rows[k]).samples <= ring[i].samples
        }),
{
    let from = if time is Some {
        time->0
    } else {
        0
    };
    let rows = served(ring, time, size);
    let late = not_before::<P>(from);
    let kept = ring.filter(late);
    let selected = in_order(kept);
    law_chunks_select_by_time(ring, from, chunk_size(size));
    law_ordering_is_stable(kept);
    assert(late =~= |entry: SweepView<P>| entry.samples >= from);
    kept.to_multiset_ensures();
    selected.to_multiset_ensures();
    assert forall|k: int| 0 <= k < rows.len() implies ring.contains(#[trigger] rows[k]) by {
        assert(selected[k] == rows[k]);
        assert(selected.contains(rows[k]));
        assert(kept.to_multiset().count(rows[k]) > 0);
        assert(kept.contains(rows[k]));
        lemma_filter_takes_from(ring, late);
    }
    assert forall|i: int, k: int|
        0 <= i < ring.len() && ring[i].samples >= from && !rows.contains(#[trigger] ring[i]) && 0
            <= k < rows.len() implies (#[trigger] rows[k]).samples <= ring[i].samples by {
        let entry = ring[i];
        lemma_filter_holds(ring, late, i);
        assert(kept.contains(entry));
        assert(selected.to_multiset().count(entry) > 0);
        assert(selected.contains(entry));
        let j = choose|j: int| 0 <= j < selected.len() && selected[j] == entry;
        if j < rows.len() {
            assert(rows[j] == entry);
        }
        assert(selected[k].samples <= selected[j].samples);
        assert(rows[k] == selected[k]);
    }
}

proof fn lemma_filter_takes_from<T>(items: Seq<T>, keep: spec_fn(T) -> bool)
    ensures
        forall|item: T| #[trigger] items.filter(keep).contains(item) ==> items.contains(item),
    decreases items.len(),
{
    reveal(Seq::filter);
    if items.len() > 0 {
        let front = items.drop_last();
        lemma_filter_takes_from(front, keep);
        assert forall|item: T| #[trigger] items.filter(keep).contains(item) implies items.contains(
            item,
        ) by {
            let kept = items.filter(keep);
            let k = choose|k: int| 0 <= k < kept.len() && kept[k] == item;
            if k < front.filter(keep).len() {
                assert(front.filter(keep)[k] == item);
                assert(front.filter(keep).contains(item));
                let j = choose|j: int| 0 <= j < front.len() && front[j] == item;
                assert(items[j] == item);
            } else {
                assert(items[items.len() - 1] == item);
            }
        }
    }
}

proof fn lemma_filter_holds<T>(items: Seq<T>, keep: spec_fn(T) -> bool, i: int)
    requires
        0 <= i < items.len(),
        keep(items[i]),
    ensures
        items.filter(keep).contains(items[i]),
    decreases items.len(),
{
    reveal(Seq::filter);
    let front = items.drop_last();
    let kept = front.filter(keep);
    if i < front.len() {
        assert(front[i] == items[i]);
        lemma_filter_holds(front, keep, i);
        let j = choose|j: int| 0 <= j < kept.len() && kept[j] == items[i];
        assert(items.filter(keep)[j] == items[i]);
    } else {
        assert(items.filter(keep)[kept.len() as int] == items[i]);
    }
}

/// The age of the last row is given in whole milliseconds, where there was a row and the
/// clock did not go back; the feed is stale where there is no age, or one of more than
/// 3000.
pub proof fn law_the_age_of_the_last_row<P, F>(state: BridgeState<P, F>, now: u128)
    ensures
        match state.last_row_at {
            Some(last) => {
                let age = millis_since(state.last_row_at, now);
                &&& age is Some <==> last <= now
                &&& age matches Some(ms) ==> ms * 1_000_000 <= now - last < (ms + 1) * 1_000_000
                &&& state.stale(now) <==> now < last || now - last >= 3_001_000_000
            },
            None => millis_since(state.last_row_at, now) is None && state.stale(now),
        },
{
}

/// Both answers tell the state: every value under its own name, the age of the last row,
/// the rows held and, of 512, how many could be; and the subscribers that there are.
pub proof fn law_answers_tell_the_state<P, F>(
    state: BridgeState<P, F>,
    known: SourceMeta<F>,
    meta: MetaResponse<F>,
    stats: StatsResponse<F>,
    subscribers: usize,
    now: u128,
)
    requires
        state.tells(known, now),
        state.answers_meta(meta, now),
        state.answers_stats(stats, subscribers, now),
    ensures
        known.source@ == state.source && meta.source@ == state.source && stats.source@
            == state.source,
        known.center_hz == state.center_hz && meta.center_hz == state.center_hz,
        known.sample_rate_hz == state.sample_rate_hz && meta.sample_rate_hz
            == state.sample_rate_hz,
        known.bins == state.bins && meta.bins == state.bins,
        known.stale_ms == millis_since(state.last_row_at, now),
        meta.stale_ms == millis_since(state.last_row_at, now),
        known.stale == state.stale(now) && meta.stale == state.stale(now) && stats.stale
            == state.stale(now),
        known.rows_ingested == state.rows_ingested && meta.rows_ingested == state.rows_ingested
            && stats.rows_ingested == state.rows_ingested,
        known.batches_ingested == state.batches_ingested && meta.batches_ingested
            == state.batches_ingested && stats.batches_ingested == state.batches_ingested,
        known.consumer == state.consumer && meta.consumer == state.consumer && stats.consumer
            == state.consumer,
        meta.ring_len == state.ring.len() && stats.ring_len == state.ring.len(),
        stats.ring_capacity == 512,
        stats.subscribers == subscribers,
        state.configured == Source::Ingest ==> meta.configured_source@ == "ingest"@
            && stats.configured_source@ == "ingest"@,
        state.configured == Source::Synthetic ==> meta.configured_source@ == "synthetic"@
            && stats.configured_source@ == "synthetic"@,
{
}

/// The consumer is the producer exactly where it is asked for under one of its two names.
pub proof fn law_sources_have_their_names(text: Seq<char>)
    ensures
        Source::named(text) == Source::Ingest <==> text == "ingest"@ || text == "vita49"@,
        Source::Ingest.shown() == "ingest"@,
        Source::Synthetic.shown() == "synthetic"@,
{
}

/// Every setting comes from its own place: the address from the environment or it is the
/// default, the producer from the environment, else from its flag, else it is the
/// generated signal; the others from their flags, else they are the defaults.
pub proof fn law_settings_come_from_their_places<F: FromStr>(
    config: BridgeConfig<F>,
    args: Seq<Seq<char>>,
    listen: Option<Seq<char>>,
    source: Option<Seq<char>>,
    center_hz: F,
    sample_rate_hz: F,
)
    requires
        is_config_of(config, args, listen, source, center_hz, sample_rate_hz),
    ensures
        config.listen@ == match listen {
            Some(text) => text,
            None => "127.0.0.1:4780"@,
        },
        config.static_dir@ == match flag_text(args, "--static"@) {
            Some(text) => text,
            None => "."@,
        },
        config.sweep_ms == match flag_text(args, "--sweep-ms"@) {
            Some(text) => match decimal_value(text) {
                Some(number) if number <= u64::MAX => number,
                _ => 60,
            },
            None => 60,
        },
        config.source == match (source, flag_text(args, "--source"@)) {
            (Some(text), _) => Source::named(text),
            (None, Some(text)) => Source::named(text),
            (None, None) => Source::Synthetic,
        },
        is_reading(flag_text(args, "--center-freq"@), center_hz, config.center_hz),
        is_reading(flag_text(args, "--sample-rate"@), sample_rate_hz, config.sample_rate_hz),
{
    reveal_strlit("synthetic");
    reveal_strlit("ingest");
    reveal_strlit("vita49");
    assert("synthetic"@.len() == 9 && "ingest"@.len() == 6 && "vita49"@.len() == 6);
}

/// Every flag that a setting comes from is known, and no other.
pub proof fn law_the_flags_of_the_settings_are_known()
    ensures
        known_flag_texts().to_set() == set![
            "--source"@,
            "--static"@,
            "--sweep-ms"@,
            "--center-freq"@,
            "--sample-rate"@,
        ],
{
    let flags = known_flag_texts();
    assert(flags[0] == "--source"@ && flags[1] == "--static"@ && flags[2] == "--sweep-ms"@
        && flags[3] == "--center-freq"@ && flags[4] == "--sample-rate"@);
    assert(flags.to_set() =~= set![
        "--source"@,
        "--static"@,
        "--sweep-ms"@,
        "--center-freq"@,
        "--sample-rate"@,
    ]);
}

/// An entry's model has the entry's fields, and the model of a list its entries, one for
/// one.
pub proof fn law_entries_are_modelled_by_their_fields<P>(entries: Seq<SweepEntry<P>>, k: int)
    requires
        0 <= k < entries.len(),
    ensures
        sweep_views(entries).len() == entries.len(),
        sweep_views(entries)[k].kind == entries[k].kind@,
        sweep_views(entries)[k].bins == entries[k].bins,
        sweep_views(entries)[k].samples == entries[k].samples,
        sweep_views(entries)[k].intensity == entries[k].intensity@,
{
}

/// A batch is answered with the number of its rows and of the rows held once it is taken,
/// and every row of it is fanned out, in order, as it is served.
pub proof fn law_every_row_of_a_batch_is_fanned_out<P, F>(
    state: BridgeState<P, F>,
    rows: Seq<RowDto<P>>,
    meta: IngestMeta<F>,
    now: u128,
    ack: IngestAck,
    fan_out: Seq<SweepEntry<P>>,
    k: int,
)
    requires
        state.wf(),
        state.answers_batch(rows, meta, now, ack, fan_out),
    ensures
        ack.accepted == rows.len(),
        ack.ring_len == if state.ring.len() + rows.len() < 512 {
            state.ring.len() + rows.len()
        } else {
            512
        },
        fan_out.len() == rows.len(),
        0 <= k < rows.len() ==> {
            &&& fan_out[k].kind@ == "sweep"@
            &&& fan_out[k].samples == rows[k].sample
            &&& fan_out[k].bins == rows[k].bins@.len()
            &&& fan_out[k].intensity@ == rows[k].bins@
        },
{
    law_rows_are_served_as_they_are(rows, 0, Seq::<P>::empty(), k);
    law_newest_are_the_last(state.ring + sweeps_of(rows), MAX_CHUNKS as nat);
    assert(sweep_views(fan_out).len() == fan_out.len());
    if 0 <= k < rows.len() {
        law_entries_are_modelled_by_their_fields(fan_out, k);
    }
}

} // verus!
