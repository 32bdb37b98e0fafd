//! Shared types for the hop from the consumer to the web tier, plus the
//! latest-wins publish buffer that keeps the receive loop off the network path.
//!
//! The consumer analyses every packet but cannot publish every row: at 2 MS/s with
//! a 4096-point transform and a hop of 1024 samples there are about 1953 rows per
//! second of 4096 bins, far more than a waterfall display or a LAN hop wants. Rows
//! are therefore queued in a bounded, latest-wins buffer and drained on a fixed
//! cadence. Drops are always counted, never silent.
use std::collections::VecDeque;
use vstd::prelude::*;

verus! {

/// One spectrogram row on the wire. `P` is the power of one bin, in dBFS.
#[derive(Debug, Clone, PartialEq)]
pub struct RowDto<P> {
    /// Absolute index of this frame's first sample across the whole stream.
    pub sample: u64,
    /// Power per bin.
    pub bins: Vec<P>,
}

/// Metadata the consumer reports alongside its rows. `F` is a frequency in Hz.
#[derive(Debug, Clone, PartialEq)]
pub struct IngestMeta<F> {
    /// Which producer this batch came from: `"vita49"` in the deployed path.
    pub source: String,
    /// RF centre frequency in Hz.
    pub center_hz: F,
    /// Sample rate in Hz.
    pub sample_rate_hz: F,
    /// Unwrapped last sample counter seen by the receiver.
    pub last_sample_counter: u64,
    /// Detected sample-counter discontinuities.
    pub gaps: u64,
    /// Samples never delivered across those gaps.
    pub missing_samples: u64,
    /// Packets received since start.
    pub packets_received: u64,
    /// Packets that failed to parse.
    pub parse_errors: u64,
    /// Packets dropped because the analysis channel was full (no blocking).
    pub stft_dropped: u64,
    /// Rows dropped by the publish buffer.
    pub publish_dropped: u64,
    /// Effective receive buffer the kernel granted.
    pub rcvbuf_bytes: u64,
}

impl<F: Copy> IngestMeta<F> {
    /// The same report once more.
    pub fn copied(&self) -> (meta: IngestMeta<F>)
        ensures
            meta == *self,
    {
        IngestMeta {
            source: self.source.clone(),
            center_hz: self.center_hz,
            sample_rate_hz: self.sample_rate_hz,
            last_sample_counter: self.last_sample_counter,
            gaps: self.gaps,
            missing_samples: self.missing_samples,
            packets_received: self.packets_received,
            parse_errors: self.parse_errors,
            stft_dropped: self.stft_dropped,
            publish_dropped: self.publish_dropped,
            rcvbuf_bytes: self.rcvbuf_bytes,
        }
    }
}

/// Body of `POST /ingest`.
#[derive(Debug, Clone, PartialEq)]
pub struct IngestRequest<P, F> {
    pub rows: Vec<RowDto<P>>,
    pub meta: IngestMeta<F>,
}

/// Model of a [`RowBatch`]: the rows held, oldest first.
pub struct BatchState<P> {
    pub rows: Seq<RowDto<P>>,
    pub capacity: nat,
    pub dropped: nat,
}

impl<P> BatchState<P> {
    /// There is room for a row, and never more rows than the capacity.
    pub open spec fn wf(self) -> bool {
        0 < self.capacity && self.rows.len() <= self.capacity
    }

    /// A row more would push the oldest one out.
    pub open spec fn full(self) -> bool {
        self.rows.len() == self.capacity
    }

    /// The state after queueing a row: the newest rows that fit.
    pub open spec fn pushed(self, row: RowDto<P>) -> BatchState<P> {
        if self.full() {
            BatchState {
                rows: self.rows.drop_first().push(row),
                dropped: self.dropped + 1,
                ..self
            }
        } else {
            BatchState { rows: self.rows.push(row), ..self }
        }
    }

    /// The state after taking everything out.
    pub open spec fn drained(self) -> BatchState<P> {
        BatchState { rows: Seq::empty(), ..self }
    }

    /// The drop count has room for queueing `count` rows.
    pub open spec fn can_push(self, count: nat) -> bool {
        self.rows.len() + count > self.capacity ==> self.dropped + self.rows.len() + count
            - self.capacity <= u64::MAX
    }
}

/// Latest-wins bounded batch of rows awaiting publication.
///
/// When full, the oldest row is discarded so that the newest data always survives
/// (a waterfall that lags behind is worse than one that skips).
#[derive(Debug)]
pub struct RowBatch<P> {
    rows: VecDeque<RowDto<P>>,
    capacity: usize,
    dropped: u64,
}

impl<P> View for RowBatch<P> {
    type V = BatchState<P>;

    closed spec fn view(&self) -> BatchState<P> {
        BatchState {
            rows: self.rows@,
            capacity: self.capacity as nat,
            dropped: self.dropped as nat,
        }
    }
}

impl<P> RowBatch<P> {
    /// `capacity` is the maximum number of rows held between publications.
    pub fn new(capacity: usize) -> (batch: Self)
        requires
            capacity > 0,
        ensures
            batch@ == (BatchState {
                rows: Seq::<RowDto<P>>::empty(),
                capacity: capacity as nat,
                dropped: 0,
            }),
            batch@.wf(),
    {
        RowBatch { rows: VecDeque::with_capacity(capacity), capacity, dropped: 0 }
    }

    /// The drop count is held in 64 bits.
    pub proof fn lemma_drop_count_fits(&self)
        ensures
            self@.dropped <= u64::MAX,
    {
    }

    /// Queues a row, evicting the oldest if at capacity.
    pub fn push(&mut self, row: RowDto<P>)
        requires
            old(self)@.wf(),
            old(self)@.can_push(1),
        ensures
            final(self)@ == old(self)@.pushed(row),
            final(self)@.wf(),
    {
        if self.rows.len() == self.capacity {
            let _ = self.rows.pop_front();
            self.dropped += 1;
        }
        self.rows.push_back(row);
        assert(self@.rows =~= old(self)@.pushed(row).rows);
    }

    /// Takes everything queued, oldest first.
    pub fn drain(&mut self) -> (rows: Vec<RowDto<P>>)
        requires
            old(self)@.wf(),
        ensures
            rows@ == old(self)@.rows,
            final(self)@ == old(self)@.drained(),
            final(self)@.wf(),
    {
        let mut rows: Vec<RowDto<P>> = Vec::new();
        loop
            invariant
                rows@ + self.rows@ == old(self).rows@,
                self.capacity == old(self).capacity,
                self.dropped == old(self).dropped,
            ensures
                self.rows@.len() == 0,
            decreases self.rows@.len(),
        {
            match self.rows.pop_front() {
                Some(row) => rows.push(row),
                None => break,
            }
        }
        assert(rows@ =~= old(self).rows@);
        assert(self.rows@ =~= Seq::empty());
        rows
    }

    /// Whether the drop count has room for queueing `count` rows.
    pub fn can_push(&self, count: usize) -> (room: bool)
        requires
            self@.wf(),
        ensures
            room == self@.can_push(count as nat),
    {
        let held: u128 = self.rows.len() as u128 + count as u128;
        let capacity: u128 = self.capacity as u128;
        held <= capacity || self.dropped as u128 + (held - capacity) <= u64::MAX as u128
    }

    pub fn len(&self) -> (len: usize)
        ensures
            len == self@.rows.len(),
    {
        self.rows.len()
    }

    pub fn is_empty(&self) -> (empty: bool)
        ensures
            empty == (self@.rows.len() == 0),
    {
        self.rows.len() == 0
    }

    /// Rows evicted before publication.
    pub fn dropped(&self) -> (count: u64)
        ensures
            count == self@.dropped,
    {
        self.dropped
    }
}

// ---------------- Laws ----------------

/// The newest `count` elements of a sequence, or all of it if it is shorter.
pub open spec fn newest<T>(items: Seq<T>, count: nat) -> Seq<T> {
    if items.len() <= count {
        items
    } else {
        items.skip(items.len() - count)
    }
}

/// The newest elements of a sequence that grew at its end are found among its
/// newest elements before and those that came.
pub proof fn lemma_newest_of_newest<T>(items: Seq<T>, more: Seq<T>, count: nat)
    ensures
        newest(newest(items, count) + more, count) == newest(items + more, count),
{
    assert(newest(newest(items, count) + more, count) =~= newest(items + more, count));
}

/// The state after queueing rows one after the other.
pub open spec fn pushed_all<P>(state: BatchState<P>, rows: Seq<RowDto<P>>) -> BatchState<P>
    decreases rows.len(),
{
    if rows.len() == 0 {
        state
    } else {
        pushed_all(state, rows.drop_last()).pushed(rows.last())
    }
}

/// The latest rows win, in order: whatever was queued, the batch holds the newest
/// rows that fit, and every row is either held or counted as dropped.
pub proof fn law_latest_rows_win<P>(state: BatchState<P>, rows: Seq<RowDto<P>>)
    requires
        state.wf(),
    ensures
        ({
            let after = pushed_all(state, rows);
            &&& after.wf()
            &&& after.capacity == state.capacity
            &&& after.rows == newest(state.rows + rows, state.capacity)
            &&& after.rows.len() + after.dropped == state.rows.len() + state.dropped + rows.len()
        }),
    decreases rows.len(),
{
    if rows.len() == 0 {
        assert(state.rows + rows =~= state.rows);
    } else {
        let front = rows.drop_last();
        let before = pushed_all(state, front);
        law_latest_rows_win(state, front);
        assert(before.pushed(rows.last()).rows =~= newest(before.rows.push(rows.last()), state.capacity));
        lemma_newest_of_newest(state.rows + front, seq![rows.last()], state.capacity);
        assert(before.rows.push(rows.last()) =~= before.rows + seq![rows.last()]);
        assert(state.rows + front + seq![rows.last()] =~= state.rows + rows);
    }
}

/// Queueing row by row keeps the drop count in range exactly where it has room for
/// all of them.
pub proof fn law_room_for_all_is_room_for_each<P>(state: BatchState<P>, rows: Seq<RowDto<P>>)
    requires
        state.wf(),
        state.can_push(rows.len()),
        state.dropped <= u64::MAX,
    ensures
        forall|k: int|
            0 <= k < rows.len() ==> (#[trigger] pushed_all(state, rows.take(k))).can_push(1),
{
    assert forall|k: int| 0 <= k < rows.len() implies (#[trigger] pushed_all(
        state,
        rows.take(k),
    )).can_push(1) by {
        law_latest_rows_win(state, rows.take(k));
    }
}

/// Draining empties the batch and leaves the drop count: the count survives.
pub proof fn law_drop_count_survives_a_drain<P>(state: BatchState<P>)
    requires
        state.wf(),
    ensures
        state.drained().wf(),
        state.drained().rows.len() == 0,
        state.drained().dropped == state.dropped,
        state.drained().capacity == state.capacity,
{
}

// ---------------- What the operations mean ----------------

/// The newest elements are the last ones, in their order: as many as asked for, or all
/// there are.
pub proof fn law_newest_are_the_last<T>(items: Seq<T>, count: nat)
    ensures
        newest(items, count).len() == if items.len() < count {
            items.len()
        } else {
            count
        },
        forall|i: int|
            0 <= i < newest(items, count).len() ==> #[trigger] newest(items, count)[i]
                == items[items.len() - newest(items, count).len() + i],
{
}

/// Queueing a row puts it at the end. A batch that is full loses its oldest row, and
/// only then is one counted as dropped; the others stay in their order.
pub proof fn law_only_a_full_batch_drops_its_oldest_row<P>(state: BatchState<P>, row: RowDto<P>)
    requires
        state.wf(),
    ensures
        ({
            let after = state.pushed(row);
            let full = state.rows.len() == state.capacity;
            &&& after.rows.last() == row
            &&& after.rows.len() == state.rows.len() + if full {
                0int
            } else {
                1
            }
            &&& after.dropped == state.dropped + if full {
                1int
            } else {
                0
            }
            &&& after.capacity == state.capacity
            &&& forall|i: int|
                0 <= i < after.rows.len() - 1 ==> #[trigger] after.rows[i] == state.rows[i + if full {
                    1int
                } else {
                    0
                }]
        }),
{
}

/// Whatever was queued, the batch holds the last rows of all, up to its capacity, in the
/// order they came, and has dropped exactly the others.
pub proof fn law_the_last_rows_are_held_and_the_others_dropped<P>(
    state: BatchState<P>,
    rows: Seq<RowDto<P>>,
)
    requires
        state.wf(),
    ensures
        ({
            let all = state.rows + rows;
            let after = pushed_all(state, rows);
            let held = if all.len() < state.capacity {
                all.len()
            } else {
                state.capacity
            };
            &&& after.rows.len() == held
            &&& forall|i: int| 0 <= i < held ==> #[trigger] after.rows[i] == all[all.len() - held + i]
            &&& after.dropped == state.dropped + all.len() - held
        }),
{
    law_latest_rows_win(state, rows);
    law_newest_are_the_last(state.rows + rows, state.capacity);
}

/// There is room for rows exactly where the drops that they cause fit 64 bits.
pub proof fn law_room_is_room_for_the_drops<P>(state: BatchState<P>, rows: Seq<RowDto<P>>)
    requires
        state.wf(),
        state.dropped <= 0xFFFF_FFFF_FFFF_FFFF,
    ensures
        state.can_push(rows.len()) <==> pushed_all(state, rows).dropped <= 0xFFFF_FFFF_FFFF_FFFF,
{
    law_the_last_rows_are_held_and_the_others_dropped(state, rows);
}

} // verus!
