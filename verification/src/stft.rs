//! Framing of a complex baseband stream into overlapping transform windows.
//!
//! Samples arrive as interleaved signed I/Q. A window of `fft_size` samples is
//! cut out every `hop` samples, so consecutive windows overlap by
//! `fft_size - hop`. The transform itself works on floating-point numbers and is
//! passed in; what is proved here is which samples each transform sees, in which
//! order the results come out, and that no sample is skipped or seen out of turn.

use crate::parallel::map_indices;
use vstd::prelude::*;
use vstd::slice::slice_subrange;

verus! {

/// Samples per transform window.
pub const FFT_SIZE: usize = 4096;

/// Samples between the starts of consecutive windows (75% overlap).
pub const HOP_SIZE: usize = 1024;

/// One complex baseband sample, as the integers it arrived as.
#[derive(Debug, Clone, Copy, PartialEq, Eq, Structural)]
pub struct Iq {
    /// In-phase component.
    pub re: i16,
    /// Quadrature component.
    pub im: i16,
}

// ---------------- Interleaved bytes ----------------

/// The samples held by interleaved signed 8-bit I/Q; an odd last byte is no sample.
pub open spec fn decoded(bytes: Seq<i8>) -> Seq<Iq> {
    Seq::new(
        bytes.len() / 2,
        |k: int| Iq { re: bytes[2 * k] as i16, im: bytes[2 * k + 1] as i16 },
    )
}

/// `x` brought into the range of a signed byte.
pub open spec fn clamp_i8(x: i16) -> i8 {
    if x < -128 {
        -128i8
    } else if x > 127 {
        127i8
    } else {
        x as i8
    }
}

/// The interleaved signed 8-bit I/Q that holds `samples`, each component clamped.
pub open spec fn encoded(samples: Seq<Iq>) -> Seq<i8> {
    Seq::new(
        samples.len() * 2,
        |j: int| if j % 2 == 0 { clamp_i8(samples[j / 2].re) } else { clamp_i8(samples[j / 2].im) },
    )
}

/// Decodes interleaved signed 8-bit I/Q.
pub fn bytes_to_complex(bytes: &[i8]) -> (samples: Vec<Iq>)
    ensures
        samples@ == decoded(bytes@),
{
    let count: usize = bytes.len() / 2;
    let mut samples: Vec<Iq> = Vec::with_capacity(count);
    let mut k: usize = 0;
    while k < count
        invariant
            k <= count,
            count == bytes.len() / 2,
            samples@ == decoded(bytes@).take(k as int),
        decreases count - k,
    {
        samples.push(Iq { re: bytes[2 * k] as i16, im: bytes[2 * k + 1] as i16 });
        assert(samples@ =~= decoded(bytes@).take(k + 1));
        k += 1;
    }
    assert(decoded(bytes@).take(count as int) =~= decoded(bytes@));
    samples
}

/// The samples held by interleaved I/Q components; an odd last one is no sample.
pub open spec fn paired(components: Seq<i16>) -> Seq<Iq> {
    Seq::new(
        components.len() / 2,
        |k: int| Iq { re: components[2 * k], im: components[2 * k + 1] },
    )
}

fn pair_components(components: &[i16]) -> (samples: Vec<Iq>)
    ensures
        samples@ == paired(components@),
{
    let count: usize = components.len() / 2;
    let mut samples: Vec<Iq> = Vec::with_capacity(count);
    let mut k: usize = 0;
    while k < count
        invariant
            k <= count,
            count == components.len() / 2,
            samples@ == paired(components@).take(k as int),
        decreases count - k,
    {
        samples.push(Iq { re: components[2 * k], im: components[2 * k + 1] });
        assert(samples@ =~= paired(components@).take(k + 1));
        k += 1;
    }
    assert(paired(components@).take(count as int) =~= paired(components@));
    samples
}

fn clamp_component(x: i16) -> (y: i8)
    ensures
        y == clamp_i8(x),
{
    if x < -128 {
        -128i8
    } else if x > 127 {
        127i8
    } else {
        x as i8
    }
}

/// Encodes samples as interleaved signed 8-bit I/Q, clamping each component.
pub fn complex_vec_to_bytes(complex_samples: &[Iq]) -> (bytes: Vec<i8>)
    ensures
        bytes@ == encoded(complex_samples@),
{
    let mut bytes: Vec<i8> = Vec::new();
    let count: usize = complex_samples.len();
    let mut k: usize = 0;
    while k < count
        invariant
            k <= count,
            count == complex_samples@.len(),
            bytes@ == encoded(complex_samples@).take(2 * k),
        decreases count - k,
    {
        let sample: Iq = complex_samples[k];
        bytes.push(clamp_component(sample.re));
        bytes.push(clamp_component(sample.im));
        assert((2 * k) / 2 == k && (2 * k + 1) / 2 == k);
        assert(bytes@ =~= encoded(complex_samples@).take(2 * (k + 1)));
        k += 1;
    }
    assert(encoded(complex_samples@).take(2 * count) =~= encoded(complex_samples@));
    bytes
}

/// A sample whose components fit a signed byte.
pub open spec fn fits_i8(sample: Iq) -> bool {
    -128 <= sample.re <= 127 && -128 <= sample.im <= 127
}

/// Encoding then decoding gives every sample back with its components clamped,
/// hence unchanged where they fit a signed byte.
pub proof fn law_bytes_round_trip(samples: Seq<Iq>)
    ensures
        decoded(encoded(samples)).len() == samples.len(),
        forall|k: int|
            0 <= k < samples.len() ==> #[trigger] decoded(encoded(samples))[k] == (Iq {
                re: clamp_i8(samples[k].re) as i16,
                im: clamp_i8(samples[k].im) as i16,
            }),
        (forall|k: int| 0 <= k < samples.len() ==> fits_i8(#[trigger] samples[k]))
            ==> decoded(encoded(samples)) == samples,
{
    let back = decoded(encoded(samples));
    assert forall|k: int| 0 <= k < samples.len() implies #[trigger] back[k] == (Iq {
        re: clamp_i8(samples[k].re) as i16,
        im: clamp_i8(samples[k].im) as i16,
    }) by {
        assert((2 * k) / 2 == k && (2 * k + 1) / 2 == k);
    }
    if forall|k: int| 0 <= k < samples.len() ==> fits_i8(#[trigger] samples[k]) {
        assert forall|k: int| 0 <= k < samples.len() implies #[trigger] back[k] == samples[k] by {
            assert(fits_i8(samples[k]));
        }
        assert(back =~= samples);
    }
}

/// Decoding is concatenation-preserving, as long as the first part holds whole
/// samples.
pub proof fn law_decoding_splits_at_whole_samples(first: Seq<i8>, second: Seq<i8>)
    requires
        first.len() % 2 == 0,
    ensures
        decoded(first + second) == decoded(first) + decoded(second),
{
    let joined = decoded(first + second);
    let parts = decoded(first) + decoded(second);
    assert(joined.len() == parts.len());
    assert forall|k: int| 0 <= k < joined.len() implies joined[k] == parts[k] by {
        if k < decoded(first).len() {
            assert((first + second)[2 * k] == first[2 * k]);
            assert((first + second)[2 * k + 1] == first[2 * k + 1]);
        } else {
            let m = k - decoded(first).len();
            assert(2 * k == first.len() + 2 * m);
            assert((first + second)[2 * k] == second[2 * m]);
            assert((first + second)[2 * k + 1] == second[2 * m + 1]);
        }
    }
    assert(joined =~= parts);
}

// ---------------- Frame geometry ----------------

/// How many whole windows fit into `samples` samples.
pub open spec fn frame_count(samples: nat, fft_size: nat, hop: nat) -> nat {
    if samples < fft_size {
        0
    } else {
        ((samples - fft_size) / (hop as int) + 1) as nat
    }
}

/// The `k`-th window of a sample sequence.
pub open spec fn window(samples: Seq<Iq>, k: int, fft_size: nat, hop: nat) -> Seq<Iq> {
    samples.subrange(k * hop, k * hop + fft_size)
}

/// One window together with the absolute index of its first sample.
pub struct Frame {
    pub sample: int,
    pub window: Seq<Iq>,
}

/// All whole windows of `samples`, whose first sample has absolute index `first`.
pub open spec fn frames(samples: Seq<Iq>, first: int, fft_size: nat, hop: nat) -> Seq<Frame> {
    Seq::new(
        frame_count(samples.len(), fft_size, hop),
        |k: int| Frame { sample: first + k * hop, window: window(samples, k, fft_size, hop) },
    )
}

/// What remains of `samples` once every whole window has been emitted: the
/// overlap that the next window starts with.
pub open spec fn carried(samples: Seq<Iq>, fft_size: nat, hop: nat) -> Seq<Iq> {
    samples.skip((frame_count(samples.len(), fft_size, hop) * hop) as int)
}

/// Where the whole windows of a sequence begin and end.
pub proof fn lemma_frame_bounds(samples: nat, fft_size: nat, hop: nat)
    requires
        0 < hop <= fft_size,
    ensures
        ({
            let n = frame_count(samples, fft_size, hop);
            &&& n * hop <= samples
            &&& samples - n * hop < fft_size
            &&& samples >= fft_size ==> samples - n * hop >= fft_size - hop
            &&& samples < fft_size ==> n == 0
            &&& forall|k: int| 0 <= k < n ==> 0 <= #[trigger] (k * hop) && k * hop + fft_size <= samples
        }),
{
    let n = frame_count(samples, fft_size, hop);
    let h = hop as int;
    if samples >= fft_size {
        let spare = samples - fft_size;
        let q = spare / h;
        assert(q * h <= spare < q * h + h) by (nonlinear_arith)
            requires
                h > 0,
                q == spare / h,
        ;
        assert((q + 1) * h == q * h + h) by (nonlinear_arith);
        assert(n * hop == (q + 1) * h);
        assert forall|k: int| 0 <= k < n implies 0 <= #[trigger] (k * hop) && k * hop + fft_size
            <= samples by {
            assert(0 <= k * h <= q * h) by (nonlinear_arith)
                requires
                    0 <= k <= q,
                    h > 0,
            ;
        }
    } else {
        assert(n * hop == 0) by (nonlinear_arith)
            requires
                n == 0,
        ;
    }
}

/// A window number is the frame count exactly where one window fewer still fits
/// and this one no longer does.
pub proof fn lemma_frame_count_unique(samples: nat, fft_size: nat, hop: nat, n: nat)
    requires
        0 < hop <= fft_size,
        n * hop + fft_size > samples,
        n > 0 ==> (n - 1) * hop + fft_size <= samples,
    ensures
        n == frame_count(samples, fft_size, hop),
{
    let m = frame_count(samples, fft_size, hop);
    lemma_frame_bounds(samples, fft_size, hop);
    if n < m {
        assert((n as int) * hop + fft_size <= samples);
    }
    if m < n {
        assert(m * hop <= (n - 1) * hop) by (nonlinear_arith)
            requires
                m <= n - 1,
        ;
    }
}

// ---------------- Incremental streaming ----------------

/// One spectrogram row: the power of every bin of one window.
#[derive(Debug, Clone)]
pub struct Row<P> {
    /// Absolute index of the window's first sample across the whole stream.
    pub sample: u64,
    /// Power per bin.
    pub bins: Vec<P>,
}

/// `backend` accepts every window of `len` samples.
pub open spec fn accepts<R, F: Fn(&[Iq]) -> R>(backend: F, len: nat) -> bool {
    forall|w: &[Iq]| w@.len() == len ==> #[trigger] call_requires(backend, (w,))
}

/// `result` is what `backend` gave for exactly the samples of `window`.
pub open spec fn transformed<R, F: Fn(&[Iq]) -> R>(
    backend: F,
    window: Seq<Iq>,
    result: R,
) -> bool {
    exists|w: &[Iq]| w@ == window && #[trigger] call_ensures(backend, (w,), result)
}

/// `rows` are the transforms of `frames`, one for one and in their order.
pub open spec fn rows_of<P, F: Fn(&[Iq]) -> Vec<P>>(
    backend: F,
    frames: Seq<Frame>,
    rows: Seq<Row<P>>,
) -> bool {
    &&& rows.len() == frames.len()
    &&& forall|k: int|
        0 <= k < rows.len() ==> (#[trigger] rows[k]).sample == frames[k].sample && transformed(
            backend,
            frames[k].window,
            rows[k].bins,
        )
}

/// Model of the framing state of a [`StftProcessor`].
pub struct StftState {
    pub fft_size: nat,
    pub hop: nat,
    /// Samples received that some later window still needs.
    pub pending: Seq<Iq>,
    /// Absolute index of the first pending sample.
    pub next_sample: nat,
}

impl StftState {
    /// The geometry is usable, and no whole window is left unprocessed.
    pub open spec fn wf(self) -> bool {
        0 < self.hop <= self.fft_size && self.pending.len() < self.fft_size
    }

    /// The windows completed by feeding `samples`.
    pub open spec fn completed(self, samples: Seq<Iq>) -> Seq<Frame> {
        frames(self.pending + samples, self.next_sample as int, self.fft_size, self.hop)
    }

    /// The state after feeding `samples`.
    pub open spec fn fed(self, samples: Seq<Iq>) -> StftState {
        let all = self.pending + samples;
        StftState {
            pending: carried(all, self.fft_size, self.hop),
            next_sample: self.next_sample + frame_count(all.len(), self.fft_size, self.hop)
                * self.hop,
            ..self
        }
    }

    /// The position counter can take `count` more samples.
    pub open spec fn has_room(self, count: nat) -> bool {
        self.next_sample + frame_count(self.pending.len() + count, self.fft_size, self.hop)
            * self.hop <= u64::MAX
    }
}

/// Incremental short-time transform with overlap carry-over.
///
/// Keeps the overlap across calls, so a continuous stream is framed at `hop`
/// spacing however it is cut into calls, and gives one [`Row`] per completed
/// window. `F` is the transform: samples of one window in, power per bin out.
pub struct StftProcessor<F> {
    fft_size: usize,
    hop: usize,
    backend: F,
    pending: Vec<Iq>,
    next_sample: u64,
}

impl<F> View for StftProcessor<F> {
    type V = StftState;

    closed spec fn view(&self) -> StftState {
        StftState {
            fft_size: self.fft_size as nat,
            hop: self.hop as nat,
            pending: self.pending@,
            next_sample: self.next_sample as nat,
        }
    }
}

impl<F> StftProcessor<F> {
    /// The transform applied to every window.
    pub closed spec fn transform(self) -> F {
        self.backend
    }

    /// A processor that has seen nothing yet.
    pub fn new(fft_size: usize, hop: usize, backend: F) -> (processor: Self)
        requires
            0 < hop <= fft_size,
        ensures
            processor@ == (StftState {
                fft_size: fft_size as nat,
                hop: hop as nat,
                pending: Seq::empty(),
                next_sample: 0,
            }),
            processor@.wf(),
            processor.transform() == backend,
    {
        StftProcessor { fft_size, hop, backend, pending: Vec::with_capacity(fft_size), next_sample: 0 }
    }

    pub fn fft_size(&self) -> (fft_size: usize)
        ensures
            fft_size == self@.fft_size,
    {
        self.fft_size
    }

    pub fn hop(&self) -> (hop: usize)
        ensures
            hop == self@.hop,
    {
        self.hop
    }

    /// Absolute index of the next sample to be consumed.
    pub fn samples_consumed(&self) -> (count: u64)
        ensures
            count == self@.next_sample,
    {
        self.next_sample
    }

    /// Whether the position counter can take `count` more samples.
    pub fn can_push(&self, count: usize) -> (room: bool)
        requires
            self@.wf(),
        ensures
            room == self@.has_room(count as nat),
    {
        let total: u128 = self.pending.len() as u128 + count as u128;
        let fft_size: u128 = self.fft_size as u128;
        let hop: u128 = self.hop as u128;
        proof {
            lemma_frame_bounds(total as nat, self@.fft_size, self@.hop);
        }
        if total < fft_size {
            assert(0 * hop == 0);
            return true;
        }
        let windows: u128 = (total - fft_size) / hop + 1;
        assert(windows == frame_count(total as nat, self@.fft_size, self@.hop));
        self.next_sample as u128 + windows * hop <= u64::MAX as u128
    }

    /// Feeds samples and returns the rows they completed, in time order.
    fn push_samples<P>(&mut self, samples: &[Iq]) -> (rows: Vec<Row<P>>) where
        F: Fn(&[Iq]) -> Vec<P>,

        requires
            old(self)@.wf(),
            old(self)@.has_room(samples@.len()),
            accepts(old(self).transform(), old(self)@.fft_size),
        ensures
            final(self)@ == old(self)@.fed(samples@),
            final(self)@.wf(),
            final(self).transform() == old(self).transform(),
            rows_of(old(self).transform(), old(self)@.completed(samples@), rows@),
    {
        let ghost before = self@;
        let ghost all = self.pending@ + samples@;
        let fft_size: usize = self.fft_size;
        let hop: usize = self.hop;
        self.pending.extend_from_slice(samples);
        assert(self.pending@ =~= all);
        let total: usize = self.pending.len();
        let mut rows: Vec<Row<P>> = Vec::new();
        let mut start: usize = 0;
        let mut position: u64 = self.next_sample;
        let ghost count = frame_count(all.len(), before.fft_size, before.hop);
        proof {
            lemma_frame_bounds(all.len(), before.fft_size, before.hop);
            assert(0 * hop == 0);
        }
        while total - start >= fft_size
            invariant
                before.wf(),
                fft_size == before.fft_size,
                hop == before.hop,
                total == all.len(),
                self.pending@ == all,
                self.backend == old(self).backend,
                self.fft_size == fft_size,
                self.hop == hop,
                accepts(self.backend, before.fft_size),
                count == frame_count(all.len(), before.fft_size, before.hop),
                before.next_sample + count * hop <= u64::MAX,
                start <= total,
                start == rows@.len() * hop,
                position == before.next_sample + start,
                rows@.len() > 0 ==> (rows@.len() - 1) * hop + fft_size <= total,
                forall|k: int|
                    0 <= k < rows@.len() ==> (#[trigger] rows@[k]).sample == before.next_sample + k
                        * hop && transformed(
                        self.backend,
                        window(all, k, before.fft_size, before.hop),
                        rows@[k].bins,
                    ),
            decreases total - start,
        {
            let ghost k = rows@.len() as int;
            proof {
                lemma_frame_bounds(all.len(), before.fft_size, before.hop);
                assert((k + 1) * hop == k * hop + hop) by (nonlinear_arith);
                if k >= count {
                    assert(k * hop >= count * hop) by (nonlinear_arith)
                        requires
                            k >= count,
                    ;
                }
                assert((k + 1) * hop <= count * hop) by (nonlinear_arith)
                    requires
                        k + 1 <= count,
                ;
            }
            let current: &[Iq] = slice_subrange(self.pending.as_slice(), start, start + fft_size);
            let backend = &self.backend;
            let bins: Vec<P> = backend(current);
            rows.push(Row { sample: position, bins });
            assert(transformed(
                self.backend,
                window(all, k, before.fft_size, before.hop),
                rows@[k].bins,
            ));
            start += hop;
            position += hop as u64;
        }
        proof {
            lemma_frame_count_unique(all.len(), before.fft_size, before.hop, rows@.len());
        }
        let rest: Vec<Iq> = self.pending.split_off(start);
        self.pending = rest;
        self.next_sample = position;
        assert(self.pending@ =~= carried(all, before.fft_size, before.hop));
        rows
    }

    /// Feeds interleaved signed 8-bit I/Q and returns the rows it completed, in
    /// time order. An odd last byte is dropped.
    pub fn push_bytes<P>(&mut self, iq: &[i8]) -> (rows: Vec<Row<P>>) where
        F: Fn(&[Iq]) -> Vec<P>,

        requires
            old(self)@.wf(),
            old(self)@.has_room(iq@.len() / 2),
            accepts(old(self).transform(), old(self)@.fft_size),
        ensures
            final(self)@ == old(self)@.fed(decoded(iq@)),
            final(self)@.wf(),
            final(self).transform() == old(self).transform(),
            rows_of(old(self).transform(), old(self)@.completed(decoded(iq@)), rows@),
    {
        let samples: Vec<Iq> = bytes_to_complex(iq);
        self.push_samples(samples.as_slice())
    }

    /// Feeds interleaved signed 16-bit I/Q at full resolution and returns the rows
    /// it completed, in time order. An odd last component is dropped.
    pub fn push_sc16<P>(&mut self, iq: &[i16]) -> (rows: Vec<Row<P>>) where
        F: Fn(&[Iq]) -> Vec<P>,

        requires
            old(self)@.wf(),
            old(self)@.has_room(iq@.len() / 2),
            accepts(old(self).transform(), old(self)@.fft_size),
        ensures
            final(self)@ == old(self)@.fed(paired(iq@)),
            final(self)@.wf(),
            final(self).transform() == old(self).transform(),
            rows_of(old(self).transform(), old(self)@.completed(paired(iq@)), rows@),
    {
        let samples: Vec<Iq> = pair_components(iq);
        self.push_samples(samples.as_slice())
    }
}

// ---------------- Laws of the stream ----------------

impl StftState {
    /// Feeding keeps the state usable.
    pub proof fn law_feeding_keeps_wf(self, samples: Seq<Iq>)
        requires
            self.wf(),
        ensures
            self.fed(samples).wf(),
    {
        lemma_frame_bounds((self.pending + samples).len(), self.fft_size, self.hop);
    }

    /// Feeding no sample completes no window and leaves the state as it was.
    pub proof fn law_feeding_nothing_changes_nothing(self)
        requires
            self.wf(),
        ensures
            self.fed(Seq::empty()) == self,
            self.completed(Seq::empty()) == Seq::<Frame>::empty(),
    {
        let all = self.pending + Seq::<Iq>::empty();
        assert(all =~= self.pending);
        assert(frame_count(all.len(), self.fft_size, self.hop) * self.hop == 0)
            by (nonlinear_arith)
            requires
                frame_count(all.len(), self.fft_size, self.hop) == 0,
        ;
        assert(self.fed(Seq::empty()).pending =~= self.pending);
        assert(self.completed(Seq::empty()) =~= Seq::<Frame>::empty());
    }

    /// No sample is lost or counted twice: samples consumed plus samples pending
    /// grow by exactly the samples fed.
    pub proof fn law_every_sample_is_accounted_for(self, samples: Seq<Iq>)
        requires
            self.wf(),
        ensures
            self.fed(samples).next_sample + self.fed(samples).pending.len() == self.next_sample
                + self.pending.len() + samples.len(),
    {
        lemma_frame_bounds((self.pending + samples).len(), self.fft_size, self.hop);
    }

    /// Feeding in two calls gives the windows that one call gives, in the same
    /// order, and leaves the same state.
    pub proof fn law_feeding_twice_is_feeding_once(self, first: Seq<Iq>, second: Seq<Iq>)
        requires
            self.wf(),
        ensures
            self.completed(first) + self.fed(first).completed(second) == self.completed(
                first + second,
            ),
            self.fed(first).fed(second) == self.fed(first + second),
    {
        let fft_size = self.fft_size;
        let hop = self.hop;
        let head = self.pending + first;
        let all = self.pending + (first + second);
        let mid = self.fed(first);
        let tail = mid.pending + second;
        let n = frame_count(head.len(), fft_size, hop);
        let m = frame_count(tail.len(), fft_size, hop);
        let h = hop as int;
        lemma_frame_bounds(head.len(), fft_size, hop);
        lemma_frame_bounds(tail.len(), fft_size, hop);
        assert(all =~= head + second);
        assert(tail =~= all.skip((n * hop) as int));
        assert((n + m) * h == n * h + m * h) by (nonlinear_arith);
        assert(n * hop == n * h && m * hop == m * h);
        if n + m > 0 {
            if m > 0 {
                assert((m - 1) * hop + fft_size <= tail.len());
                assert((n + m - 1) * h == n * h + (m - 1) * h) by (nonlinear_arith);
            } else {
                assert((n - 1) * hop + fft_size <= head.len());
            }
        }
        assert((n + m) * hop + fft_size > all.len());
        lemma_frame_count_unique(all.len(), fft_size, hop, n + m);
        let parts = self.completed(first) + mid.completed(second);
        let whole = self.completed(first + second);
        assert forall|k: int| 0 <= k < n + m implies parts[k] == whole[k] by {
            if k < n {
                assert(k * hop + fft_size <= head.len());
                assert(window(head, k, fft_size, hop) =~= window(all, k, fft_size, hop));
            } else {
                let j = k - n;
                assert(j * hop + fft_size <= tail.len());
                assert(k * h == n * h + j * h) by (nonlinear_arith)
                    requires
                        j == k - n,
                ;
                assert(window(tail, j, fft_size, hop) =~= window(all, k, fft_size, hop));
            }
        }
        assert(parts =~= whole);
        assert(mid.fed(second).pending =~= self.fed(first + second).pending);
    }
}

/// The samples of a stream that arrived in `calls` parts.
pub open spec fn joined(calls: Seq<Seq<Iq>>) -> Seq<Iq>
    decreases calls.len(),
{
    if calls.len() == 0 {
        Seq::empty()
    } else {
        joined(calls.drop_last()) + calls.last()
    }
}

/// The state after feeding the parts one after the other.
pub open spec fn fed_in_turn(state: StftState, calls: Seq<Seq<Iq>>) -> StftState
    decreases calls.len(),
{
    if calls.len() == 0 {
        state
    } else {
        fed_in_turn(state, calls.drop_last()).fed(calls.last())
    }
}

/// The windows that feeding the parts one after the other completes.
pub open spec fn completed_in_turn(state: StftState, calls: Seq<Seq<Iq>>) -> Seq<Frame>
    decreases calls.len(),
{
    if calls.len() == 0 {
        Seq::empty()
    } else {
        completed_in_turn(state, calls.drop_last()) + fed_in_turn(
            state,
            calls.drop_last(),
        ).completed(calls.last())
    }
}

/// However a stream is cut into calls, the windows and the final state are those
/// of feeding it in one call.
pub proof fn law_cutting_the_stream_changes_nothing(state: StftState, calls: Seq<Seq<Iq>>)
    requires
        state.wf(),
    ensures
        fed_in_turn(state, calls) == state.fed(joined(calls)),
        fed_in_turn(state, calls).wf(),
        completed_in_turn(state, calls) == state.completed(joined(calls)),
    decreases calls.len(),
{
    if calls.len() == 0 {
        state.law_feeding_nothing_changes_nothing();
    } else {
        let front = calls.drop_last();
        law_cutting_the_stream_changes_nothing(state, front);
        state.law_feeding_twice_is_feeding_once(joined(front), calls.last());
        fed_in_turn(state, front).law_feeding_keeps_wf(calls.last());
    }
}

/// The incremental path sees the windows of the batch path: a fresh processor,
/// fed a stream in any number of calls, completes the `k`-th window of the whole
/// stream as its `k`-th, at sample `k * hop`.
pub proof fn law_incremental_matches_batch(fft_size: nat, hop: nat, calls: Seq<Seq<Iq>>)
    requires
        0 < hop <= fft_size,
    ensures
        ({
            let fresh = StftState { fft_size, hop, pending: Seq::empty(), next_sample: 0 };
            let done = completed_in_turn(fresh, calls);
            let all = joined(calls);
            &&& done.len() == frame_count(all.len(), fft_size, hop)
            &&& forall|k: int|
                0 <= k < done.len() ==> (#[trigger] done[k]).sample == k * hop && done[k].window
                    == window(all, k, fft_size, hop)
        }),
{
    let fresh = StftState { fft_size, hop, pending: Seq::empty(), next_sample: 0 };
    law_cutting_the_stream_changes_nothing(fresh, calls);
    assert(fresh.pending + joined(calls) =~= joined(calls));
}

/// Consecutive windows overlap: each starts with all but the first `hop` samples of
/// the one before it, three quarters of it at the sizes used here.
pub proof fn law_consecutive_windows_overlap(
    samples: Seq<Iq>,
    k: int,
    fft_size: nat,
    hop: nat,
)
    requires
        0 < hop <= fft_size,
        0 <= k,
        k + 1 < frame_count(samples.len(), fft_size, hop),
    ensures
        window(samples, k, fft_size, hop).len() == fft_size,
        window(samples, k + 1, fft_size, hop).take(fft_size - hop) == window(
            samples,
            k,
            fft_size,
            hop,
        ).skip(hop as int),
        4 * (FFT_SIZE - HOP_SIZE) == 3 * FFT_SIZE,
{
    lemma_frame_bounds(samples.len(), fft_size, hop);
    assert(0 <= k * hop && k * hop + fft_size <= samples.len());
    assert(0 <= (k + 1) * hop && (k + 1) * hop + fft_size <= samples.len());
    assert((k + 1) * hop == k * hop + hop) by (nonlinear_arith);
    assert(window(samples, k + 1, fft_size, hop).take(fft_size - hop) =~= window(
        samples,
        k,
        fft_size,
        hop,
    ).skip(hop as int));
}

/// The bytes of a stream that arrived in `chunks`.
pub open spec fn joined_bytes(chunks: Seq<Seq<i8>>) -> Seq<i8>
    decreases chunks.len(),
{
    if chunks.len() == 0 {
        Seq::empty()
    } else {
        joined_bytes(chunks.drop_last()) + chunks.last()
    }
}

/// A byte stream may be cut anywhere between two samples: its windows are those of
/// the whole stream.
pub proof fn law_cutting_the_byte_stream_changes_nothing(state: StftState, chunks: Seq<Seq<i8>>)
    requires
        state.wf(),
        forall|i: int| 0 <= i < chunks.len() - 1 ==> (#[trigger] chunks[i]).len() % 2 == 0,
    ensures
        completed_in_turn(state, chunks.map_values(|c: Seq<i8>| decoded(c))) == state.completed(
            decoded(joined_bytes(chunks)),
        ),
        fed_in_turn(state, chunks.map_values(|c: Seq<i8>| decoded(c))) == state.fed(
            decoded(joined_bytes(chunks)),
        ),
{
    lemma_decoding_joined_chunks(chunks);
    law_cutting_the_stream_changes_nothing(state, chunks.map_values(|c: Seq<i8>| decoded(c)));
}

proof fn lemma_decoding_joined_chunks(chunks: Seq<Seq<i8>>)
    requires
        forall|i: int| 0 <= i < chunks.len() - 1 ==> (#[trigger] chunks[i]).len() % 2 == 0,
    ensures
        joined(chunks.map_values(|c: Seq<i8>| decoded(c))) == decoded(joined_bytes(chunks)),
        (chunks.len() > 0 ==> chunks.last().len() % 2 == 0) ==> joined_bytes(chunks).len() % 2 == 0,
    decreases chunks.len(),
{
    let calls = chunks.map_values(|c: Seq<i8>| decoded(c));
    if chunks.len() == 0 {
        assert(joined(calls) =~= decoded(joined_bytes(chunks)));
    } else {
        let front = chunks.drop_last();
        assert forall|i: int| 0 <= i < front.len() - 1 implies (#[trigger] front[i]).len() % 2
            == 0 by {
            assert(front[i] == chunks[i]);
        }
        if front.len() > 0 {
            assert(front.last() == chunks[front.len() - 1]);
        }
        lemma_decoding_joined_chunks(front);
        assert(calls.drop_last() =~= front.map_values(|c: Seq<i8>| decoded(c)));
        law_decoding_splits_at_whole_samples(joined_bytes(front), chunks.last());
    }
}

// ---------------- Batch ----------------

/// What one frame contributes to a spectrogram: its bins, or a silent frame where
/// its transform failed.
pub open spec fn frame_bins<P, E>(frame: Result<Vec<P>, E>, zero: P) -> Seq<P> {
    match frame {
        Ok(bins) => bins@,
        Err(_) => Seq::new(FFT_SIZE as nat, |i: int| zero),
    }
}

/// The frames' bins, one frame after the other.
pub open spec fn spectrogram_of<P, E>(frames: Seq<Result<Vec<P>, E>>, zero: P) -> Seq<P>
    decreases frames.len(),
{
    if frames.len() == 0 {
        Seq::empty()
    } else {
        spectrogram_of(frames.drop_last(), zero) + frame_bins(frames.last(), zero)
    }
}

/// Joins the frames of a spectrogram, with a silent frame in place of each that
/// failed.
pub fn assemble_spectrogram<P: Copy, E>(frames: Vec<Result<Vec<P>, E>>, zero: P) -> (flat: Vec<P>)
    ensures
        flat@ == spectrogram_of(frames@, zero),
{
    let mut flat: Vec<P> = Vec::new();
    let count: usize = frames.len();
    let mut k: usize = 0;
    while k < count
        invariant
            k <= count,
            count == frames@.len(),
            flat@ == spectrogram_of(frames@.take(k as int), zero),
        decreases count - k,
    {
        let ghost before = flat@;
        match &frames[k] {
            Ok(bins) => {
                let mut b: usize = 0;
                while b < bins.len()
                    invariant
                        b <= bins@.len(),
                        flat@ == before + bins@.take(b as int),
                    decreases bins@.len() - b,
                {
                    flat.push(bins[b]);
                    assert(flat@ =~= before + bins@.take(b + 1));
                    b += 1;
                }
                assert(bins@.take(b as int) =~= bins@);
            },
            Err(_) => {
                let ghost silent = Seq::new(FFT_SIZE as nat, |i: int| zero);
                let mut b: usize = 0;
                while b < FFT_SIZE
                    invariant
                        b <= FFT_SIZE,
                        silent == Seq::new(FFT_SIZE as nat, |i: int| zero),
                        flat@ == before + silent.take(b as int),
                    decreases FFT_SIZE - b,
                {
                    flat.push(zero);
                    assert(flat@ =~= before + silent.take(b + 1));
                    b += 1;
                }
                assert(silent.take(b as int) =~= silent);
            },
        }
        assert(frames@.take(k + 1).drop_last() =~= frames@.take(k as int));
        assert(flat@ =~= spectrogram_of(frames@.take(k + 1), zero));
        k += 1;
    }
    assert(frames@.take(count as int) =~= frames@);
    flat
}

/// `outcomes` are the transforms of the windows of `samples`, in their order.
pub open spec fn outcomes_of<P, E, F: Fn(&[Iq]) -> Result<Vec<P>, E>>(
    fft: F,
    samples: Seq<Iq>,
    outcomes: Seq<Result<Vec<P>, E>>,
) -> bool {
    &&& outcomes.len() == frame_count(samples.len(), FFT_SIZE as nat, HOP_SIZE as nat)
    &&& forall|k: int|
        0 <= k < outcomes.len() ==> transformed(
            fft,
            window(samples, k, FFT_SIZE as nat, HOP_SIZE as nat),
            #[trigger] outcomes[k],
        )
}

/// `flat` is the spectrogram of interleaved signed 8-bit I/Q: the transforms of its
/// windows, joined in their order.
pub open spec fn is_spectrogram<P, E, F: Fn(&[Iq]) -> Result<Vec<P>, E>>(
    fft: F,
    bytes: Seq<i8>,
    zero: P,
    flat: Seq<P>,
) -> bool {
    exists|outcomes: Seq<Result<Vec<P>, E>>| #[trigger]
        outcomes_of(fft, decoded(bytes), outcomes) && flat == spectrogram_of(outcomes, zero)
}

/// Computes the spectrogram of interleaved signed 8-bit I/Q, one transform per
/// window, all windows in parallel.
///
/// The result is row-major: frame after frame, each of them the bins that `fft`
/// gave, or `FFT_SIZE` times `zero` where it failed. Too short an input has no
/// frame and gives an empty spectrogram.
pub fn stft<P, E, F>(input_bytes: &[i8], fft: &F, zero: P) -> (spectrogram: Vec<P>) where
    P: Copy + Send,
    E: Send,
    F: Fn(&[Iq]) -> Result<Vec<P>, E> + Sync,

    requires
        accepts(*fft, FFT_SIZE as nat),
    ensures
        is_spectrogram(*fft, input_bytes@, zero, spectrogram@),
        input_bytes@.len() / 2 < FFT_SIZE ==> spectrogram@.len() == 0,
{
    let samples: Vec<Iq> = bytes_to_complex(input_bytes);
    let available: usize = samples.len();
    let frames: usize = if available < FFT_SIZE {
        0
    } else {
        (available - FFT_SIZE) / HOP_SIZE + 1
    };
    proof {
        lemma_frame_bounds(available as nat, FFT_SIZE as nat, HOP_SIZE as nat);
    }
    let work = |frame: usize| -> (outcome: Result<Vec<P>, E>)
        requires
            frame < frames,
        ensures
            transformed(
                *fft,
                window(samples@, frame as int, FFT_SIZE as nat, HOP_SIZE as nat),
                outcome,
            ),
        {
            proof {
                assert((frame as int) * (HOP_SIZE as nat) + FFT_SIZE <= samples@.len());
            }
            let start: usize = frame * HOP_SIZE;
            let current: &[Iq] = slice_subrange(samples.as_slice(), start, start + FFT_SIZE);
            fft(current)
        };
    let outcomes: Vec<Result<Vec<P>, E>> = map_indices(frames, work);
    proof {
        assert forall|k: int| 0 <= k < outcomes@.len() implies transformed(
            *fft,
            window(samples@, k, FFT_SIZE as nat, HOP_SIZE as nat),
            #[trigger] outcomes@[k],
        ) by {
            assert(call_ensures(work, (k as usize,), outcomes@[k]));
        }
        assert(outcomes_of(*fft, decoded(input_bytes@), outcomes@));
    }
    assemble_spectrogram(outcomes, zero)
}

/// Where every frame has `FFT_SIZE` bins, bin `b` of frame `k` stands at
/// `k * FFT_SIZE + b`, and the spectrogram holds nothing else.
pub proof fn law_spectrogram_is_row_major<P, E>(frames: Seq<Result<Vec<P>, E>>, zero: P)
    requires
        forall|k: int|
            0 <= k < frames.len() ==> (#[trigger] frames[k] matches Ok(bins) ==> bins@.len()
                == FFT_SIZE),
    ensures
        spectrogram_of(frames, zero).len() == frames.len() * FFT_SIZE,
        forall|k: int, b: int|
            0 <= k < frames.len() && 0 <= b < FFT_SIZE ==> #[trigger] spectrogram_of(
                frames,
                zero,
            )[k * FFT_SIZE + b] == #[trigger] frame_bins(frames[k], zero)[b],
    decreases frames.len(),
{
    if frames.len() > 0 {
        let front = frames.drop_last();
        law_spectrogram_is_row_major(front, zero);
        assert forall|k: int, b: int| 0 <= k < frames.len() && 0 <= b < FFT_SIZE implies #[trigger]
            spectrogram_of(frames, zero)[k * FFT_SIZE + b] == #[trigger] frame_bins(
            frames[k],
            zero,
        )[b] by {
            if k < front.len() {
                assert(front[k] == frames[k]);
                assert(k * FFT_SIZE + b < front.len() * FFT_SIZE);
            }
        }
    }
}

// ---------------- Laws of transforms that are functions ----------------

/// `backend` is a function of its window: the same samples give the same bins.
pub open spec fn is_function<P, F: Fn(&[Iq]) -> Vec<P>>(backend: F) -> bool {
    forall|window: Seq<Iq>, a: Vec<P>, b: Vec<P>|
        #[trigger] transformed(backend, window, a) && #[trigger] transformed(backend, window, b)
            ==> a@ == b@
}

/// The same rows: the same positions and the same bins, in the same order.
pub open spec fn same_rows<P>(a: Seq<Row<P>>, b: Seq<Row<P>>) -> bool {
    &&& a.len() == b.len()
    &&& forall|k: int|
        0 <= k < a.len() ==> (#[trigger] a[k]).sample == b[k].sample && a[k].bins@ == b[k].bins@
}

/// The rows of windows that follow each other are the rows of the first ones and then
/// of the others.
pub proof fn law_rows_join<P, F: Fn(&[Iq]) -> Vec<P>>(
    backend: F,
    first: Seq<Frame>,
    second: Seq<Frame>,
    first_rows: Seq<Row<P>>,
    second_rows: Seq<Row<P>>,
)
    requires
        rows_of(backend, first, first_rows),
        rows_of(backend, second, second_rows),
    ensures
        rows_of(backend, first + second, first_rows + second_rows),
{
    let frames = first + second;
    let rows = first_rows + second_rows;
    assert forall|k: int| 0 <= k < rows.len() implies (#[trigger] rows[k]).sample
        == frames[k].sample && transformed(backend, frames[k].window, rows[k].bins) by {
        if k < first.len() {
            assert(rows[k] == first_rows[k]);
        } else {
            assert(rows[k] == second_rows[k - first.len()]);
        }
    }
}

/// With a transform that is a function, rows are determined by their windows.
pub proof fn law_windows_determine_rows<P, F: Fn(&[Iq]) -> Vec<P>>(
    backend: F,
    frames: Seq<Frame>,
    a: Seq<Row<P>>,
    b: Seq<Row<P>>,
)
    requires
        is_function(backend),
        rows_of(backend, frames, a),
        rows_of(backend, frames, b),
    ensures
        same_rows(a, b),
{
    assert forall|k: int| 0 <= k < a.len() implies (#[trigger] a[k]).sample == b[k].sample
        && a[k].bins@ == b[k].bins@ by {
        assert(b[k].sample == frames[k].sample);
        assert(transformed(backend, frames[k].window, a[k].bins));
        assert(transformed(backend, frames[k].window, b[k].bins));
    }
}

/// Pushing bytes in two calls gives the rows of pushing them in one, at the same
/// positions and with the same bins, and leaves the same state: the overlap is carried
/// over, and no window is lost or repeated between the calls.
pub proof fn law_two_pushes_give_the_rows_of_one<P, F: Fn(&[Iq]) -> Vec<P>>(
    backend: F,
    state: StftState,
    first: Seq<i8>,
    second: Seq<i8>,
    first_rows: Seq<Row<P>>,
    second_rows: Seq<Row<P>>,
    rows: Seq<Row<P>>,
)
    requires
        state.wf(),
        first.len() % 2 == 0,
        is_function(backend),
        rows_of(backend, state.completed(decoded(first)), first_rows),
        rows_of(backend, state.fed(decoded(first)).completed(decoded(second)), second_rows),
        rows_of(backend, state.completed(decoded(first + second)), rows),
    ensures
        same_rows(first_rows + second_rows, rows),
        state.fed(decoded(first)).fed(decoded(second)) == state.fed(decoded(first + second)),
{
    law_decoding_splits_at_whole_samples(first, second);
    state.law_feeding_twice_is_feeding_once(decoded(first), decoded(second));
    law_rows_join(
        backend,
        state.completed(decoded(first)),
        state.fed(decoded(first)).completed(decoded(second)),
        first_rows,
        second_rows,
    );
    law_windows_determine_rows(
        backend,
        state.completed(decoded(first + second)),
        first_rows + second_rows,
        rows,
    );
}

/// `fft` is a function of its window, as far as a spectrogram shows: the same samples
/// give the same bins, or fail alike.
pub open spec fn is_frame_function<P, E, F: Fn(&[Iq]) -> Result<Vec<P>, E>>(
    fft: F,
    zero: P,
) -> bool {
    forall|window: Seq<Iq>, a: Result<Vec<P>, E>, b: Result<Vec<P>, E>|
        #[trigger] transformed(fft, window, a) && #[trigger] transformed(fft, window, b)
            ==> frame_bins(a, zero) == frame_bins(b, zero)
}

/// `fft` gives `FFT_SIZE` bins wherever it does not fail.
pub open spec fn gives_whole_frames<P, E, F: Fn(&[Iq]) -> Result<Vec<P>, E>>(fft: F) -> bool {
    forall|window: Seq<Iq>, bins: Vec<P>| #[trigger]
        transformed(fft, window, Ok::<Vec<P>, E>(bins)) ==> bins@.len() == FFT_SIZE
}

/// Every frame of a spectrogram has its place: there are as many frames as windows,
/// and the bins of window `k` stand from `k * FFT_SIZE` on.
proof fn lemma_frames_have_their_places<P, E, F: Fn(&[Iq]) -> Result<Vec<P>, E>>(
    fft: F,
    samples: Seq<Iq>,
    zero: P,
    outcomes: Seq<Result<Vec<P>, E>>,
)
    requires
        gives_whole_frames(fft),
        outcomes_of(fft, samples, outcomes),
    ensures
        spectrogram_of(outcomes, zero).len() == outcomes.len() * FFT_SIZE,
        forall|k: int|
            0 <= k < outcomes.len() ==> #[trigger] spectrogram_of(outcomes, zero).subrange(
                k * FFT_SIZE,
                k * FFT_SIZE + FFT_SIZE,
            ) == frame_bins(outcomes[k], zero),
{
    assert forall|k: int| 0 <= k < outcomes.len() implies (#[trigger] outcomes[k] matches Ok(bins)
        ==> bins@.len() == FFT_SIZE) by {
        let window = window(samples, k, FFT_SIZE as nat, HOP_SIZE as nat);
        assert(transformed(fft, window, outcomes[k]));
        match outcomes[k] {
            Ok(bins) => {
                assert(transformed(fft, window, Ok::<Vec<P>, E>(bins)));
            },
            Err(_) => {},
        }
    }
    law_spectrogram_is_row_major(outcomes, zero);
    let flat = spectrogram_of(outcomes, zero);
    assert forall|k: int| 0 <= k < outcomes.len() implies #[trigger] flat.subrange(
        k * FFT_SIZE,
        k * FFT_SIZE + FFT_SIZE,
    ) == frame_bins(outcomes[k], zero) by {
        let bins = frame_bins(outcomes[k], zero);
        assert(outcomes[k] matches Ok(bins) ==> bins@.len() == FFT_SIZE);
        let part = flat.subrange(k * FFT_SIZE, k * FFT_SIZE + FFT_SIZE);
        assert(k * FFT_SIZE + FFT_SIZE <= flat.len());
        assert forall|b: int| 0 <= b < FFT_SIZE implies part[b] == bins[b] by {
            assert(flat[k * FFT_SIZE + b] == frame_bins(outcomes[k], zero)[b]);
        }
        assert(part =~= bins);
    }
}

/// Frame `f` of a spectrogram is the spectrogram of its own `FFT_SIZE` samples: frames
/// stand in order of time, and each depends on nothing but its window.
pub proof fn law_a_frame_is_the_spectrogram_of_its_window<
    P,
    E,
    F: Fn(&[Iq]) -> Result<Vec<P>, E>,
>(fft: F, bytes: Seq<i8>, zero: P, flat: Seq<P>, f: int, own: Seq<P>)
    requires
        is_frame_function(fft, zero),
        gives_whole_frames(fft),
        is_spectrogram(fft, bytes, zero, flat),
        0 <= f < frame_count(bytes.len() / 2, FFT_SIZE as nat, HOP_SIZE as nat),
        is_spectrogram(
            fft,
            bytes.subrange(2 * (f * HOP_SIZE), 2 * (f * HOP_SIZE + FFT_SIZE)),
            zero,
            own,
        ),
    ensures
        flat.len() == FFT_SIZE * frame_count(bytes.len() / 2, FFT_SIZE as nat, HOP_SIZE as nat),
        flat.subrange(f * FFT_SIZE, f * FFT_SIZE + FFT_SIZE) == own,
{
    let part = bytes.subrange(2 * (f * HOP_SIZE), 2 * (f * HOP_SIZE + FFT_SIZE));
    let samples = decoded(bytes);
    let outcomes = choose|outcomes: Seq<Result<Vec<P>, E>>| #[trigger]
        outcomes_of(fft, samples, outcomes) && flat == spectrogram_of(outcomes, zero);
    let own_outcomes = choose|outcomes: Seq<Result<Vec<P>, E>>| #[trigger]
        outcomes_of(fft, decoded(part), outcomes) && own == spectrogram_of(outcomes, zero);
    lemma_frame_bounds(samples.len(), FFT_SIZE as nat, HOP_SIZE as nat);
    assert(0 <= f * (HOP_SIZE as nat) && f * (HOP_SIZE as nat) + FFT_SIZE <= samples.len());
    assert(part.len() == 2 * FFT_SIZE);
    assert(frame_count(decoded(part).len(), FFT_SIZE as nat, HOP_SIZE as nat) == 1);
    let whole_window = window(samples, f, FFT_SIZE as nat, HOP_SIZE as nat);
    let own_window = window(decoded(part), 0, FFT_SIZE as nat, HOP_SIZE as nat);
    assert(own_window =~= whole_window) by {
        assert forall|i: int| 0 <= i < FFT_SIZE implies own_window[i] == whole_window[i] by {
            assert(part[2 * i] == bytes[2 * (f * HOP_SIZE + i)]);
            assert(part[2 * i + 1] == bytes[2 * (f * HOP_SIZE + i) + 1]);
        }
    }
    lemma_frames_have_their_places(fft, samples, zero, outcomes);
    lemma_frames_have_their_places(fft, decoded(part), zero, own_outcomes);
    assert(transformed(fft, whole_window, outcomes[f]));
    assert(transformed(fft, whole_window, own_outcomes[0]));
    assert(own.subrange(0 * FFT_SIZE, 0 * FFT_SIZE + FFT_SIZE) =~= own);
    assert(flat.subrange(f * FFT_SIZE, f * FFT_SIZE + FFT_SIZE) == frame_bins(outcomes[f], zero));
}

/// `pushes` are the rows of feeding the parts one after the other, call by call.
pub open spec fn pushed_in_turn<P, F: Fn(&[Iq]) -> Vec<P>>(
    backend: F,
    state: StftState,
    calls: Seq<Seq<Iq>>,
    pushes: Seq<Seq<Row<P>>>,
) -> bool
    decreases calls.len(),
{
    &&& pushes.len() == calls.len()
    &&& calls.len() > 0 ==> {
        &&& pushed_in_turn(backend, state, calls.drop_last(), pushes.drop_last())
        &&& rows_of(
            backend,
            fed_in_turn(state, calls.drop_last()).completed(calls.last()),
            pushes.last(),
        )
    }
}

/// All rows of some calls, in order.
pub open spec fn joined_rows<P>(pushes: Seq<Seq<Row<P>>>) -> Seq<Row<P>>
    decreases pushes.len(),
{
    if pushes.len() == 0 {
        Seq::empty()
    } else {
        joined_rows(pushes.drop_last()) + pushes.last()
    }
}

proof fn lemma_rows_of_pushes<P, F: Fn(&[Iq]) -> Vec<P>>(
    backend: F,
    state: StftState,
    calls: Seq<Seq<Iq>>,
    pushes: Seq<Seq<Row<P>>>,
)
    requires
        pushed_in_turn(backend, state, calls, pushes),
    ensures
        rows_of(backend, completed_in_turn(state, calls), joined_rows(pushes)),
    decreases calls.len(),
{
    if calls.len() > 0 {
        lemma_rows_of_pushes(backend, state, calls.drop_last(), pushes.drop_last());
        law_rows_join(
            backend,
            completed_in_turn(state, calls.drop_last()),
            fed_in_turn(state, calls.drop_last()).completed(calls.last()),
            joined_rows(pushes.drop_last()),
            pushes.last(),
        );
    }
}

/// The rows of a stream agree with its spectrogram, however it is cut into calls
/// between samples. Where the bins of a window as a row `agree` with its bins as a
/// frame (say, as their power in dB, to some tolerance), row `k` agrees with frame
/// `k`; the rows are as many as the frames and stand at multiples of the hop.
pub proof fn law_rows_agree_with_the_spectrogram<
    P,
    C,
    E,
    B: Fn(&[Iq]) -> Vec<P>,
    F: Fn(&[Iq]) -> Result<Vec<C>, E>,
>(
    backend: B,
    fft: F,
    zero: C,
    agree: spec_fn(Seq<C>, Seq<P>) -> bool,
    chunks: Seq<Seq<i8>>,
    pushes: Seq<Seq<Row<P>>>,
    flat: Seq<C>,
)
    requires
        forall|i: int| 0 <= i < chunks.len() - 1 ==> (#[trigger] chunks[i]).len() % 2 == 0,
        gives_whole_frames(fft),
        forall|window: Seq<Iq>, bins: Vec<P>, frame: Result<Vec<C>, E>|
            #[trigger] transformed(backend, window, bins) && #[trigger] transformed(
                fft,
                window,
                frame,
            ) ==> agree(frame_bins(frame, zero), bins@),
        pushed_in_turn(
            backend,
            StftState {
                fft_size: FFT_SIZE as nat,
                hop: HOP_SIZE as nat,
                pending: Seq::empty(),
                next_sample: 0,
            },
            chunks.map_values(|c: Seq<i8>| decoded(c)),
            pushes,
        ),
        is_spectrogram(fft, joined_bytes(chunks), zero, flat),
    ensures
        ({
            let rows = joined_rows(pushes);
            let fresh = StftState {
                fft_size: FFT_SIZE as nat,
                hop: HOP_SIZE as nat,
                pending: Seq::empty(),
                next_sample: 0,
            };
            &&& rows.len() * FFT_SIZE == flat.len()
            &&& forall|k: int|
                0 <= k < rows.len() ==> (#[trigger] rows[k]).sample == k * HOP_SIZE && agree(
                    flat.subrange(k * FFT_SIZE, k * FFT_SIZE + FFT_SIZE),
                    rows[k].bins@,
                )
            &&& fed_in_turn(fresh, chunks.map_values(|c: Seq<i8>| decoded(c))).next_sample
                == rows.len() * HOP_SIZE
        }),
{
    let fresh = StftState {
        fft_size: FFT_SIZE as nat,
        hop: HOP_SIZE as nat,
        pending: Seq::empty(),
        next_sample: 0,
    };
    let calls = chunks.map_values(|c: Seq<i8>| decoded(c));
    let samples = decoded(joined_bytes(chunks));
    let rows = joined_rows(pushes);
    lemma_rows_of_pushes(backend, fresh, calls, pushes);
    law_cutting_the_byte_stream_changes_nothing(fresh, chunks);
    assert(fresh.pending + samples =~= samples);
    let outcomes = choose|outcomes: Seq<Result<Vec<C>, E>>| #[trigger]
        outcomes_of(fft, samples, outcomes) && flat == spectrogram_of(outcomes, zero);
    lemma_frames_have_their_places(fft, samples, zero, outcomes);
    assert forall|k: int| 0 <= k < rows.len() implies (#[trigger] rows[k]).sample == k * HOP_SIZE
        && agree(flat.subrange(k * FFT_SIZE, k * FFT_SIZE + FFT_SIZE), rows[k].bins@) by {
        let current = window(samples, k, FFT_SIZE as nat, HOP_SIZE as nat);
        assert(transformed(backend, current, rows[k].bins));
        assert(transformed(fft, current, outcomes[k]));
    }
}

// ---------------- What the operations mean ----------------

/// Samples are the interleaved components, in pairs: of 8-bit components each keeps its
/// value, of 16-bit components too; a component without a partner is no sample.
pub proof fn law_samples_are_pairs_of_components(bytes: Seq<i8>, components: Seq<i16>, k: int)
    ensures
        2 * decoded(bytes).len() <= bytes.len() <= 2 * decoded(bytes).len() + 1,
        0 <= k < decoded(bytes).len() ==> decoded(bytes)[k].re == bytes[2 * k]
            && decoded(bytes)[k].im == bytes[2 * k + 1],
        2 * paired(components).len() <= components.len() <= 2 * paired(components).len() + 1,
        0 <= k < paired(components).len() ==> paired(components)[k].re == components[2 * k]
            && paired(components)[k].im == components[2 * k + 1],
{
}

/// Encoding interleaves the components: one in the range of a signed byte keeps its
/// value, one below it becomes -128 and one above it 127.
pub proof fn law_encoding_clamps_each_component(samples: Seq<Iq>, k: int)
    requires
        0 <= k < samples.len(),
    ensures
        encoded(samples).len() == 2 * samples.len(),
        -128 <= samples[k].re <= 127 ==> encoded(samples)[2 * k] == samples[k].re,
        samples[k].re < -128 ==> encoded(samples)[2 * k] == -128,
        samples[k].re > 127 ==> encoded(samples)[2 * k] == 127,
        -128 <= samples[k].im <= 127 ==> encoded(samples)[2 * k + 1] == samples[k].im,
        samples[k].im < -128 ==> encoded(samples)[2 * k + 1] == -128,
        samples[k].im > 127 ==> encoded(samples)[2 * k + 1] == 127,
{
}

/// Feeding completes as many windows as fit at hop spacing into what was pending and
/// what came, no more and no fewer. Window `k` holds the `fft_size` samples from
/// `k * hop` on and is numbered by the absolute index of the first of them; what
/// remains are the samples from behind the last hop on, and the position moves by one
/// hop per window.
pub proof fn law_feeding_completes_every_window(state: StftState, samples: Seq<Iq>)
    requires
        state.wf(),
    ensures
        ({
            let all = state.pending + samples;
            let done = state.completed(samples);
            let after = state.fed(samples);
            let hop = state.hop as int;
            &&& done.len() * hop + state.fft_size > all.len()
            &&& done.len() > 0 ==> (done.len() - 1) * hop + state.fft_size <= all.len()
            &&& forall|k: int|
                0 <= k < done.len() ==> {
                    &&& (#[trigger] done[k]).sample == state.next_sample + k * hop
                    &&& done[k].window.len() == state.fft_size
                }
            &&& forall|k: int, i: int|
                0 <= k < done.len() && 0 <= i < state.fft_size ==> (#[trigger] done[k].window[i])
                    == all[k * hop + i]
            &&& after.next_sample == state.next_sample + done.len() * hop
            &&& after.pending.len() == all.len() - done.len() * hop
            &&& forall|i: int|
                0 <= i < after.pending.len() ==> #[trigger] after.pending[i] == all[done.len() * hop
                    + i]
            &&& after.fft_size == state.fft_size
            &&& after.hop == state.hop
        }),
{
    let all = state.pending + samples;
    let n = frame_count(all.len(), state.fft_size, state.hop);
    let hop = state.hop as int;
    let done = state.completed(samples);
    lemma_frame_bounds(all.len(), state.fft_size, state.hop);
    assert(n * state.hop == n * hop);
    if n > 0 {
        assert((n - 1) * state.hop + state.fft_size <= all.len());
    }
    assert forall|k: int| 0 <= k < done.len() implies {
        &&& (#[trigger] done[k]).sample == state.next_sample + k * hop
        &&& done[k].window.len() == state.fft_size
    } by {
        assert(0 <= k * state.hop && k * state.hop + state.fft_size <= all.len());
    }
    assert forall|k: int, i: int| 0 <= k < done.len() && 0 <= i < state.fft_size implies (
    #[trigger] done[k].window[i]) == all[k * hop + i] by {
        assert(0 <= k * state.hop && k * state.hop + state.fft_size <= all.len());
    }
}

/// There is room for samples exactly where the position behind the windows that they
/// complete fits 64 bits.
pub proof fn law_room_is_room_for_the_position(state: StftState, samples: Seq<Iq>)
    requires
        state.wf(),
    ensures
        state.has_room(samples.len()) <==> state.next_sample + state.completed(samples).len()
            * state.hop <= 0xFFFF_FFFF_FFFF_FFFF,
{
}

/// Rows are what the transform gave for the windows: one row per window and in their
/// order, each with its window's number, and each from a call on that window's samples.
pub proof fn law_rows_come_from_their_windows<P, F: Fn(&[Iq]) -> Vec<P>>(
    backend: F,
    frames: Seq<Frame>,
    rows: Seq<Row<P>>,
    k: int,
)
    requires
        rows_of(backend, frames, rows),
    ensures
        rows.len() == frames.len(),
        0 <= k < rows.len() ==> rows[k].sample == frames[k].sample && exists|w: &[Iq]|
            w@ == frames[k].window && #[trigger] call_ensures(backend, (w,), rows[k].bins),
{
    if 0 <= k < rows.len() {
        assert(rows[k].sample == frames[k].sample);
        assert(transformed(backend, frames[k].window, rows[k].bins));
        let w = choose|w: &[Iq]|
            w@ == frames[k].window && #[trigger] call_ensures(backend, (w,), rows[k].bins);
        assert(w@ == frames[k].window);
    }
}

/// A spectrogram is its frames one after the other, whatever they hold: one frame more
/// adds exactly its bins at the end.
pub proof fn law_one_more_frame_adds_its_bins<P, E>(
    frames: Seq<Result<Vec<P>, E>>,
    frame: Result<Vec<P>, E>,
    zero: P,
)
    ensures
        spectrogram_of(Seq::<Result<Vec<P>, E>>::empty(), zero).len() == 0,
        frame matches Ok(bins) ==> spectrogram_of(frames.push(frame), zero) == spectrogram_of(
            frames,
            zero,
        ) + bins@,
{
    assert(frames.push(frame).drop_last() =~= frames);
}

/// A frame of a spectrogram is the bins that the transform gave, or, where it failed,
/// `FFT_SIZE` times zero.
pub proof fn law_failed_frames_are_silent<P, E>(bins: Vec<P>, error: E, zero: P)
    ensures
        frame_bins(Ok::<Vec<P>, E>(bins), zero) == bins@,
        frame_bins(Err::<Vec<P>, E>(error), zero).len() == 4096,
        forall|i: int|
            0 <= i < 4096 ==> #[trigger] frame_bins(Err::<Vec<P>, E>(error), zero)[i] == zero,
{
}

/// A spectrogram has one frame per window of the input, at the sizes used here: there
/// are as many as fit at a hop of 1024 samples, 4096 samples each, and frame `k` comes
/// from a call on the samples from `1024 * k` on. An input too short for one window has
/// none.
pub proof fn law_a_spectrogram_has_a_frame_per_window<P, E, F: Fn(&[Iq]) -> Result<Vec<P>, E>>(
    fft: F,
    bytes: Seq<i8>,
    zero: P,
    flat: Seq<P>,
)
    requires
        is_spectrogram(fft, bytes, zero, flat),
    ensures
        exists|outcomes: Seq<Result<Vec<P>, E>>|
            {
                &&& flat == #[trigger] spectrogram_of(outcomes, zero)
                &&& bytes.len() / 2 < 4096 ==> outcomes.len() == 0
                &&& bytes.len() / 2 >= 4096 ==> outcomes.len() == (bytes.len() / 2 - 4096) / 1024
                    + 1
                &&& forall|k: int|
                    0 <= k < outcomes.len() ==> exists|w: &[Iq]|
                        {
                            &&& w@.len() == 4096
                            &&& forall|i: int|
                                0 <= i < 4096 ==> (#[trigger] w@[i]).re == bytes[2 * (1024 * k + i)]
                                    && w@[i].im == bytes[2 * (1024 * k + i) + 1]
                            &&& call_ensures(fft, (w,), #[trigger] outcomes[k])
                        }
            },
{
    let samples = decoded(bytes);
    let outcomes = choose|outcomes: Seq<Result<Vec<P>, E>>| #[trigger]
        outcomes_of(fft, samples, outcomes) && flat == spectrogram_of(outcomes, zero);
    lemma_frame_bounds(samples.len(), FFT_SIZE as nat, HOP_SIZE as nat);
    assert forall|k: int| 0 <= k < outcomes.len() implies exists|w: &[Iq]|
        {
            &&& w@.len() == 4096
            &&& forall|i: int|
                0 <= i < 4096 ==> (#[trigger] w@[i]).re == bytes[2 * (1024 * k + i)] && w@[i].im
                    == bytes[2 * (1024 * k + i) + 1]
            &&& call_ensures(fft, (w,), #[trigger] outcomes[k])
        } by {
        let current = window(samples, k, FFT_SIZE as nat, HOP_SIZE as nat);
        assert(0 <= k * (HOP_SIZE as nat) && k * (HOP_SIZE as nat) + FFT_SIZE <= samples.len());
        assert(transformed(fft, current, outcomes[k]));
        let w = choose|w: &[Iq]| w@ == current && #[trigger] call_ensures(fft, (w,), outcomes[k]);
        assert(w@.len() == 4096);
        assert forall|i: int| 0 <= i < 4096 implies (#[trigger] w@[i]).re == bytes[2 * (1024 * k
            + i)] && w@[i].im == bytes[2 * (1024 * k + i) + 1] by {
            assert(w@[i] == samples[1024 * k + i]);
        }
    }
    assert(flat == spectrogram_of(outcomes, zero));
}

/// The transform is of 4096 points and moves by 1024 samples.
pub proof fn law_the_geometry_in_use()
    ensures
        FFT_SIZE == 4096,
        HOP_SIZE == 1024,
{
}

} // verus!
