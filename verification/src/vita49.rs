//! VITA 49.0 IF Data packets as the collector sends them, one per UDP datagram.
//!
//! Big-endian 32-bit words:
//!
//! ```text
//!   offset  size  content
//!   0       4     word 0      packet header
//!   4       4     word 1      stream id            (always 0 today)
//!   8       4     word 2      timestamp seconds    (u32, free-running)
//!   12      8     words 3-4   timestamp fraction   (u64, sample counts)
//!   20      N*4   words 5+    payload: sc16 interleaved [I0,Q0,I1,Q1,...]
//! ```
//!
//! Header word bits: `31-28` packet type (`0x1` = IF Data), `27-26` class id,
//! `25-24` trailer, `23-22` TSI (`0x3` = "other", i.e. free-running), `21-20` TSF
//! (`0x1` = fraction is in sample counts), `19-16` packet count (always 0 today),
//! `15-0` packet size in 32-bit words minus one.
//!
//! A full packet (2048 complex samples) is 2053 words = 8212 bytes with header
//! `0x10D00804`. `N` is smaller when a read comes up short, so everything is sized
//! from the datagram length.

use crate::text::{numeral, push_numeral};
use vstd::prelude::*;
use vstd::slice::slice_subrange;

verus! {

/// Bytes of header and timestamp fields before the payload (5 x 32-bit words).
pub const HEADER_BYTES: usize = 20;

/// VITA 49.0 packet type for an IF Data packet.
pub const IF_DATA_PACKET_TYPE: u8 = 0x1;

/// Free-running ("other") timestamp integer, not UTC.
pub const TSI_OTHER: u8 = 0x3;

/// Timestamp fraction expressed as a sample count.
pub const TSF_SAMPLE_COUNT: u8 = 0x1;

/// Complex samples in a full-rate packet.
pub const NOMINAL_COMPLEX_SAMPLES: usize = 2048;

/// Bytes in a full-rate packet: 20-byte header + 2048 complex sc16 samples.
pub const NOMINAL_DATAGRAM_BYTES: usize = HEADER_BYTES + NOMINAL_COMPLEX_SAMPLES * 4;

/// Nominal sample rate of the stream, in samples per second.
pub const NOMINAL_SAMPLE_RATE: u64 = 2_000_000;

/// A datagram must carry the header and at least one whole complex sample to be
/// usable. Anything shorter is treated as truncated.
pub const MIN_DATAGRAM_BYTES: usize = HEADER_BYTES + 4;

// ---------------- Byte order ----------------

/// The big-endian 32-bit number at `at`.
pub open spec fn be32(bytes: Seq<u8>, at: int) -> nat {
    (bytes[at] * 0x100_0000 + bytes[at + 1] * 0x1_0000 + bytes[at + 2] * 0x100
        + bytes[at + 3]) as nat
}

/// The big-endian 64-bit number at `at`.
pub open spec fn be64(bytes: Seq<u8>, at: int) -> nat {
    be32(bytes, at) * 0x1_0000_0000 + be32(bytes, at + 4)
}

/// The big-endian signed 16-bit number at `at`, in two's complement.
pub open spec fn be_i16(bytes: Seq<u8>, at: int) -> int {
    let unsigned = bytes[at] * 0x100 + bytes[at + 1];
    if unsigned >= 0x8000 {
        unsigned - 0x1_0000
    } else {
        unsigned
    }
}

pub fn read_u32(bytes: &[u8], at: usize) -> (value: u32)
    requires
        at + 4 <= bytes.len(),
    ensures
        value == be32(bytes@, at as int),
{
    bytes[at] as u32 * 0x100_0000 + bytes[at + 1] as u32 * 0x1_0000 + bytes[at + 2] as u32 * 0x100
        + bytes[at + 3] as u32
}

fn read_u64(bytes: &[u8], at: usize) -> (value: u64)
    requires
        at + 8 <= bytes.len(),
    ensures
        value == be64(bytes@, at as int),
{
    read_u32(bytes, at) as u64 * 0x1_0000_0000 + read_u32(bytes, at + 4) as u64
}

fn read_i16(bytes: &[u8], at: usize) -> (value: i16)
    requires
        at + 2 <= bytes.len(),
    ensures
        value == be_i16(bytes@, at as int),
{
    let unsigned: i32 = bytes[at] as i32 * 0x100 + bytes[at + 1] as i32;
    if unsigned >= 0x8000 {
        (unsigned - 0x1_0000) as i16
    } else {
        unsigned as i16
    }
}

// ---------------- Header ----------------

/// Decoded fields of the packet header word.
#[derive(Debug, Clone, Copy, PartialEq, Eq, Structural)]
pub struct Header {
    /// Bits 31-28.
    pub packet_type: u8,
    /// Bit 27: class id present (the sender never sets it).
    pub class_id_present: bool,
    /// Bit 25: trailer present (the sender never sets it).
    pub trailer_present: bool,
    /// Bits 23-22.
    pub tsi: u8,
    /// Bits 21-20.
    pub tsf: u8,
    /// Bits 19-16: sequence count. Always 0 today: do not depend on it.
    pub packet_count: u8,
    /// Bits 15-0: declared packet length in 32-bit words, minus one.
    pub size_words: u16,
    /// The undecoded header word, for logs and fixtures.
    pub raw: u32,
}

/// The fields of a header word: each of them the bits at its place.
pub open spec fn header_of(word: u32) -> Header {
    Header {
        packet_type: (word / 0x1000_0000) as u8,
        class_id_present: word / 0x0800_0000 % 2 == 1,
        trailer_present: word / 0x0200_0000 % 2 == 1,
        tsi: (word / 0x0040_0000 % 4) as u8,
        tsf: (word / 0x0010_0000 % 4) as u8,
        packet_count: (word / 0x0001_0000 % 16) as u8,
        size_words: (word % 0x0001_0000) as u16,
        raw: word,
    }
}

impl Header {
    /// The packet length that the size field declares.
    pub open spec fn declared(self) -> nat {
        ((self.size_words + 1) * 4) as nat
    }

    /// The declared packet length in bytes, if the size field is taken at face
    /// value.
    pub fn declared_bytes(&self) -> (bytes: usize)
        ensures
            bytes == self.declared(),
    {
        (self.size_words as usize + 1) * 4
    }
}

/// Decodes the packet header word.
pub fn parse_header(word: u32) -> (header: Header)
    ensures
        header == header_of(word),
{
    proof {
        assert(word >> 28 == word / 0x1000_0000 && word >> 28 < 16) by (bit_vector);
        assert((word >> 27) & 1 == word / 0x0800_0000 % 2) by (bit_vector);
        assert((word >> 25) & 1 == word / 0x0200_0000 % 2) by (bit_vector);
        assert((word >> 22) & 0x3 == word / 0x0040_0000 % 4) by (bit_vector);
        assert((word >> 20) & 0x3 == word / 0x0010_0000 % 4) by (bit_vector);
        assert((word >> 16) & 0xF == word / 0x0001_0000 % 16) by (bit_vector);
        assert(word & 0xFFFF == word % 0x0001_0000) by (bit_vector);
    }
    Header {
        packet_type: (word >> 28) as u8,
        class_id_present: (word >> 27) & 1 == 1,
        trailer_present: (word >> 25) & 1 == 1,
        tsi: ((word >> 22) & 0x3) as u8,
        tsf: ((word >> 20) & 0x3) as u8,
        packet_count: ((word >> 16) & 0xF) as u8,
        size_words: (word & 0xFFFF) as u16,
        raw: word,
    }
}

// ---------------- Datagrams ----------------

/// Reasons a datagram cannot be used at all.
///
/// A size field that disagrees with the datagram length is none of them: it is
/// reported on [`Packet::size_field_matches`]. UDP preserves datagram boundaries,
/// so the delivered length is authoritative, and refusing the packet would turn a
/// cosmetic field into total data loss.
#[derive(Debug, Clone, PartialEq, Eq, Structural)]
pub enum ParseError {
    /// Fewer than [`MIN_DATAGRAM_BYTES`] arrived.
    TooShort { len: usize, need: usize },
    /// Not an IF Data packet, so a misdirected or foreign datagram.
    UnsupportedPacketType(u8),
    /// User-data trailer bit set; the payload would end with a trailer word that is
    /// not understood, so it is refused rather than guessed at.
    UnsupportedTrailer,
}

impl ParseError {
    /// What the error says to a reader.
    pub open spec fn text(self) -> Seq<char> {
        match self {
            ParseError::TooShort { len, need } => "datagram too short: "@ + numeral(len as nat, 10)
                + " bytes, need at least "@ + numeral(need as nat, 10),
            ParseError::UnsupportedPacketType(t) => "unsupported VITA49 packet type 0x"@ + numeral(
                t as nat,
                16,
            ) + " (expected IF Data 0x1)"@,
            ParseError::UnsupportedTrailer => "VITA49 trailer bit set; payload trailer not supported"@,
        }
    }

    /// The error in words, for logs.
    pub fn message(&self) -> (message: String)
        ensures
            message@ == self.text(),
    {
        match self {
            ParseError::TooShort { len, need } => {
                let mut message: String = "datagram too short: ".to_owned();
                push_numeral(&mut message, *len as u64, 10);
                message.append(" bytes, need at least ");
                push_numeral(&mut message, *need as u64, 10);
                message
            },
            ParseError::UnsupportedPacketType(t) => {
                let mut message: String = "unsupported VITA49 packet type 0x".to_owned();
                push_numeral(&mut message, *t as u64, 16);
                message.append(" (expected IF Data 0x1)");
                message
            },
            ParseError::UnsupportedTrailer => {
                "VITA49 trailer bit set; payload trailer not supported".to_owned()
            },
        }
    }
}

/// One parsed IF Data packet, borrowing the payload straight out of the receive
/// buffer.
#[derive(Debug, Clone, Copy)]
pub struct Packet<'a> {
    pub header: Header,
    /// Word 1. Always 0 today: informational only, never dispatch on it.
    pub stream_id: u32,
    /// Word 2: free-running seconds.
    pub ts_int: u32,
    /// Words 3-4: fractional timestamp in sample counts.
    pub ts_frac: u64,
    /// Payload bytes, truncated down to whole 32-bit words.
    pub payload: &'a [u8],
    /// Bytes after the last whole payload word (0..=3); discarded, counted.
    pub trailing_bytes: usize,
    /// Whether the header's size field agrees with the delivered datagram.
    pub size_field_matches: bool,
}

/// Model of a [`Packet`]: its fields, with the payload as a sequence.
pub struct PacketView {
    pub header: Header,
    pub stream_id: u32,
    pub ts_int: u32,
    pub ts_frac: u64,
    pub payload: Seq<u8>,
    pub trailing_bytes: usize,
    pub size_field_matches: bool,
}

impl<'a> View for Packet<'a> {
    type V = PacketView;

    open spec fn view(&self) -> PacketView {
        PacketView {
            header: self.header,
            stream_id: self.stream_id,
            ts_int: self.ts_int,
            ts_frac: self.ts_frac,
            payload: self.payload@,
            trailing_bytes: self.trailing_bytes,
            size_field_matches: self.size_field_matches,
        }
    }
}

/// What a datagram means.
pub open spec fn parsed(buf: Seq<u8>) -> Result<PacketView, ParseError> {
    let header = header_of(be32(buf, 0) as u32);
    if buf.len() < MIN_DATAGRAM_BYTES {
        Err(ParseError::TooShort { len: buf.len() as usize, need: MIN_DATAGRAM_BYTES })
    } else if header.packet_type != IF_DATA_PACKET_TYPE {
        Err(ParseError::UnsupportedPacketType(header.packet_type))
    } else if header.trailer_present {
        Err(ParseError::UnsupportedTrailer)
    } else {
        let available = buf.len() - HEADER_BYTES;
        Ok(
            PacketView {
                header,
                stream_id: be32(buf, 4) as u32,
                ts_int: be32(buf, 8) as u32,
                ts_frac: be64(buf, 12) as u64,
                payload: buf.subrange(
                    HEADER_BYTES as int,
                    HEADER_BYTES + available - available % 4,
                ),
                trailing_bytes: (available % 4) as usize,
                size_field_matches: header.declared() == buf.len(),
            },
        )
    }
}

/// `outcome` is the parse of `buf`.
pub open spec fn is_parse_of(buf: Seq<u8>, outcome: Result<Packet<'_>, ParseError>) -> bool {
    match (outcome, parsed(buf)) {
        (Ok(packet), Ok(expected)) => packet@ == expected,
        (Err(error), Err(expected)) => error == expected,
        _ => false,
    }
}

/// Parses one UDP datagram into an IF Data packet.
///
/// Sizes the payload from the datagram length, floor-aligned to 32-bit words.
pub fn parse_datagram(buf: &[u8]) -> (outcome: Result<Packet<'_>, ParseError>)
    ensures
        is_parse_of(buf@, outcome),
{
    if buf.len() < MIN_DATAGRAM_BYTES {
        return Err(ParseError::TooShort { len: buf.len(), need: MIN_DATAGRAM_BYTES });
    }
    let header: Header = parse_header(read_u32(buf, 0));
    if header.packet_type != IF_DATA_PACKET_TYPE {
        return Err(ParseError::UnsupportedPacketType(header.packet_type));
    }
    if header.trailer_present {
        return Err(ParseError::UnsupportedTrailer);
    }
    let stream_id: u32 = read_u32(buf, 4);
    let ts_int: u32 = read_u32(buf, 8);
    let ts_frac: u64 = read_u64(buf, 12);
    let available: usize = buf.len() - HEADER_BYTES;
    let payload_len: usize = available - available % 4;
    Ok(
        Packet {
            header,
            stream_id,
            ts_int,
            ts_frac,
            payload: slice_subrange(buf, HEADER_BYTES, HEADER_BYTES + payload_len),
            trailing_bytes: available - payload_len,
            size_field_matches: header.declared_bytes() == buf.len(),
        },
    )
}

/// The smaller of `x` and the largest 64-bit number.
pub open spec fn saturated(x: int) -> int {
    if x > u64::MAX {
        u64::MAX as int
    } else {
        x
    }
}

impl PacketView {
    /// The sample counter that the two timestamp fields stand for.
    pub open spec fn counter(self, sample_rate: u64) -> u64 {
        saturated(saturated(self.ts_int * sample_rate) + self.ts_frac) as u64
    }

    /// The `k`-th component of the payload.
    pub open spec fn component(self, k: int) -> int {
        be_i16(self.payload, 2 * k)
    }

    /// The payload as interleaved 8-bit I/Q: every component shifted right by 8.
    pub open spec fn as_i8(self) -> Seq<i8> {
        Seq::new(self.payload.len() / 2, |k: int| (self.component(k) / 256) as i8)
    }

    /// The payload as interleaved 16-bit I/Q.
    pub open spec fn as_i16(self) -> Seq<i16> {
        Seq::new(self.payload.len() / 2, |k: int| self.component(k) as i16)
    }
}

proof fn lemma_component_range(bytes: Seq<u8>, at: int)
    ensures
        -0x8000 <= be_i16(bytes, at) <= 0x7FFF,
        -128 <= be_i16(bytes, at) / 256 <= 127,
{
}

impl<'a> Packet<'a> {
    /// Complete complex samples carried by this packet.
    pub fn complex_samples(&self) -> (count: usize)
        ensures
            count == self@.payload.len() / 4,
    {
        self.payload.len() / 4
    }

    /// Number of interleaved i16 components in the payload.
    pub fn components(&self) -> (count: usize)
        ensures
            count == self@.payload.len() / 2,
    {
        self.payload.len() / 2
    }

    /// Monotonic sample counter built from both timestamp fields.
    ///
    /// `ts_int * sample_rate + ts_frac`, matching how the sender encoded it. The
    /// step between consecutive packets is the only loss signal available: the
    /// stream id and packet count are both 0.
    pub fn sample_counter(&self, sample_rate: u64) -> (counter: u64)
        ensures
            counter == self@.counter(sample_rate),
    {
        let whole: u64 = match (self.ts_int as u64).checked_mul(sample_rate) {
            Some(product) => product,
            None => u64::MAX,
        };
        whole.saturating_add(self.ts_frac)
    }

    /// Converts the sc16 payload to interleaved 8-bit I/Q.
    ///
    /// Each component is shifted right by 8: sc16 full scale 32767 >> 8 == 127, the
    /// 8-bit full scale. The bytes must not be reinterpreted as i8: that yields
    /// interleaved garbage with a plausible-looking noise floor.
    pub fn to_i8(&self) -> (iq: Vec<i8>)
        ensures
            iq@ == self@.as_i8(),
    {
        let count: usize = self.components();
        let mut iq: Vec<i8> = Vec::with_capacity(count);
        let mut k: usize = 0;
        while k < count
            invariant
                k <= count,
                count == self.payload.len() / 2,
                iq@ == self@.as_i8().take(k as int),
            decreases count - k,
        {
            let component: i16 = read_i16(self.payload, 2 * k);
            proof {
                lemma_component_range(self.payload@, 2 * k);
                assert(component >> 8 == component / 256) by (bit_vector);
            }
            iq.push((component >> 8) as i8);
            assert(iq@ =~= self@.as_i8().take(k + 1));
            k += 1;
        }
        assert(self@.as_i8().take(count as int) =~= self@.as_i8());
        iq
    }

    /// The sc16 payload at full resolution, as interleaved 16-bit I/Q.
    pub fn to_i16(&self) -> (iq: Vec<i16>)
        ensures
            iq@ == self@.as_i16(),
    {
        let count: usize = self.components();
        let mut iq: Vec<i16> = Vec::with_capacity(count);
        let mut k: usize = 0;
        while k < count
            invariant
                k <= count,
                count == self.payload.len() / 2,
                iq@ == self@.as_i16().take(k as int),
            decreases count - k,
        {
            iq.push(read_i16(self.payload, 2 * k));
            proof {
                lemma_component_range(self.payload@, 2 * k);
            }
            assert(iq@ =~= self@.as_i16().take(k + 1));
            k += 1;
        }
        assert(self@.as_i16().take(count as int) =~= self@.as_i16());
        iq
    }
}

// ---------------- Laws of the wire format ----------------

/// A 32-bit number as the four bytes that carry it.
pub open spec fn be_bytes(value: nat) -> Seq<u8> {
    seq![
        (value / 0x100_0000 % 0x100) as u8,
        (value / 0x1_0000 % 0x100) as u8,
        (value / 0x100 % 0x100) as u8,
        (value % 0x100) as u8,
    ]
}

/// A datagram as a sender frames it: the fields at their places, then the payload.
pub open spec fn framed(
    header: u32,
    stream_id: u32,
    ts_int: u32,
    ts_frac: u64,
    payload: Seq<u8>,
) -> Seq<u8> {
    be_bytes(header as nat) + be_bytes(stream_id as nat) + be_bytes(ts_int as nat) + be_bytes(
        (ts_frac / 0x1_0000_0000) as nat,
    ) + be_bytes((ts_frac % 0x1_0000_0000) as nat) + payload
}

/// The header word with the given fields and nothing else set.
pub open spec fn header_word(packet_type: nat, tsi: nat, tsf: nat, packet_count: nat, size_words: nat) -> nat {
    packet_type * 0x1000_0000 + tsi * 0x0040_0000 + tsf * 0x0010_0000 + packet_count * 0x0001_0000
        + size_words
}

proof fn lemma_word_round_trip(bytes: Seq<u8>, at: int, value: nat)
    requires
        0 <= at,
        at + 4 <= bytes.len(),
        value <= u32::MAX,
        bytes.subrange(at, at + 4) == be_bytes(value),
    ensures
        be32(bytes, at) == value,
{
    let word = bytes.subrange(at, at + 4);
    assert(bytes[at] == word[0] && bytes[at + 1] == word[1] && bytes[at + 2] == word[2] && bytes[at
        + 3] == word[3]);
}

/// Parsing gives back what was framed: every field as it was sent and the payload
/// down to whole words, with the bytes left over counted.
pub proof fn law_parsing_gives_back_what_was_framed(
    header: u32,
    stream_id: u32,
    ts_int: u32,
    ts_frac: u64,
    payload: Seq<u8>,
)
    requires
        payload.len() >= 4,
        header_of(header).packet_type == IF_DATA_PACKET_TYPE,
        !header_of(header).trailer_present,
    ensures
        parsed(framed(header, stream_id, ts_int, ts_frac, payload)) == Ok::<PacketView, ParseError>(
            PacketView {
                header: header_of(header),
                stream_id,
                ts_int,
                ts_frac,
                payload: payload.take(payload.len() - payload.len() % 4),
                trailing_bytes: (payload.len() % 4) as usize,
                size_field_matches: header_of(header).declared() == HEADER_BYTES + payload.len(),
            },
        ),
{
    let buf = framed(header, stream_id, ts_int, ts_frac, payload);
    let high = (ts_frac / 0x1_0000_0000) as nat;
    let low = (ts_frac % 0x1_0000_0000) as nat;
    assert(buf.len() == HEADER_BYTES + payload.len());
    assert(buf.subrange(0, 4) =~= be_bytes(header as nat));
    assert(buf.subrange(4, 8) =~= be_bytes(stream_id as nat));
    assert(buf.subrange(8, 12) =~= be_bytes(ts_int as nat));
    assert(buf.subrange(12, 16) =~= be_bytes(high));
    assert(buf.subrange(16, 20) =~= be_bytes(low));
    lemma_word_round_trip(buf, 0, header as nat);
    lemma_word_round_trip(buf, 4, stream_id as nat);
    lemma_word_round_trip(buf, 8, ts_int as nat);
    lemma_word_round_trip(buf, 12, high);
    lemma_word_round_trip(buf, 16, low);
    assert(be64(buf, 12) == ts_frac);
    assert(buf.subrange(20, 20 + payload.len() - payload.len() % 4) =~= payload.take(
        payload.len() - payload.len() % 4,
    ));
}

/// A header word composed of fields decodes to those fields.
pub proof fn law_header_fields_round_trip(
    packet_type: nat,
    tsi: nat,
    tsf: nat,
    packet_count: nat,
    size_words: nat,
)
    requires
        packet_type < 16,
        tsi < 4,
        tsf < 4,
        packet_count < 16,
        size_words < 0x1_0000,
    ensures
        ({
            let word = header_word(packet_type, tsi, tsf, packet_count, size_words);
            &&& word <= u32::MAX
            &&& header_of(word as u32) == (Header {
                packet_type: packet_type as u8,
                class_id_present: false,
                trailer_present: false,
                tsi: tsi as u8,
                tsf: tsf as u8,
                packet_count: packet_count as u8,
                size_words: size_words as u16,
                raw: word as u32,
            })
        }),
{
    let lower = tsi * 64 + tsf * 16 + packet_count;
    lemma_fields_of_word((packet_type * 16) as int, lower as int, size_words as int);
    assert(lower / 64 == tsi);
    assert(lower / 16 % 4 == tsf);
    assert(lower % 16 == packet_count);
}

/// A packet of `samples` complex samples, framed with the word count that it has,
/// parses with all of them and a size field that agrees. At the nominal sample
/// count it has the nominal size.
pub proof fn law_well_framed_packets_match_their_size_field(
    samples: nat,
    stream_id: u32,
    ts_int: u32,
    ts_frac: u64,
    payload: Seq<u8>,
)
    requires
        0 < samples,
        5 + samples <= 0x1_0000,
        payload.len() == samples * 4,
    ensures
        ({
            let header = header_word(
                IF_DATA_PACKET_TYPE as nat,
                TSI_OTHER as nat,
                TSF_SAMPLE_COUNT as nat,
                0,
                (4 + samples) as nat,
            );
            let buf = framed(header as u32, stream_id, ts_int, ts_frac, payload);
            &&& parsed(buf) matches Ok(packet) && packet.size_field_matches
                && packet.trailing_bytes == 0 && packet.payload == payload
                && packet.payload.len() / 4 == samples
            &&& samples == NOMINAL_COMPLEX_SAMPLES ==> header == 0x10D0_0804 && buf.len()
                == NOMINAL_DATAGRAM_BYTES
        }),
{
    let header = header_word(
        IF_DATA_PACKET_TYPE as nat,
        TSI_OTHER as nat,
        TSF_SAMPLE_COUNT as nat,
        0,
        (4 + samples) as nat,
    );
    law_header_fields_round_trip(
        IF_DATA_PACKET_TYPE as nat,
        TSI_OTHER as nat,
        TSF_SAMPLE_COUNT as nat,
        0,
        (4 + samples) as nat,
    );
    law_parsing_gives_back_what_was_framed(header as u32, stream_id, ts_int, ts_frac, payload);
    assert(payload.take(payload.len() as int) =~= payload);
}

/// Every byte of an accepted datagram is header, payload or counted as trailing.
pub proof fn law_every_byte_is_accounted_for(buf: Seq<u8>)
    ensures
        parsed(buf) matches Ok(packet) ==> {
            &&& HEADER_BYTES + packet.payload.len() + packet.trailing_bytes == buf.len()
            &&& packet.payload.len() % 4 == 0
            &&& packet.payload.len() >= 4
            &&& packet.trailing_bytes <= 3
        },
{
}

/// Full scale maps to full scale: the loudest 16-bit components become the loudest
/// 8-bit ones, every component keeps its sign and its place in the order, and its
/// 8-bit form is its upper half.
pub proof fn law_eight_bit_conversion_keeps_scale(packet: PacketView, j: int, k: int)
    requires
        0 <= j < packet.payload.len() / 2,
        0 <= k < packet.payload.len() / 2,
    ensures
        packet.as_i16()[j] == 0x7FFF ==> packet.as_i8()[j] == 127,
        packet.as_i16()[j] == -0x8000 ==> packet.as_i8()[j] == -128,
        packet.as_i8()[j] < 0 <==> packet.as_i16()[j] < 0,
        packet.as_i16()[j] <= packet.as_i16()[k] ==> packet.as_i8()[j] <= packet.as_i8()[k],
        packet.as_i8()[j] * 256 <= packet.as_i16()[j] < packet.as_i8()[j] * 256 + 256,
{
    lemma_component_range(packet.payload, 2 * j);
    lemma_component_range(packet.payload, 2 * k);
}

/// A later timestamp has a later counter, across the carry into seconds too, up to
/// the point where the counter saturates.
pub proof fn law_counter_follows_the_timestamps(
    earlier: PacketView,
    later: PacketView,
    sample_rate: u64,
)
    requires
        earlier.ts_frac < sample_rate,
        earlier.ts_int < later.ts_int || (earlier.ts_int == later.ts_int && earlier.ts_frac
            < later.ts_frac),
    ensures
        earlier.counter(sample_rate) <= later.counter(sample_rate),
        earlier.counter(sample_rate) < u64::MAX ==> earlier.counter(sample_rate) < later.counter(
            sample_rate,
        ),
{
    let a = earlier.ts_int as int;
    let b = later.ts_int as int;
    let r = sample_rate as int;
    assert(a * r >= 0 && b * r >= 0) by (nonlinear_arith)
        requires
            a >= 0,
            b >= 0,
            r >= 0,
    ;
    if a < b {
        assert(a * r + r <= b * r) by (nonlinear_arith)
            requires
                a + 1 <= b,
                r >= 0,
        ;
    }
}

// ---------------- Loss tracking ----------------

/// One detected discontinuity in the sample counter.
#[derive(Debug, Clone, Copy, PartialEq, Eq, Structural)]
pub struct Gap {
    /// Sample counter of the packet that closed the gap.
    pub at_counter: u64,
    /// Samples never delivered between the two packets.
    pub missing_samples: u64,
}

/// What a [`GapTracker`] has counted.
#[derive(Debug, Clone, Copy, PartialEq, Eq, Structural)]
pub struct LossTotals {
    pub gaps: u64,
    pub missing_samples: u64,
    pub out_of_order: u64,
}

/// Tracks the unwrapped sample counter across packets and reports gaps.
///
/// An unmarked dropout on a waterfall looks exactly like a legitimate narrowband
/// signal, so gaps are counted and surfaced instead of being interpolated over.
#[derive(Debug, Clone)]
pub struct GapTracker {
    /// Counter of the packet seen last.
    last: Option<u64>,
    /// Expected step between consecutive full packets, in samples.
    expected_step: u64,
    pub gaps: u64,
    pub missing_samples: u64,
    pub last_step: u64,
    /// Packets that arrived with a non-monotonic (reordered/stale) counter.
    pub out_of_order: u64,
}

/// Model of a [`GapTracker`].
pub struct TrackerState {
    pub last: Option<u64>,
    pub expected_step: u64,
    pub gaps: int,
    pub missing_samples: int,
    pub last_step: int,
    pub out_of_order: int,
}

impl TrackerState {
    /// The gap that a counter closes: one where the counter moved past the expected
    /// step by more than one sample of slack.
    pub open spec fn gap_at(self, counter: u64) -> Option<Gap> {
        match self.last {
            Some(previous) if counter - previous > self.expected_step + 1 => Some(
                Gap {
                    at_counter: counter,
                    missing_samples: (counter - previous - self.expected_step) as u64,
                },
            ),
            _ => None,
        }
    }

    /// The state after observing a counter.
    pub open spec fn observed(self, counter: u64) -> TrackerState {
        match self.last {
            None => TrackerState { last: Some(counter), ..self },
            Some(previous) => if counter < previous {
                TrackerState {
                    last: Some(counter),
                    out_of_order: self.out_of_order + 1,
                    ..self
                }
            } else {
                match self.gap_at(counter) {
                    Some(gap) => TrackerState {
                        last: Some(counter),
                        last_step: counter - previous,
                        gaps: self.gaps + 1,
                        missing_samples: self.missing_samples + gap.missing_samples,
                        ..self
                    },
                    None => TrackerState {
                        last: Some(counter),
                        last_step: counter - previous,
                        ..self
                    },
                }
            },
        }
    }

    /// The counts that observing a counter changes still fit their fields.
    pub open spec fn can_observe(self, counter: u64) -> bool {
        let after = self.observed(counter);
        &&& after.gaps <= u64::MAX
        &&& after.missing_samples <= u64::MAX
        &&& after.out_of_order <= u64::MAX
        &&& self.last is Some && counter >= self.last->0 ==> self.expected_step < u64::MAX
    }
}

impl View for GapTracker {
    type V = TrackerState;

    closed spec fn view(&self) -> TrackerState {
        TrackerState {
            last: self.last,
            expected_step: self.expected_step,
            gaps: self.gaps as int,
            missing_samples: self.missing_samples as int,
            last_step: self.last_step as int,
            out_of_order: self.out_of_order as int,
        }
    }
}

impl Default for GapTracker {
    fn default() -> (tracker: GapTracker)
        ensures
            tracker@ == (TrackerState {
                last: None,
                expected_step: 0,
                gaps: 0,
                missing_samples: 0,
                last_step: 0,
                out_of_order: 0,
            }),
    {
        GapTracker::new(0)
    }
}

impl GapTracker {
    /// `expected_step` is the nominal samples per packet (2048 for a full read).
    pub fn new(expected_step: u64) -> (tracker: GapTracker)
        ensures
            tracker@ == (TrackerState {
                last: None,
                expected_step,
                gaps: 0,
                missing_samples: 0,
                last_step: 0,
                out_of_order: 0,
            }),
    {
        GapTracker {
            last: None,
            expected_step,
            gaps: 0,
            missing_samples: 0,
            last_step: 0,
            out_of_order: 0,
        }
    }

    /// Observes a packet's sample counter. Returns the gap, when the step exceeded
    /// the expected spacing, i.e. samples were lost or never sent.
    ///
    /// A smaller step is not loss (overlapping frames, or a short read), and a
    /// counter that went backwards is counted separately rather than treated as a
    /// gap of unbounded size. The packet's own sample count decides nothing.
    pub fn observe(&mut self, counter: u64, samples_in_packet: u64) -> (gap: Option<Gap>)
        requires
            old(self)@.can_observe(counter),
        ensures
            gap == old(self)@.gap_at(counter),
            final(self)@ == old(self)@.observed(counter),
    {
        let previous: u64 = match self.last {
            Some(previous) => previous,
            None => {
                self.last = Some(counter);
                return None;
            },
        };
        if counter < previous {
            self.out_of_order += 1;
            self.last = Some(counter);
            return None;
        }
        let step: u64 = counter - previous;
        self.last_step = step;
        self.last = Some(counter);
        // One sample of slack covers truncation effects at the sender.
        if step > self.expected_step + 1 {
            let missing: u64 = step - self.expected_step;
            self.gaps += 1;
            self.missing_samples += missing;
            return Some(Gap { at_counter: counter, missing_samples: missing });
        }
        None
    }

    /// Whether the counts have room for observing `counter`.
    pub fn has_room_for(&self, counter: u64) -> (room: bool)
        ensures
            room == self@.can_observe(counter),
    {
        match self.last {
            None => true,
            Some(previous) => {
                if counter < previous {
                    self.out_of_order < u64::MAX
                } else if self.expected_step == u64::MAX {
                    false
                } else if counter - previous > self.expected_step + 1 {
                    self.gaps < u64::MAX && self.missing_samples <= u64::MAX - (counter - previous
                        - self.expected_step)
                } else {
                    true
                }
            },
        }
    }

    /// The counts so far.
    pub fn totals(&self) -> (totals: LossTotals)
        ensures
            totals.gaps == self@.gaps,
            totals.missing_samples == self@.missing_samples,
            totals.out_of_order == self@.out_of_order,
    {
        LossTotals {
            gaps: self.gaps,
            missing_samples: self.missing_samples,
            out_of_order: self.out_of_order,
        }
    }

    /// Current sample counter, if any packet has been seen.
    pub fn last_counter(&self) -> (counter: Option<u64>)
        ensures
            counter == self@.last,
    {
        self.last
    }
}

// ---------------- Laws of loss tracking ----------------

/// The state after observing counters one after the other.
pub open spec fn observed_all(state: TrackerState, counters: Seq<u64>) -> TrackerState
    decreases counters.len(),
{
    if counters.len() == 0 {
        state
    } else {
        observed_all(state, counters.drop_last()).observed(counters.last())
    }
}

/// The gaps reported while observing counters one after the other.
pub open spec fn gaps_reported(state: TrackerState, counters: Seq<u64>) -> Seq<Gap>
    decreases counters.len(),
{
    if counters.len() == 0 {
        Seq::empty()
    } else {
        let front = gaps_reported(state, counters.drop_last());
        match observed_all(state, counters.drop_last()).gap_at(counters.last()) {
            Some(gap) => front.push(gap),
            None => front,
        }
    }
}

/// Samples missing in a list of gaps.
pub open spec fn missing_in(gaps: Seq<Gap>) -> int
    decreases gaps.len(),
{
    if gaps.len() == 0 {
        0
    } else {
        missing_in(gaps.drop_last()) + gaps.last().missing_samples
    }
}

/// Gaps are never silent: the counts are exactly the gaps that were reported and
/// the samples missing in them.
pub proof fn law_counts_are_the_reported_gaps(state: TrackerState, counters: Seq<u64>)
    ensures
        observed_all(state, counters).gaps == state.gaps + gaps_reported(state, counters).len(),
        observed_all(state, counters).missing_samples == state.missing_samples + missing_in(
            gaps_reported(state, counters),
        ),
        observed_all(state, counters).expected_step == state.expected_step,
        counters.len() > 0 ==> observed_all(state, counters).last == Some(counters.last()),
    decreases counters.len(),
{
    if counters.len() > 0 {
        let front = counters.drop_last();
        law_counts_are_the_reported_gaps(state, front);
        let before = observed_all(state, front);
        let reported = gaps_reported(state, front);
        match before.gap_at(counters.last()) {
            Some(gap) => {
                assert(reported.push(gap).drop_last() =~= reported);
            },
            None => {},
        }
    }
}

/// A stream whose counter never goes back and never steps further than expected,
/// give or take one sample, shows no gap and nothing out of order.
pub proof fn law_contiguous_streams_show_no_loss(state: TrackerState, counters: Seq<u64>)
    requires
        state.last matches Some(previous) ==> counters.len() > 0 ==> 0 <= counters[0] - previous
            <= state.expected_step + 1,
        forall|i: int|
            0 < i < counters.len() ==> 0 <= #[trigger] counters[i] - counters[i - 1]
                <= state.expected_step + 1,
    ensures
        gaps_reported(state, counters).len() == 0,
        observed_all(state, counters).gaps == state.gaps,
        observed_all(state, counters).missing_samples == state.missing_samples,
        observed_all(state, counters).out_of_order == state.out_of_order,
    decreases counters.len(),
{
    law_counts_are_the_reported_gaps(state, counters);
    if counters.len() > 0 {
        let front = counters.drop_last();
        assert forall|i: int| 0 < i < front.len() implies 0 <= #[trigger] front[i] - front[i - 1]
            <= state.expected_step + 1 by {
            assert(counters[i] - counters[i - 1] <= state.expected_step + 1);
        }
        law_contiguous_streams_show_no_loss(state, front);
        law_counts_are_the_reported_gaps(state, front);
        if front.len() > 0 {
            let i = counters.len() - 1;
            assert(0 <= counters[i] - counters[i - 1] <= state.expected_step + 1);
        }
    }
}

/// The first packet ever seen is no gap, whatever its counter.
pub proof fn law_first_packet_is_no_gap(state: TrackerState, counter: u64)
    requires
        state.last is None,
    ensures
        state.gap_at(counter) is None,
        state.observed(counter).gaps == state.gaps,
        state.observed(counter).missing_samples == state.missing_samples,
        state.observed(counter).out_of_order == state.out_of_order,
{
}

/// A counter that goes back is counted as out of order and never as a gap.
pub proof fn law_going_back_is_no_gap(state: TrackerState, counter: u64)
    requires
        state.last matches Some(previous) && counter < previous,
    ensures
        state.gap_at(counter) is None,
        state.observed(counter).out_of_order == state.out_of_order + 1,
        state.observed(counter).gaps == state.gaps,
        state.observed(counter).missing_samples == state.missing_samples,
{
}

// ---------------- What the operations mean ----------------

/// A datagram is refused exactly where it is shorter than a header and one sample,
/// where the upper half of its first byte is not the IF Data type, or where the trailer
/// bit is set; the first of these that holds is the one reported, with its numbers.
pub proof fn law_refusals_have_exactly_three_reasons(buf: Seq<u8>)
    requires
        buf.len() <= usize::MAX,
    ensures
        buf.len() < 24 <==> (parsed(buf) matches Err(ParseError::TooShort { len, need })
            && len == buf.len() && need == 24),
        buf.len() < 24 <==> (parsed(buf) matches Err(ParseError::TooShort { .. })),
        (buf.len() >= 24 && buf[0] / 16 != 1) <==> (parsed(buf) matches Err(
            ParseError::UnsupportedPacketType(t),
        ) && t == buf[0] / 16),
        (buf.len() >= 24 && buf[0] / 16 != 1) <==> (parsed(buf) matches Err(
            ParseError::UnsupportedPacketType(_),
        )),
        (buf.len() >= 24 && buf[0] / 16 == 1 && buf[0] / 2 % 2 == 1) <==> parsed(buf) == Err::<
            PacketView,
            ParseError,
        >(ParseError::UnsupportedTrailer),
        (buf.len() >= 24 && buf[0] / 16 == 1 && buf[0] / 2 % 2 == 0) <==> parsed(buf) is Ok,
{
    if buf.len() >= 24 {
        lemma_header_bytes(buf);
    }
}

/// The header word in terms of its four bytes.
proof fn lemma_header_bytes(buf: Seq<u8>)
    requires
        buf.len() >= 4,
    ensures
        be32(buf, 0) == buf[0] * 0x100_0000 + buf[1] * 0x1_0000 + buf[2] * 0x100 + buf[3],
        be32(buf, 0) <= u32::MAX,
        header_of(be32(buf, 0) as u32).packet_type == buf[0] / 16,
        header_of(be32(buf, 0) as u32).class_id_present == (buf[0] / 8 % 2 == 1),
        header_of(be32(buf, 0) as u32).trailer_present == (buf[0] / 2 % 2 == 1),
        header_of(be32(buf, 0) as u32).tsi == buf[1] / 64,
        header_of(be32(buf, 0) as u32).tsf == buf[1] / 16 % 4,
        header_of(be32(buf, 0) as u32).packet_count == buf[1] % 16,
        header_of(be32(buf, 0) as u32).size_words == buf[2] * 256 + buf[3],
{
    lemma_fields_of_word(buf[0] as int, buf[1] as int, buf[2] * 256 + buf[3]);
}

/// The fields of a word in terms of its upper two bytes and its lower half.
proof fn lemma_fields_of_word(a: int, b: int, low: int)
    requires
        0 <= a < 0x100,
        0 <= b < 0x100,
        0 <= low < 0x1_0000,
    ensures
        ({
            let word = a * 0x100_0000 + b * 0x1_0000 + low;
            let header = header_of(word as u32);
            &&& 0 <= word <= u32::MAX
            &&& header.packet_type == a / 16
            &&& header.class_id_present == (a / 8 % 2 == 1)
            &&& header.trailer_present == (a / 2 % 2 == 1)
            &&& header.tsi == b / 64
            &&& header.tsf == b / 16 % 4
            &&& header.packet_count == b % 16
            &&& header.size_words == low
            &&& header.raw == word
        }),
{
    let word = a * 0x100_0000 + b * 0x1_0000 + low;
    assert(word / 0x1000_0000 == a / 16 && a / 16 < 16);
    assert(word / 0x800_0000 == a / 8);
    assert(word / 0x200_0000 == a / 2);
    assert(word / 0x40_0000 % 4 == b / 64) by {
        assert(word / 0x40_0000 == a * 4 + b / 64);
    }
    assert(word / 0x10_0000 % 4 == b / 16 % 4) by {
        assert(word / 0x10_0000 == a * 16 + b / 16);
    }
    assert(word / 0x1_0000 % 16 == b % 16) by {
        assert(word / 0x1_0000 == a * 0x100 + b);
    }
    assert(word % 0x1_0000 == low);
}

/// Every field of an accepted datagram stands at its bytes, most significant byte
/// first: the header fields in the first word, stream id, seconds and fraction behind
/// it, then the payload in whole words, byte for byte; what is left over is counted,
/// and the size field matches exactly where it declares the delivered length.
pub proof fn law_fields_stand_at_their_bytes(buf: Seq<u8>)
    requires
        buf.len() <= usize::MAX,
    ensures
        parsed(buf) matches Ok(packet) ==> {
            &&& packet.header.raw == buf[0] * 0x100_0000 + buf[1] * 0x1_0000 + buf[2] * 0x100
                + buf[3]
            &&& packet.header.packet_type == buf[0] / 16
            &&& packet.header.class_id_present == (buf[0] / 8 % 2 == 1)
            &&& packet.header.trailer_present == (buf[0] / 2 % 2 == 1)
            &&& packet.header.tsi == buf[1] / 64
            &&& packet.header.tsf == buf[1] / 16 % 4
            &&& packet.header.packet_count == buf[1] % 16
            &&& packet.header.size_words == buf[2] * 256 + buf[3]
            &&& packet.stream_id == buf[4] * 0x100_0000 + buf[5] * 0x1_0000 + buf[6] * 0x100
                + buf[7]
            &&& packet.ts_int == buf[8] * 0x100_0000 + buf[9] * 0x1_0000 + buf[10] * 0x100
                + buf[11]
            &&& packet.ts_frac == (buf[12] * 0x100_0000 + buf[13] * 0x1_0000 + buf[14] * 0x100
                + buf[15]) * 0x1_0000_0000 + buf[16] * 0x100_0000 + buf[17] * 0x1_0000 + buf[18]
                * 0x100 + buf[19]
            &&& packet.payload.len() == buf.len() - 20 - (buf.len() - 20) % 4
            &&& forall|i: int| 0 <= i < packet.payload.len() ==> #[trigger] packet.payload[i]
                == buf[20 + i]
            &&& packet.trailing_bytes == (buf.len() - 20) % 4
            &&& packet.size_field_matches == (buf.len() == 4 * (buf[2] * 256 + buf[3] + 1))
        },
{
    if buf.len() >= 24 {
        lemma_header_bytes(buf);
    }
}

/// A header word with any bits: every field is read back, the class and trailer bits
/// among them, whatever the two bits without a meaning hold.
pub proof fn law_every_header_bit_is_read(
    packet_type: nat,
    class_id: bool,
    spare: bool,
    trailer: bool,
    other: bool,
    tsi: nat,
    tsf: nat,
    packet_count: nat,
    size_words: nat,
)
    requires
        packet_type < 16,
        tsi < 4,
        tsf < 4,
        packet_count < 16,
        size_words < 0x1_0000,
    ensures
        ({
            let word = packet_type * 0x1000_0000 + (if class_id {
                0x800_0000int
            } else {
                0
            }) + (if spare {
                0x400_0000int
            } else {
                0
            }) + (if trailer {
                0x200_0000int
            } else {
                0
            }) + (if other {
                0x100_0000int
            } else {
                0
            }) + tsi * 0x40_0000 + tsf * 0x10_0000 + packet_count * 0x1_0000 + size_words;
            let header = header_of(word as u32);
            &&& 0 <= word <= u32::MAX
            &&& header.packet_type == packet_type
            &&& header.class_id_present == class_id
            &&& header.trailer_present == trailer
            &&& header.tsi == tsi
            &&& header.tsf == tsf
            &&& header.packet_count == packet_count
            &&& header.size_words == size_words
            &&& header.raw == word
            &&& header.declared() == 4 * size_words + 4
        }),
{
    let flags: int = (if class_id {
        8int
    } else {
        0
    }) + (if spare {
        4int
    } else {
        0
    }) + (if trailer {
        2int
    } else {
        0
    }) + (if other {
        1int
    } else {
        0
    });
    let upper = packet_type * 16 + flags;
    let lower = tsi * 64 + tsf * 16 + packet_count;
    lemma_fields_of_word(upper, lower as int, size_words as int);
    assert(upper / 16 == packet_type);
    assert(upper / 8 % 2 == flags / 8);
    assert(upper / 2 % 2 == flags / 2 % 2);
    assert(lower / 64 == tsi);
    assert(lower / 16 % 4 == tsf);
    assert(lower % 16 == packet_count);
}

/// Components survive the wire: where the payload carries a 16-bit number as its two
/// bytes, most significant first and in two's complement, that number is read back, and
/// its 8-bit form is the number divided by 256 and rounded down.
pub proof fn law_components_survive_the_wire(packet: PacketView, k: int, value: i16)
    requires
        0 <= k,
        2 * k + 1 < packet.payload.len(),
        packet.payload[2 * k] == (value as int % 0x1_0000) / 0x100,
        packet.payload[2 * k + 1] == value as int % 0x100,
    ensures
        packet.component(k) == value,
        packet.as_i16().len() == packet.payload.len() / 2,
        packet.as_i8().len() == packet.payload.len() / 2,
        packet.as_i16()[k] == value,
        packet.as_i8()[k] * 256 <= value < packet.as_i8()[k] * 256 + 256,
{
    let v = value as int;
    let u = v % 0x1_0000;
    assert(u == if v < 0 {
        v + 0x1_0000
    } else {
        v
    });
    assert(u % 0x100 == v % 0x100);
    lemma_component_range(packet.payload, 2 * k);
}

/// The sample counter is seconds times rate plus fraction, and the largest 64-bit
/// number where that does not fit.
pub proof fn law_counter_is_seconds_times_rate_plus_fraction(packet: PacketView, sample_rate: u64)
    ensures
        packet.ts_int * sample_rate + packet.ts_frac <= 0xFFFF_FFFF_FFFF_FFFF
            ==> packet.counter(sample_rate) == packet.ts_int * sample_rate + packet.ts_frac,
        packet.ts_int * sample_rate + packet.ts_frac > 0xFFFF_FFFF_FFFF_FFFF ==> packet.counter(
            sample_rate,
        ) == 0xFFFF_FFFF_FFFF_FFFF,
{
    let product = packet.ts_int * sample_rate;
    assert(product >= 0) by (nonlinear_arith)
        requires
            product == packet.ts_int * sample_rate,
    ;
}

/// A gap is reported exactly where a counter lies beyond the previous one by more than
/// the expected step and one sample, however far; it names that counter and the samples
/// missing, the step less the expected one. A counter that goes back is counted as out
/// of order, any other is neither, and nothing else changes.
pub proof fn law_gaps_are_exactly_the_jumps(state: TrackerState, counter: u64)
    ensures
        ({
            let gap = state.gap_at(counter);
            let after = state.observed(counter);
            &&& after.last == Some(counter)
            &&& after.expected_step == state.expected_step
            &&& match state.last {
                None => gap is None && after.gaps == state.gaps && after.missing_samples
                    == state.missing_samples && after.out_of_order == state.out_of_order
                    && after.last_step == state.last_step,
                Some(previous) => {
                    let step = counter - previous;
                    &&& gap is Some <==> step > state.expected_step + 1
                    &&& gap matches Some(gap) ==> gap.at_counter == counter && gap.missing_samples
                        == step - state.expected_step
                    &&& after.gaps == state.gaps + if step > state.expected_step + 1 {
                        1int
                    } else {
                        0
                    }
                    &&& after.missing_samples == state.missing_samples + if step
                        > state.expected_step + 1 {
                        step - state.expected_step
                    } else {
                        0
                    }
                    &&& after.out_of_order == state.out_of_order + if step < 0 {
                        1int
                    } else {
                        0
                    }
                    &&& after.last_step == if step < 0 {
                        state.last_step
                    } else {
                        step
                    }
                },
            }
        }),
{
}

/// A counter can be observed exactly where the counts that it raises fit 64 bits (and,
/// for a counter that does not go back, the expected step leaves room for its slack).
pub proof fn law_observing_needs_only_room_for_the_counts(state: TrackerState, counter: u64)
    requires
        0 <= state.gaps <= u64::MAX,
        0 <= state.missing_samples <= u64::MAX,
        0 <= state.out_of_order <= u64::MAX,
    ensures
        state.can_observe(counter) <==> match state.last {
            None => true,
            Some(previous) => {
                &&& counter < previous ==> state.out_of_order + 1 <= 0xFFFF_FFFF_FFFF_FFFF
                &&& counter >= previous ==> state.expected_step + 1 <= 0xFFFF_FFFF_FFFF_FFFF
                &&& counter - previous > state.expected_step + 1 ==> state.gaps + 1
                    <= 0xFFFF_FFFF_FFFF_FFFF && state.missing_samples + counter - previous
                    - state.expected_step <= 0xFFFF_FFFF_FFFF_FFFF
            },
        },
{
}

/// No dropout is silent: over counters that never go back, the way from the first to
/// the last is covered by one expected step (and one sample of slack) per packet and by
/// the samples counted as missing.
pub proof fn law_every_advance_is_covered_or_missing(
    expected_step: u64,
    counters: Seq<u64>,
    fresh: TrackerState,
)
    requires
        counters.len() > 0,
        fresh.last is None,
        fresh.expected_step == expected_step,
        forall|i: int, j: int|
            0 <= i <= j < counters.len() ==> #[trigger] counters[i] <= #[trigger] counters[j],
    ensures
        counters.last() - counters[0] <= observed_all(fresh, counters).missing_samples
            - fresh.missing_samples + (counters.len() - 1) * (expected_step + 1),
        observed_all(fresh, counters).out_of_order == fresh.out_of_order,
    decreases counters.len(),
{
    let front = counters.drop_last();
    law_counts_are_the_reported_gaps(fresh, counters);
    if front.len() > 0 {
        assert forall|i: int, j: int| 0 <= i <= j < front.len() implies #[trigger] front[i]
            <= #[trigger] front[j] by {
            assert(counters[i] <= counters[j]);
        }
        law_every_advance_is_covered_or_missing(expected_step, front, fresh);
        law_counts_are_the_reported_gaps(fresh, front);
        let before = observed_all(fresh, front);
        law_gaps_are_exactly_the_jumps(before, counters.last());
        assert(counters[front.len() - 1] <= counters[front.len() as int]);
        let e = expected_step + 1;
        assert((front.len() - 1) * e + e == front.len() * e) by (nonlinear_arith);
        assert(front.len() == counters.len() - 1);
    } else {
        assert(observed_all(fresh, front) == fresh);
        assert((counters.len() - 1) * (expected_step + 1) == 0) by (nonlinear_arith)
            requires
                counters.len() == 1,
        ;
    }
}

/// Errors are told with their numbers: both lengths in decimal, the type in base sixteen.
pub proof fn law_errors_tell_their_numbers(len: usize, need: usize, packet_type: u8)
    ensures
        (ParseError::TooShort { len, need }).text() == "datagram too short: "@ + numeral(
            len as nat,
            10,
        ) + " bytes, need at least "@ + numeral(need as nat, 10),
        ParseError::UnsupportedPacketType(packet_type).text()
            == "unsupported VITA49 packet type 0x"@ + numeral(packet_type as nat, 16)
            + " (expected IF Data 0x1)"@,
        ParseError::UnsupportedTrailer.text()
            == "VITA49 trailer bit set; payload trailer not supported"@,
{
}

/// A packet's model has the packet's fields and the bytes of its payload.
pub proof fn law_packets_are_modelled_by_their_fields(packet: Packet<'_>)
    ensures
        packet@.header == packet.header,
        packet@.stream_id == packet.stream_id,
        packet@.ts_int == packet.ts_int,
        packet@.ts_frac == packet.ts_frac,
        packet@.payload == packet.payload@,
        packet@.trailing_bytes == packet.trailing_bytes,
        packet@.size_field_matches == packet.size_field_matches,
        NOMINAL_SAMPLE_RATE == 2_000_000,
        NOMINAL_COMPLEX_SAMPLES == 2048,
        NOMINAL_DATAGRAM_BYTES == 8212,
        MIN_DATAGRAM_BYTES == 24,
        HEADER_BYTES == 20,
{
}

/// A parse result says what the bytes mean: a packet with the fields that they hold, or
/// the error that they call for.
pub proof fn law_parse_results_say_what_the_bytes_mean(
    buf: Seq<u8>,
    outcome: Result<Packet<'_>, ParseError>,
)
    requires
        is_parse_of(buf, outcome),
    ensures
        outcome is Ok <==> parsed(buf) is Ok,
        outcome matches Ok(packet) ==> parsed(buf) == Ok::<PacketView, ParseError>(packet@),
        outcome matches Err(error) ==> parsed(buf) == Err::<PacketView, ParseError>(error),
{
}

} // verus!
