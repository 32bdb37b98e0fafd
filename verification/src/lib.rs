//! Signal path of a packet-radio waterfall: VITA 49 datagrams in, spectrogram
//! rows out, and the bookkeeping that keeps every loss visible on the way.

pub mod bridge;
pub mod cli;
pub mod consumer;
pub mod parallel;
pub mod publish;
pub mod receiver;
pub mod stft;
pub mod text;
pub mod vita49;

pub use stft::{
    bytes_to_complex, complex_vec_to_bytes, stft, Iq, Row, StftProcessor, FFT_SIZE, HOP_SIZE,
};
