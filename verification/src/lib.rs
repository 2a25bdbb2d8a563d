//! Verified core of a voice gender classifier: label encoding, audio framing
//! geometry, spectrogram shaping, training-set balancing and batching, the
//! early-stopping monitor, dataset manifest parsing and the layout of
//! activation images.  Floating-point signal processing and the neural
//! network live outside this library.

pub mod config;
pub mod decode;
pub mod framing;
pub mod label;
pub mod layout;
pub mod manifest;
pub mod training;

pub use crate::label::Label;
