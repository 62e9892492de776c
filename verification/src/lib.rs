//! Finds the formants of a voice as it speaks, by linear prediction.
//!
//! Samples are gathered into chunks ([`audio`]), cut into frames ([`framer`]), turned into
//! the coefficients of a filter ([`lpc`]) and from there into formants ([`formants`],
//! [`analysis`]), which are kept in stable slots ([`tracking`]) and shown over time
//! ([`plot`]) behind what a vowel aims at ([`phoneme`], [`overlay`]). The arithmetic is that
//! of the 32-bit and 64-bit binary formats, bit for bit ([`float`], [`number`]).
//!
//! What each operation does, from what goes in to what comes out, is stated in [`operations`].
//! That rests on what holds of frames and filters ([`windowing`], [`loudness`],
//! [`correlation`], [`equations`], [`predictor`], [`exact_filters`]), of poles ([`resonance`])
//! and of formants from frame to frame ([`continuity`]), and on when the arithmetic is exact
//! ([`exact`]).

pub mod analysis;
pub mod audio;
pub mod channel;
pub mod continuity;
pub mod correlation;
pub mod equations;
pub mod exact;
pub mod exact_filters;
pub mod float;
pub mod formants;
pub mod framer;
pub mod laws;
pub mod loudness;
pub mod lpc;
pub mod number;
pub mod operations;
pub mod order;
pub mod overlay;
pub mod phoneme;
pub mod plot;
pub mod predictor;
pub mod resonance;
pub mod rounding;
pub mod tracking;
pub mod windowing;
