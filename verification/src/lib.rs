//! Control logic of the chonk synthesizer: parameters and patches, the
//! performer (chords and arpeggiator), voice allocation, the message
//! protocol and the session log.
//!
//! Audio samples and parameter values are single-precision numbers. This
//! crate never computes with them; where a rule depends on one, the number is
//! held and read as its IEEE 754 bit pattern.
pub mod arpeggio;
pub mod chords;
pub mod factory;
pub mod history;
pub mod ieee754;
pub mod ipc;
pub mod listing;
pub mod names;
pub mod noise;
pub mod params;
pub mod performance;
pub mod queue;
pub mod synth;
pub mod web;
