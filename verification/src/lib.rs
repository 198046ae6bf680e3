//! A four-track, sixteen-step sequencer: bounded domain types, a clock
//! abstraction that numbers ticks from 1, and a step engine that turns each
//! tick into an ordered batch of note and controller events.

pub mod clock;
pub mod sequencer;
pub mod types;
