//! Normalisation of pixel-placement event logs: field parsers, the
//! identifier registry, the record normaliser and the batching state machine.

pub mod color;
pub mod coords;
pub mod date;
pub mod error;
pub mod input;
pub mod numeric;
pub mod pipeline;
pub mod record;
pub mod registry;
pub mod text;
