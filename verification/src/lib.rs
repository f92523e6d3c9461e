//! An adaptive bitwise compressor: a context-mixing predictor driving a
//! binary arithmetic coder.

pub mod squash;
pub mod state_table;
pub mod state_map;
pub mod apm;
pub mod predictor;
pub mod buffered;
pub mod coder;
pub mod compress;
pub mod roundtrip;

