//! A log-shipping pipeline core: framing of raw byte streams into discrete
//! message frames, a normalized record model, and a verified LTSV encoder
//! with escaping and key-precedence rules.

pub mod config;
pub mod ltsv_encoder;
pub mod ltsv_laws;
pub mod record;
pub mod splitter;
pub mod tcpco_input;
pub mod text;
