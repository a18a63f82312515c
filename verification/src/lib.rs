//! Incremental transfer bookkeeping: numeric-identifier extraction from file
//! names, a persisted watermark codec, watermark-gated scanning with an
//! ID-ordered candidate list, and the running-maximum / commit accounting of a
//! concurrent copy run.

pub mod digits;
pub mod engine;
pub mod names;
pub mod scan;
pub mod watermark;
