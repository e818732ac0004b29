//! Measures round-trip latency to a set of discovered network endpoints and
//! ranks them. The heart is the probe-output parser: it attributes the
//! `=<digits>ms` samples of the external ping tool's text to the intended
//! target and keeps the least one. Around it stand the batch model — a
//! concurrency limiter that never lets more than ten probes fly at once, a
//! progress counter, and per-endpoint recording in which no probe's failure
//! touches any other endpoint — and the ranking that orders endpoints by
//! latency, the unreachable ones last and left off the printed list.

pub mod batch;
pub mod endpoint;
pub mod parsing;
pub mod rank;
