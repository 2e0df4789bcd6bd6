//! Latency probing: jitter ranges, dispatch decisions, order statistics and
//! report rendering for batches of timed HTTP requests.

pub mod digits;
pub mod order;
pub mod stats;
pub mod fixed;
pub mod duration;
pub mod request;
pub mod histogram;
pub mod summary;
pub mod report;
pub mod dispatch;
