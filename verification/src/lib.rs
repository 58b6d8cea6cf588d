//! Statistics about Nginx access logs: how often each status code was
//! returned, the sizes of the responses, and the endpoints with the largest
//! response and with the most failed requests.

pub mod endpoint;
pub mod failures;
pub mod lexical;
pub mod nginx_log;
pub mod sizes;
pub mod stats;
pub mod summary;

pub use crate::nginx_log::NginxLog;
pub use crate::nginx_log::NginxLogLine;
pub use crate::sizes::SizeStats;
pub use crate::stats::LogStats;
