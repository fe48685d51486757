//! Viewing-log statistics: filter a log of viewing events to one calendar
//! month and reduce it to one of three sorted reports — total watch time per
//! channel, distinct viewers per channel, or the busiest 5-minute load
//! windows.

pub mod aggregate;
pub mod buckets;
pub mod duration;
pub mod filter;
pub mod laws;
pub mod record;
pub mod report;
pub mod sort;

pub use aggregate::duration_report;
pub use aggregate::duration_totals;
pub use aggregate::viewer_counts;
pub use buckets::load_windows;
pub use duration::render_duration;
pub use filter::filter_month;
pub use record::Record;
pub use record::Timestamp;
pub use report::Report;
pub use report::ReportKind;
pub use report::run_report;
