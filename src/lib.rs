//! Weather-station telemetry: table extraction, time-windowed risk
//! aggregation, and deduplicated notification fanout.
pub mod decimal;
pub mod stamp;
pub mod table;
pub mod aggregate;
pub mod risk;
pub mod fanout;
pub mod backfill;
pub mod response;
pub mod session;
pub mod catalog;
