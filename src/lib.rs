pub mod interval;
pub mod parser;
pub mod text;
pub mod uptime;
pub mod types;

pub use types::{ChargerId, ChargerReport, Interval, Station, StationId};
