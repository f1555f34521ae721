//! Verified core of the weather radar service: ensemble statistics over
//! member grids, the binary forecast cache format, neighbourhood rain masks,
//! the radar-actuals history store, timeline arithmetic and the parsers for
//! the KNMI file names and time strings.

pub mod constants;
pub mod text;
pub mod calendar;
pub mod split;
pub mod models;
pub mod names;
pub mod forecast;
pub mod bytes;
pub mod cache;
pub mod actuals;
pub mod mask;
pub mod stats;
pub mod timeline;
pub mod render;
pub mod rtcor;
pub mod knmi;
pub mod request;
pub mod harmonie;
pub mod pmm;
