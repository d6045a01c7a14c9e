//! The core of a metrics bridge for Awair air-quality sensors: the store of
//! the latest readings, the refresh loop that fills it, and what a scrape
//! publishes from it.
//!
//! - [`store`] holds the latest value of every gauge of every source.
//! - [`refresh`] decides, event by event, which source to fetch, what to
//!   write, and when to sleep; [`history`] states what holds of the store
//!   after any run of events.
//! - [`exposition`] gathers a snapshot into the families that a scrape
//!   publishes, and makes the response that carries them.
//! - [`reading`] and [`gauges`] describe an observation and the gauges it
//!   feeds; [`order`] is the order in which entries are listed.
//!
//! Nothing here fetches, sleeps, listens or formats a number: values are
//! carried as the bits of the doubles they are, and whoever drives the loop
//! does the fetching and the encoding.

pub mod exposition;
pub mod gauges;
pub mod history;
pub mod order;
pub mod reading;
pub mod refresh;
pub mod store;
