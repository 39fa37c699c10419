//! USB bandwidth monitoring logic.

pub mod capacity;
pub mod capture;
pub mod config;
pub mod connector;
pub mod decimal;
pub mod device;
pub mod diag;
pub mod filter;
pub mod findings;
pub mod fixture_corpus;
pub mod fixture_replay;
pub mod headless;
pub mod json;
pub mod number;
pub mod order;
pub mod path;
pub mod snapshot;
pub mod speed;
pub mod stats;
pub mod sysfs;
pub mod table;
pub mod text;
pub mod usbids;
pub mod usbmon;
