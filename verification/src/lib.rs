//! A verified core for a personal time tracker: clients and work sessions,
//! a single-active-session lifecycle, elapsed-time accounting with manual
//! minute offsets, calendar windows for daily / pay-week / monthly summaries,
//! and a schema-versioned image of the persisted store with forward-only
//! migrations.

pub mod calendar;
pub mod clock;
pub mod config;
pub mod input;
pub mod lifecycle;
pub mod migrate;
pub mod models;
pub mod store;
pub mod summary;
pub mod time;
pub mod views;
pub mod wire;
