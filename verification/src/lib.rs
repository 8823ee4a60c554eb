//! Core of a recurring clock-in scheduler: a self-describing binary token
//! decoder, a persistent task store with audited terminal transitions, a
//! next-occurrence calculator over IANA time zones, and the non-overlapping
//! sweep guard and per-task decision logic of the execution runner.

pub mod clock;
pub mod codec;
pub mod commands;
pub mod config;
pub mod cookies;
pub mod runner;
pub mod sessions;
pub mod store;
pub mod token;
pub mod types;
