//! A library for a one-wire temperature monitoring service.
//!
//! Sensor devices appear as directories whose status file carries a line
//! `... t=<millidegrees> ...`; this crate parses such content, keeps the
//! latest reading per sensor in a registry together with one exported gauge
//! series per sensor, and renders a textual exposition of all series.
//! Readings are held as millidegree-Celsius integers, which round-trip
//! exactly to the decimal Celsius text the exposition shows.

pub mod assoc;
pub mod devices;
pub mod reading;
pub mod registry;
pub mod render;
