//! A verified decoder for binary time-zone database files (the TZif layout)
//! together with a from-scratch civil-calendar converter that turns an
//! elapsed-seconds counter into a `DD.MM.YYYY HH:MM:SS` wall-clock string.
//!
//! The crate is organised bottom-up: a cursor over an owned byte buffer, a
//! little-endian field decoder built on it, the structural decoder for the
//! time-zone file, the calendar arithmetic, and finally the `Time` widget
//! that a status-line host drives.

pub mod civil;
pub mod cursor;
pub mod error;
pub mod fields;
pub mod time;
pub mod tzif;
