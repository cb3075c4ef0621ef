//! A persistent record keeper for culinary adventures: restaurant visits with
//! a dish, a rating key, free-text notes and a visit date.
//!
//! The store keeps records in a stable ordered map keyed by a server-assigned
//! id, with a persisted counter that hands out strictly increasing ids. Every
//! operation's effect on the map of live records is stated in its contract.

pub mod backend;
pub mod codec;
pub mod record;
pub mod store;
pub mod text;
