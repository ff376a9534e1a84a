//! The catalog of facts and the raw translation tables, as parsed.

pub mod entries;
pub mod translations;
