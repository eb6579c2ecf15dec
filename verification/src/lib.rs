//! Cabrillo contest-log handling: parsing, validation, canonical
//! serialization, and callsign-to-entity resolution by longest prefix match.

pub mod date;
pub mod entity;
pub mod log;
pub mod qso;
pub mod resolve;
pub mod roundtrip;
pub mod text;

pub use crate::date::{Date, Time};
pub use crate::entity::{Entity, PrefixIndex, build_index, enrich_callsign2, parse_u32, parse_milli};
pub use crate::log::CabrilloLog;
pub use crate::qso::{CabrilloError, QSO, is_valid_callsign, is_valid_band, is_valid_mode};
pub use crate::resolve::{enrich_callsign, get_all_prefixes_descending};
