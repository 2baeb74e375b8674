//! Track-library ingest logic: JSON projection of Subsonic / Navidrome songs
//! into track rows, timestamp handling, and the id-remapping batch upsert.
use vstd::prelude::*;

pub mod json;
pub mod text;
pub mod time;
pub mod repos;
pub mod mapping;
pub mod delta;

verus! {

} // verus!
