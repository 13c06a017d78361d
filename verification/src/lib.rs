//! Pairwise-comparison ranking: projects of items, bitmasks that record which
//! pairs were compared, windows of mutually unrated items, the byte format in
//! which the bitmasks are cached, the items file, the table of project folders,
//! and which files of a folder are taken as items.
use vstd::prelude::*;

pub mod bitmask;
pub mod cache;
pub mod error;
pub mod items;
pub mod listing;
pub mod project;
pub mod random;
pub mod ranker;
pub mod table;

verus! {

} // verus!
