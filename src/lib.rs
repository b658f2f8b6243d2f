//! Browsing a large hierarchy of named groups and numeric datasets: a fuzzy-filtered view
//! of the hierarchy that keeps node identity and a valid selection across queries, a cache
//! that starts each dataset's analysis at most once, and exact statistics of integer data.

use vstd::prelude::*;

pub mod analysis;
pub mod cache;
pub mod modes;
pub mod num_utils;
pub mod pixel;
pub mod session;
pub mod tree;

verus! {

} // verus!
