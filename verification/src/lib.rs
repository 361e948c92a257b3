//! The LXS registry: reads the manifests of every published version of every Linux
//! Service, picks the latest version of each, and builds the category counts, the browse
//! cards and the detail views that the registry serves.
use vstd::prelude::*;

pub mod catalog;
pub mod latest;
pub mod laws;
pub mod model;
pub mod order;
pub mod refresh;
pub mod semver;
pub mod text;

verus! {

} // verus!
