use vstd::prelude::*;

pub mod bytes;
pub mod paths;
pub mod text;
pub mod monitor;
pub mod sorting;
pub mod forecast;
pub mod offload;
pub mod moves;
pub mod scan;
pub mod search;
pub mod rules;
pub mod reclaim_plan;
pub mod volumes;
pub mod folder_lens;
pub mod clean;
pub mod apfs;
pub mod theme;
pub mod codec;
pub mod history;
pub mod developer;
pub mod reclaim_history;
pub mod navigation;
pub mod leftovers;
pub mod file_review;
pub mod treemap;

verus! {
} // verus!
