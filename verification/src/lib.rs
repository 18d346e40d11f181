//! Verified core of a point cloud converter and streamer.
use vstd::prelude::*;

pub mod assetmaps;
pub mod assets;
pub mod bits;
pub mod bytes;
pub mod cascade;
pub mod cell;
pub mod cellbuffer;
pub mod cellsets;
pub mod conversion;
pub mod event_set;
pub mod format;
pub mod fxmap;
pub mod hex;
pub mod naming;
pub mod point;
pub mod queue;
pub mod render;
pub mod report;
pub mod sorted;
pub mod source;
pub mod stream;
pub mod total;
pub mod visible;

verus! {
} // verus!
