use vstd::prelude::*;

pub mod binning;
pub mod chase;
pub mod deck;
pub mod exprtree;
pub mod fpfragility;
pub mod hetero;
pub mod lcg;
pub mod logger;
pub mod logread;
pub mod measure;
pub mod scene;
pub mod sheet;
pub mod sim;
pub mod simlog;
pub mod wal;

verus! {
} // verus!
