//! Histogram-based gradient boosting with oblivious trees.

pub mod arith;
pub mod binning;
pub mod booster;
pub mod cells;
pub mod config;
pub mod cpu;
pub mod credits;
pub mod cuts;
pub mod data;
pub mod encoding;
pub mod exact;
pub mod figures;
pub mod flags;
pub mod float;
pub mod folds;
pub mod forest;
pub mod gains;
pub mod gpu;
pub mod gradients;
pub mod grids;
pub mod histogram;
pub mod importance;
pub mod layout;
pub mod leaf;
pub mod losses;
pub mod metrics;
pub mod model;
pub mod modes;
pub mod numerals;
pub mod objective;
pub mod order;
pub mod pairs;
mod par;
pub mod ranks;
pub mod reals;
pub mod report;
pub mod rounding;
pub mod samples;
pub mod sampling;
pub mod scores;
pub mod serve;
pub mod smoothing;
pub mod split;
pub mod steps;
pub mod sums;
pub mod text;
pub mod words;
