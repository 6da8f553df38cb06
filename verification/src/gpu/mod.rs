//! The device path of the booster.
//!
//! On a device a round is a series of kernel launches. The kernels here compute what a launch
//! computes, thread by thread, on buffers in host memory. Where threads of a kernel add to
//! the same place, the device leaves their order open; here they add in the order of their
//! indices. [`plan`] decides which launches a round is made of.

pub mod acc;
pub mod budgets;
pub mod exact;
pub mod fit;
pub mod gains;
pub mod hist;
pub mod importance;
pub mod laws;
pub mod leaf;
pub mod levels;
pub mod machine;
pub mod marks;
pub mod plan;
pub mod profile;
pub mod quantiles;
pub mod rows;
pub mod run;
pub mod scales;
pub mod setup;
pub mod split;
pub mod spreads;
pub mod steps;
pub mod ties;
