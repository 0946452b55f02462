//! The decision logic of a daemon that gives device memory protection to the
//! process tree of the focused window.

pub mod activation;
pub mod args;
pub mod cgroup;
pub mod filter;
pub mod hyprland;
pub mod policy;
pub mod process;
pub mod rounds;
pub mod sample;
pub mod socket;
pub mod text;
pub mod units;
