//! Finds and describes the browser-automation sessions running on a machine
//! (`agent-browser` and Playwright), and decides which processes to signal when one is stopped.
use vstd::prelude::*;

pub mod command;
pub mod inventory;
pub mod laws;
pub mod number;
pub mod process;
pub mod procfs;
pub mod ps;
pub mod session;
pub mod snapshot;
pub mod terminate;
pub mod text;
pub mod tree;

verus! {
} // verus!
