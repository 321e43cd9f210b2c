//! A verified core for a small host-profile manager.
//!
//! Named profiles (flat files of host-mapping text) are composed into a
//! single hosts file: each in-use profile contributes a block consisting of
//! an annotation line `# hostname=<name>` followed by the profile's raw
//! content. This crate holds the pure logic: splitting bytes into lines,
//! scanning the hosts file for annotated profile names, rendering the hosts
//! file from an ordered active set, and the per-command state transitions.
//! All file and terminal I/O lives outside.

pub mod active;
pub mod cli;
pub mod laws;
pub mod lines;
pub mod paths;
pub mod render;
pub mod scan;

use vstd::prelude::*;

verus! {

} // verus!
