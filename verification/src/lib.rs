//! The build phase of cfirewalld: declarations in, `ipset restore` and
//! `iptables-restore` streams out.
//!
//! `decl` parses the declaration stream, `resolve` decides which names need
//! DNS and what the lookups amount to, `sets` builds the ipsets, `probe`
//! remembers which families accept a rule tail, and `rules` builds and renders
//! each family's chains. `map` and `text` are the ordered map and the text
//! model the others are stated in.

use vstd::prelude::*;

pub mod decl;
pub mod map;
pub mod probe;
pub mod resolve;
pub mod rules;
pub mod sets;
pub mod text;

verus! {

} // verus!
