//! What the layer below offers: memory that all PEs of a team, or only some,
//! can reach.

use vstd::prelude::*;

verus! {

/// How PEs are connected.
#[derive(Clone, Copy, Debug, PartialEq, Eq, Structural)]
pub enum Backend {
    Rofi,
    Local,
    Shmem,
}

/// Who takes part in an allocation.
#[derive(Debug)]
pub enum AllocationType {
    Local,
    Global,
    Sub(Vec<usize>),
}

} // verus!
