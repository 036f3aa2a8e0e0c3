//! The output document: all entries with generation and expiry times.
use vstd::prelude::*;
use crate::resolve::{RoaEntry, entry_views};

verus! {

/// How long, in seconds, a generated dataset stays valid: seven days.
pub const CACHE_EXPIRY: u64 = 604800;

#[derive(PartialEq, Eq, Structural, Clone, Copy, Debug)]
pub struct Metadata {
    pub counts: usize,
    pub generated: u64,
    pub valid: u64,
}

#[derive(Clone, Debug)]
pub struct Routes {
    pub metadata: Metadata,
    pub roas: Vec<RoaEntry>,
}

/// The dataset of `roas` generated at `now` (seconds since the epoch).
pub fn assemble(roas: Vec<RoaEntry>, now: u64) -> (r: Routes)
    requires
        now <= u64::MAX - CACHE_EXPIRY,
    ensures
        r.roas@ == roas@,
        r.metadata.counts == roas@.len(),
        r.metadata.generated == now,
        r.metadata.valid == now + CACHE_EXPIRY,
        entry_views(r.roas@) == entry_views(roas@),
{
    let counts = roas.len();
    Routes { metadata: Metadata { counts, generated: now, valid: now + CACHE_EXPIRY }, roas }
}

} // verus!
