//! Error kinds and the corruption policy.
//!
//! An out-of-range key seen on the read path is either a benign caller bug or
//! a symptom of corruption. Every such violation increments a critical-error
//! counter; when the fail-fast policy is active it additionally sets a sticky
//! corruption mark. The mark is a process-health signal: a fail-fast
//! deployment is expected to abort the process as soon as it turns true,
//! which is the caller's duty, since verified code never terminates the
//! process itself.

use vstd::prelude::*;
use vstd::slice::slice_to_vec;
use crate::region::{Region, RegionView};

verus! {

/// What a read operation of this crate can fail with.
#[derive(Debug)]
pub enum Error {
    /// A lookup or seek target lies outside the region's permitted range.
    KeyNotInRegion { key: Vec<u8>, region_id: u64, start_key: Vec<u8>, end_key: Vec<u8> },
    /// The requested column family does not exist; a configuration error,
    /// never escalated by the corruption policy.
    ColumnFamilyNotFound { cf: Vec<u8> },
    /// A failure of the underlying engine or of a scan visitor, propagated
    /// unchanged. The in-memory engine model of this crate never fails, so
    /// this kind is only ever raised by visitors and by callers above.
    EngineIo,
}

/// `e` is the `KeyNotInRegion` error naming key `k` and region `r`.
pub open spec fn is_key_not_in_region(e: Error, k: Seq<u8>, r: RegionView) -> bool {
    match e {
        Error::KeyNotInRegion { key, region_id, start_key, end_key } => {
            &&& key@ == k
            &&& region_id == r.id
            &&& start_key@ == r.start
            &&& end_key@ == r.end
        },
        _ => false,
    }
}

/// `e` is the `ColumnFamilyNotFound` error naming the column family `cf`.
pub open spec fn is_cf_not_found(e: Error, cf: Seq<u8>) -> bool {
    match e {
        Error::ColumnFamilyNotFound { cf: name } => name@ == cf,
        _ => false,
    }
}

/// Process-health state owned by the surrounding service: how many boundary
/// violations were seen, and whether the sticky corruption mark is set.
pub struct Health {
    pub critical_errors: u64,
    pub corruption_marked: bool,
}

/// The critical-error counter after one more violation (saturating).
pub open spec fn bumped(c: u64) -> u64 {
    if c == u64::MAX {
        c
    } else {
        (c + 1) as u64
    }
}

impl Health {
    /// A fresh health state: no violations seen, mark clear.
    pub fn new() -> (h: Health)
        ensures
            h.critical_errors == 0,
            !h.corruption_marked,
    {
        Health { critical_errors: 0, corruption_marked: false }
    }
}

/// The corruption policy's single decision point, reached whenever a read
/// names a key outside its region. It always counts the violation; under the
/// fail-fast policy it also sets the sticky corruption mark. It always hands
/// back the typed error: the process abort that fail-fast deployments demand
/// is performed by the unverified layer that watches the mark.
pub fn on_out_of_range_key(fail_fast: bool, health: &mut Health, key: &[u8], region: &Region) -> (r:
    Result<(), Error>)
    ensures
        final(health).critical_errors == bumped(old(health).critical_errors),
        final(health).corruption_marked == (old(health).corruption_marked || fail_fast),
        r matches Err(e) && is_key_not_in_region(e, key@, region@),
{
    if health.critical_errors < u64::MAX {
        health.critical_errors = health.critical_errors + 1;
    }
    if fail_fast {
        health.corruption_marked = true;
    }
    Err(Error::KeyNotInRegion {
        key: slice_to_vec(key),
        region_id: region.id,
        start_key: slice_to_vec(region.start_key.as_slice()),
        end_key: slice_to_vec(region.end_key.as_slice()),
    })
}

} // verus!
