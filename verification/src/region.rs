//! The region descriptor and region-membership checks.

use vstd::prelude::*;
use crate::bytes::{bytes_le, bytes_lt, lex_le, lex_lt};
use crate::errors::{is_key_not_in_region, Error};

verus! {

/// An immutable descriptor of one region: the key range `[start_key,
/// end_key)` it owns, where an empty `end_key` means "up to the end of the
/// whole key space". Captured by value when a snapshot is built; never
/// mutated afterwards.
pub struct Region {
    pub id: u64,
    pub start_key: Vec<u8>,
    pub end_key: Vec<u8>,
}

/// The mathematical content of a region descriptor.
pub ghost struct RegionView {
    pub id: u64,
    pub start: Seq<u8>,
    pub end: Seq<u8>,
}

impl View for Region {
    type V = RegionView;

    open spec fn view(&self) -> RegionView {
        RegionView { id: self.id, start: self.start_key@, end: self.end_key@ }
    }
}

/// `k` lies in the region: `start <= k < end`, the upper bound exclusive,
/// with an empty end meaning unbounded.
pub open spec fn key_in_region(k: Seq<u8>, r: RegionView) -> bool {
    lex_le(r.start, k) && (r.end.len() == 0 || lex_lt(k, r.end))
}

/// `k` is an acceptable backward-seek target: `start <= k <= end`. The upper
/// bound is inclusive here, since "the last entry at or before the region's
/// exclusive end" is a legitimate query even though `end` itself is not data.
pub open spec fn key_in_region_inclusive(k: Seq<u8>, r: RegionView) -> bool {
    lex_le(r.start, k) && (r.end.len() == 0 || lex_le(k, r.end))
}

/// The descriptor's range is ordered: where the end is bounded, the start
/// does not exceed it. Descriptors produced by the shard-management layer
/// satisfy this; the membership checks above do not presuppose it.
pub open spec fn region_ordered(r: RegionView) -> bool {
    r.end.len() == 0 || lex_le(r.start, r.end)
}

/// Seek asymmetry at the boundary: over any ordered descriptor with a
/// bounded end, the exclusive end key is always accepted as a backward-seek
/// target and always rejected as a forward one.
pub proof fn lemma_seek_target_asymmetry(r: RegionView)
    requires
        region_ordered(r),
        r.end.len() > 0,
    ensures
        key_in_region_inclusive(r.end, r),
        !key_in_region(r.end, r),
{
    crate::bytes::lemma_lex_basics(r.end, r.end);
}

impl Region {
    /// A region descriptor over `[start_key, end_key)`.
    pub fn new(id: u64, start_key: Vec<u8>, end_key: Vec<u8>) -> (r: Region)
        ensures
            r@ == (RegionView { id, start: start_key@, end: end_key@ }),
    {
        Region { id, start_key, end_key }
    }

    /// An identical descriptor; regions are freely copied, never shared
    /// mutably.
    pub fn duplicate(&self) -> (r: Region)
        ensures
            r@ == self@,
    {
        Region {
            id: self.id,
            start_key: vstd::slice::slice_to_vec(self.start_key.as_slice()),
            end_key: vstd::slice::slice_to_vec(self.end_key.as_slice()),
        }
    }
}

/// Whether `key` lies in `[start_key, end_key)` of `region`.
pub fn key_in_region_exec(key: &[u8], region: &Region) -> (r: bool)
    ensures
        r == key_in_region(key@, region@),
{
    bytes_le(region.start_key.as_slice(), key) && (region.end_key.len() == 0 || bytes_lt(
        key,
        region.end_key.as_slice(),
    ))
}

/// Whether `key` lies in `[start_key, end_key]` of `region`.
pub fn key_in_region_inclusive_exec(key: &[u8], region: &Region) -> (r: bool)
    ensures
        r == key_in_region_inclusive(key@, region@),
{
    bytes_le(region.start_key.as_slice(), key) && (region.end_key.len() == 0 || bytes_le(
        key,
        region.end_key.as_slice(),
    ))
}

/// Rejects a key outside `[start_key, end_key)` with `KeyNotInRegion`.
pub fn check_key_in_region(key: &[u8], region: &Region) -> (r: Result<(), Error>)
    ensures
        r matches Ok(()) <==> key_in_region(key@, region@),
        r matches Err(e) ==> is_key_not_in_region(e, key@, region@),
{
    if key_in_region_exec(key, region) {
        Ok(())
    } else {
        Err(Error::KeyNotInRegion {
            key: vstd::slice::slice_to_vec(key),
            region_id: region.id,
            start_key: vstd::slice::slice_to_vec(region.start_key.as_slice()),
            end_key: vstd::slice::slice_to_vec(region.end_key.as_slice()),
        })
    }
}

/// Rejects a key outside `[start_key, end_key]` with `KeyNotInRegion`.
pub fn check_key_in_region_inclusive(key: &[u8], region: &Region) -> (r: Result<(), Error>)
    ensures
        r matches Ok(()) <==> key_in_region_inclusive(key@, region@),
        r matches Err(e) ==> is_key_not_in_region(e, key@, region@),
{
    if key_in_region_inclusive_exec(key, region) {
        Ok(())
    } else {
        Err(Error::KeyNotInRegion {
            key: vstd::slice::slice_to_vec(key),
            region_id: region.id,
            start_key: vstd::slice::slice_to_vec(region.start_key.as_slice()),
            end_key: vstd::slice::slice_to_vec(region.end_key.as_slice()),
        })
    }
}

} // verus!
