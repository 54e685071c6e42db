//! Bound clipping and the region-scoped iterator.
//!
//! A `RegionIterator` is a bounds-clamped cursor over one column family of a
//! snapshot. Its bounds are fixed at construction by intersecting the
//! caller's optional bounds with the region's encoded boundary, so every
//! position it can reach holds region-owned data; seek targets are
//! additionally validated against the region through the corruption policy.

use vstd::prelude::*;
use vstd::slice::slice_to_vec;
use vstd::string::StringSliceAdditionalSpecFns;
use crate::bytes::{
    bytes_le,
    bytes_lt,
    lemma_lex_basics,
    lemma_lex_trans,
    lex_le,
    lex_lt,
    lex_max,
    lex_min,
    opt_bytes,
};
use crate::engine::{copy_kvs, find_cf, sorted_kvs, Kv, KvsView, Snapshot};
use crate::errors::{bumped, is_cf_not_found, is_key_not_in_region, on_out_of_range_key, Error, Health};
use crate::keys::{
    data_key,
    data_key_s,
    enc_end_key,
    enc_end_s,
    enc_start_key,
    enc_start_s,
    lemma_bounded_key_in_region,
    origin_key,
    origin_key_s,
};
use crate::region::{
    key_in_region,
    key_in_region_exec,
    key_in_region_inclusive,
    key_in_region_inclusive_exec,
    Region,
    RegionView,
};

verus! {

broadcast use crate::bytes::lemma_vec_u8_deep_view;

/// Caller-supplied iteration bounds, lower inclusive, upper exclusive, plus
/// a cache-fill hint that is performance-only. A missing or empty bound
/// means "no constraint beyond the region boundary".
pub struct IterOption {
    pub lower_bound: Option<Vec<u8>>,
    pub upper_bound: Option<Vec<u8>>,
    pub fill_cache: bool,
}

impl IterOption {
    /// Bounds as given, with the cache hint.
    pub fn new(lower_bound: Option<Vec<u8>>, upper_bound: Option<Vec<u8>>, fill_cache: bool) -> (r:
        IterOption)
        ensures
            r.lower_bound == lower_bound,
            r.upper_bound == upper_bound,
            r.fill_cache == fill_cache,
    {
        IterOption { lower_bound, upper_bound, fill_cache }
    }

    /// Replaces the lower bound.
    pub fn set_lower_bound(&mut self, bound: Vec<u8>)
        ensures
            final(self).lower_bound matches Some(b) && b@ == bound@,
            final(self).upper_bound == old(self).upper_bound,
            final(self).fill_cache == old(self).fill_cache,
    {
        self.lower_bound = Some(bound);
    }

    /// Replaces the upper bound.
    pub fn set_upper_bound(&mut self, bound: Vec<u8>)
        ensures
            final(self).upper_bound matches Some(b) && b@ == bound@,
            final(self).lower_bound == old(self).lower_bound,
            final(self).fill_cache == old(self).fill_cache,
    {
        self.upper_bound = Some(bound);
    }
}

impl Default for IterOption {
    /// No caller bounds, cache fill on.
    fn default() -> (r: IterOption)
        ensures
            r.lower_bound is None,
            r.upper_bound is None,
            r.fill_cache,
    {
        IterOption { lower_bound: None, upper_bound: None, fill_cache: true }
    }
}

/// The effective physical lower bound: the caller's bound (when present and
/// non-empty) clamped from below by the region's encoded start.
pub open spec fn clip_lower_s(user: Option<Seq<u8>>, r: RegionView) -> Seq<u8> {
    match user {
        Some(k) => if k.len() > 0 {
            lex_max(data_key_s(k), enc_start_s(r))
        } else {
            enc_start_s(r)
        },
        None => enc_start_s(r),
    }
}

/// The effective physical upper bound: the caller's bound (when present and
/// non-empty) clamped from above by the region's encoded end.
pub open spec fn clip_upper_s(user: Option<Seq<u8>>, r: RegionView) -> Seq<u8> {
    match user {
        Some(k) => if k.len() > 0 {
            lex_min(data_key_s(k), enc_end_s(r))
        } else {
            enc_end_s(r)
        },
        None => enc_end_s(r),
    }
}

/// The clipped bounds never escape the region's encoded boundary.
pub proof fn lemma_clip_within_region(user_lower: Option<Seq<u8>>, user_upper: Option<Seq<u8>>, r: RegionView)
    ensures
        lex_le(enc_start_s(r), clip_lower_s(user_lower, r)),
        lex_le(clip_upper_s(user_upper, r), enc_end_s(r)),
{
    match user_lower {
        Some(k) => {
            lemma_lex_basics(data_key_s(k), enc_start_s(r));
            lemma_lex_basics(enc_start_s(r), enc_start_s(r));
        },
        None => {
            lemma_lex_basics(enc_start_s(r), enc_start_s(r));
        },
    }
    match user_upper {
        Some(k) => {
            lemma_lex_basics(data_key_s(k), enc_end_s(r));
            lemma_lex_basics(enc_end_s(r), enc_end_s(r));
        },
        None => {
            lemma_lex_basics(enc_end_s(r), enc_end_s(r));
        },
    }
}

/// A key's physical form never exceeds the lower bound clipped from it: an
/// iterator built for a scan starting at `start` opens exactly at its window.
pub proof fn lemma_seek_start_le_clip(start: Seq<u8>, r: RegionView)
    ensures
        lex_le(data_key_s(start), clip_lower_s(Some(start), r)),
{
    if start.len() == 0 {
        assert(data_key_s(start).drop_first() =~= Seq::<u8>::empty());
        assert(enc_start_s(r).drop_first() =~= r.start);
        assert(data_key_s(start)[0] == enc_start_s(r)[0]);
        assert(lex_le(Seq::<u8>::empty(), r.start));
    } else {
        lemma_lex_basics(data_key_s(start), enc_start_s(r));
        lemma_lex_basics(data_key_s(start), data_key_s(start));
    }
}

/// Computes the effective lower bound for `region` (the Bound Clipper's
/// lower half): `max(physical(user), encodedStart(region))` when a caller
/// bound is present and non-empty, the encoded start otherwise.
pub fn clip_lower(user: &Option<Vec<u8>>, region: &Region) -> (r: Vec<u8>)
    ensures
        r@ == clip_lower_s(opt_bytes(*user), region@),
{
    let region_start = enc_start_key(region);
    match user {
        Some(k) => {
            if k.len() > 0 {
                let dk = data_key(k.as_slice());
                proof {
                    lemma_lex_basics(dk@, region_start@);
                }
                if bytes_lt(dk.as_slice(), region_start.as_slice()) {
                    region_start
                } else {
                    dk
                }
            } else {
                region_start
            }
        },
        None => region_start,
    }
}

/// Computes the effective upper bound for `region` (the Bound Clipper's
/// upper half): `min(physical(user), encodedEnd(region))` when a caller
/// bound is present and non-empty, the encoded end otherwise.
pub fn clip_upper(user: &Option<Vec<u8>>, region: &Region) -> (r: Vec<u8>)
    ensures
        r@ == clip_upper_s(opt_bytes(*user), region@),
{
    let region_end = enc_end_key(region);
    match user {
        Some(k) => {
            if k.len() > 0 {
                let dk = data_key(k.as_slice());
                proof {
                    lemma_lex_basics(dk@, region_end@);
                }
                if bytes_lt(dk.as_slice(), region_end.as_slice()) {
                    dk
                } else {
                    region_end
                }
            } else {
                region_end
            }
        },
        None => region_end,
    }
}

/// Clamps `iter_opt`'s lower bound to `region` (in place, as the iterator
/// constructor uses it).
pub fn set_lower_bound(iter_opt: &mut IterOption, region: &Region)
    ensures
        final(iter_opt).lower_bound matches Some(b) && b@ == clip_lower_s(
            opt_bytes(old(iter_opt).lower_bound),
            region@,
        ),
        final(iter_opt).upper_bound == old(iter_opt).upper_bound,
        final(iter_opt).fill_cache == old(iter_opt).fill_cache,
{
    let clipped = clip_lower(&iter_opt.lower_bound, region);
    iter_opt.lower_bound = Some(clipped);
}

/// Clamps `iter_opt`'s upper bound to `region` (in place, as the iterator
/// constructor uses it).
pub fn set_upper_bound(iter_opt: &mut IterOption, region: &Region)
    ensures
        final(iter_opt).upper_bound matches Some(b) && b@ == clip_upper_s(
            opt_bytes(old(iter_opt).upper_bound),
            region@,
        ),
        final(iter_opt).lower_bound == old(iter_opt).lower_bound,
        final(iter_opt).fill_cache == old(iter_opt).fill_cache,
{
    let clipped = clip_upper(&iter_opt.upper_bound, region);
    iter_opt.upper_bound = Some(clipped);
}

/// The least index in `[lo, hi)` whose key is at least `target`, or `hi`.
fn seek_ge(data: &Vec<Kv>, lo: usize, hi: usize, target: &[u8]) -> (r: usize)
    requires
        lo <= hi <= data@.len(),
    ensures
        lo <= r <= hi,
        forall|j: int| lo <= j < r ==> lex_lt((#[trigger] data.deep_view()[j]).0, target@),
        r < hi ==> lex_le(target@, data.deep_view()[r as int].0),
{
    let mut i: usize = lo;
    while i < hi
        invariant
            lo <= i <= hi <= data@.len(),
            forall|j: int| lo <= j < i ==> lex_lt((#[trigger] data.deep_view()[j]).0, target@),
        decreases hi - i,
    {
        if !bytes_lt(data[i].0.as_slice(), target) {
            proof {
                lemma_lex_basics(data.deep_view()[i as int].0, target@);
            }
            return i;
        }
        i = i + 1;
    }
    i
}

/// One past the greatest index in `[lo, hi)` whose key is at most `target`,
/// or `lo`.
fn seek_last_le(data: &Vec<Kv>, lo: usize, hi: usize, target: &[u8]) -> (r: usize)
    requires
        lo <= hi <= data@.len(),
    ensures
        lo <= r <= hi,
        forall|j: int| r <= j < hi ==> lex_lt(target@, (#[trigger] data.deep_view()[j]).0),
        r > lo ==> lex_le(data.deep_view()[r - 1].0, target@),
{
    let mut i: usize = hi;
    while i > lo
        invariant
            lo <= i <= hi <= data@.len(),
            forall|j: int| i <= j < hi ==> lex_lt(target@, (#[trigger] data.deep_view()[j]).0),
        decreases i,
    {
        if bytes_le(data[i - 1].0.as_slice(), target) {
            return i;
        }
        proof {
            lemma_lex_basics(data.deep_view()[i - 1].0, target@);
            lemma_lex_basics(target@, data.deep_view()[i - 1].0);
        }
        i = i - 1;
    }
    i
}

/// A bounds-clamped cursor over one column family of a snapshot. The window
/// `[lo, hi)` holds exactly the pairs between the clipped bounds; the cursor
/// never leaves it.
pub struct RegionIterator {
    pub data: Vec<Kv>,
    pub region: Region,
    pub lower: Vec<u8>,
    pub upper: Vec<u8>,
    pub lo: usize,
    pub hi: usize,
    pub pos: usize,
    pub positioned: bool,
    pub fail_fast: bool,
}

impl RegionIterator {
    /// The pairs this iterator ranges over, by physical key.
    pub open spec fn kvs(self) -> KvsView {
        self.data.deep_view()
    }

    /// Well-formedness: the data is sorted, the window `[lo, hi)` holds
    /// exactly the keys in `[lower, upper)`, the clipped bounds lie within
    /// the region's encoded boundary, and a positioned cursor is inside the
    /// window.
    pub open spec fn wf(self) -> bool {
        &&& sorted_kvs(self.kvs())
        &&& self.lo <= self.hi <= self.kvs().len()
        &&& lex_le(enc_start_s(self.region@), self.lower@)
        &&& lex_le(self.upper@, enc_end_s(self.region@))
        &&& forall|i: int| 0 <= i < self.lo ==> lex_lt((#[trigger] self.kvs()[i]).0, self.lower@)
        &&& forall|i: int|
            self.lo <= i < self.hi ==> lex_le(self.lower@, (#[trigger] self.kvs()[i]).0) && lex_lt(
                self.kvs()[i].0,
                self.upper@,
            )
        &&& forall|i: int|
            self.hi <= i < self.kvs().len() ==> lex_le(self.upper@, (#[trigger] self.kvs()[i]).0)
        &&& (self.positioned ==> self.lo <= self.pos < self.hi)
    }

    /// The logical pairs visible through this iterator, in forward order:
    /// the window's pairs with their keys converted back to logical form.
    pub open spec fn logical_window(self) -> KvsView {
        Seq::new(
            (self.hi - self.lo) as nat,
            |i: int| (origin_key_s(self.kvs()[self.lo + i].0), self.kvs()[self.lo + i].1),
        )
    }

    /// Everything but the cursor agrees between `a` and `b`.
    pub open spec fn same_view(a: RegionIterator, b: RegionIterator) -> bool {
        &&& b.data.deep_view() == a.data.deep_view()
        &&& b.region@ == a.region@
        &&& b.lower@ == a.lower@
        &&& b.upper@ == a.upper@
        &&& b.lo == a.lo
        &&& b.hi == a.hi
        &&& b.fail_fast == a.fail_fast
    }

    /// Builds an iterator over the default column family of `snap`, with
    /// `iter_opt`'s bounds clipped to `region`. The cursor starts
    /// unpositioned.
    pub fn new(snap: &Snapshot, region: Region, iter_opt: IterOption, fail_fast: bool) -> (it:
        RegionIterator)
        requires
            snap.wf(),
        ensures
            it.wf(),
            it.kvs() == snap.default_cf.deep_view(),
            it.region@ == region@,
            it.lower@ == clip_lower_s(opt_bytes(iter_opt.lower_bound), region@),
            it.upper@ == clip_upper_s(opt_bytes(iter_opt.upper_bound), region@),
            it.fail_fast == fail_fast,
            !it.positioned,
    {
        let data = copy_kvs(&snap.default_cf);
        Self::from_parts(data, region, iter_opt, fail_fast)
    }

    /// Builds an iterator over the column family of `snap` named `cf`, or
    /// reports `ColumnFamilyNotFound`: a configuration error, not a
    /// corruption-policy case.
    pub fn new_cf(snap: &Snapshot, region: Region, iter_opt: IterOption, cf: &str, fail_fast: bool)
        -> (r: Result<RegionIterator, Error>)
        requires
            snap.wf(),
        ensures
            match find_cf(snap.cfs@, cf.spec_bytes()) {
                Some(c) => r matches Ok(it) && {
                    &&& it.wf()
                    &&& it.kvs() == c.kvs.deep_view()
                    &&& it.region@ == region@
                    &&& it.lower@ == clip_lower_s(opt_bytes(iter_opt.lower_bound), region@)
                    &&& it.upper@ == clip_upper_s(opt_bytes(iter_opt.upper_bound), region@)
                    &&& it.fail_fast == fail_fast
                    &&& !it.positioned
                },
                None => r matches Err(e) && is_cf_not_found(e, cf.spec_bytes()),
            },
    {
        let name = cf.as_bytes();
        match crate::engine::lookup_cf(&snap.cfs, name) {
            Some(c) => {
                proof {
                    let i = choose|i: int| 0 <= i < snap.cfs@.len() && snap.cfs@[i] == *c;
                    assert(sorted_kvs(snap.cfs@[i].kvs.deep_view()));
                }
                let data = copy_kvs(&c.kvs);
                Ok(Self::from_parts(data, region, iter_opt, fail_fast))
            },
            None => Err(Error::ColumnFamilyNotFound { cf: slice_to_vec(name) }),
        }
    }

    fn from_parts(data: Vec<Kv>, region: Region, iter_opt: IterOption, fail_fast: bool) -> (it:
        RegionIterator)
        requires
            sorted_kvs(data.deep_view()),
        ensures
            it.wf(),
            it.kvs() == data.deep_view(),
            it.region@ == region@,
            it.lower@ == clip_lower_s(opt_bytes(iter_opt.lower_bound), region@),
            it.upper@ == clip_upper_s(opt_bytes(iter_opt.upper_bound), region@),
            it.fail_fast == fail_fast,
            !it.positioned,
    {
        let lower = clip_lower(&iter_opt.lower_bound, &region);
        let upper = clip_upper(&iter_opt.upper_bound, &region);
        proof {
            lemma_clip_within_region(
                opt_bytes(iter_opt.lower_bound),
                opt_bytes(iter_opt.upper_bound),
                region@,
            );
        }
        let n = data.len();
        let lo = seek_ge(&data, 0, n, lower.as_slice());
        let hi_raw = seek_ge(&data, 0, n, upper.as_slice());
        let hi = if hi_raw < lo {
            lo
        } else {
            hi_raw
        };
        let it = RegionIterator {
            data,
            region,
            lower,
            upper,
            lo,
            hi,
            pos: 0,
            positioned: false,
            fail_fast,
        };
        proof {
            let ks = data.deep_view();
            assert forall|i: int| it.lo <= i < it.hi implies lex_le(
                it.lower@,
                (#[trigger] it.kvs()[i]).0,
            ) && lex_lt(it.kvs()[i].0, it.upper@) by {
                assert(i < hi_raw);
                if i > lo {
                    lemma_lex_trans(lower@, ks[lo as int].0, ks[i].0);
                    lemma_lex_basics(lower@, ks[i].0);
                }
            }
            assert forall|i: int| it.hi <= i < it.kvs().len() implies lex_le(
                it.upper@,
                (#[trigger] it.kvs()[i]).0,
            ) by {
                assert(hi_raw <= i);
                if i > hi_raw {
                    lemma_lex_trans(upper@, ks[hi_raw as int].0, ks[i].0);
                    lemma_lex_basics(upper@, ks[i].0);
                }
            }
        }
        it
    }

    /// Positions at the window's first pair; reports whether one exists.
    /// No region check is needed: the clipped window only holds region data.
    pub fn seek_to_first(&mut self) -> (r: Result<bool, Error>)
        requires
            old(self).wf(),
        ensures
            final(self).wf(),
            Self::same_view(*old(self), *final(self)),
            r matches Ok(b) && b == final(self).positioned,
            final(self).positioned == (old(self).lo < old(self).hi),
            final(self).positioned ==> final(self).pos == old(self).lo,
    {
        if self.lo < self.hi {
            self.pos = self.lo;
            self.positioned = true;
            Ok(true)
        } else {
            self.positioned = false;
            Ok(false)
        }
    }

    /// Positions at the window's last pair; reports whether one exists.
    pub fn seek_to_last(&mut self) -> (r: Result<bool, Error>)
        requires
            old(self).wf(),
        ensures
            final(self).wf(),
            Self::same_view(*old(self), *final(self)),
            r matches Ok(b) && b == final(self).positioned,
            final(self).positioned == (old(self).lo < old(self).hi),
            final(self).positioned ==> final(self).pos == old(self).hi - 1,
    {
        if self.lo < self.hi {
            self.pos = self.hi - 1;
            self.positioned = true;
            Ok(true)
        } else {
            self.positioned = false;
            Ok(false)
        }
    }

    /// The single validation choke point for seek targets: checks the key
    /// against the region boundary, exclusive or inclusive of `end_key` as
    /// the caller's direction demands, and routes violations through the
    /// corruption policy.
    pub fn should_seekable(&self, key: &[u8], inclusive: bool, health: &mut Health) -> (r: Result<
        (),
        Error,
    >)
        ensures
            ({
                let within = if inclusive {
                    key_in_region_inclusive(key@, self.region@)
                } else {
                    key_in_region(key@, self.region@)
                };
                if within {
                    r matches Ok(()) && *final(health) == *old(health)
                } else {
                    &&& r matches Err(e) && is_key_not_in_region(e, key@, self.region@)
                    &&& final(health).critical_errors == bumped(old(health).critical_errors)
                    &&& final(health).corruption_marked == (old(health).corruption_marked
                        || self.fail_fast)
                }
            }),
    {
        let within = if inclusive {
            key_in_region_inclusive_exec(key, &self.region)
        } else {
            key_in_region_exec(key, &self.region)
        };
        if within {
            Ok(())
        } else {
            match on_out_of_range_key(self.fail_fast, health, key, &self.region) {
                Err(e) => Err(e),
                Ok(()) => Ok(()),
            }
        }
    }

    /// Seeks to the first pair whose key is at least `key`. The target must
    /// lie in `[start_key, end_key)` — the exclusive check — else the
    /// corruption policy is consulted and `KeyNotInRegion` returned; a
    /// missing pair within the window is the normal `Ok(false)`, not an
    /// error.
    pub fn seek(&mut self, key: &[u8], health: &mut Health) -> (r: Result<bool, Error>)
        requires
            old(self).wf(),
        ensures
            final(self).wf(),
            Self::same_view(*old(self), *final(self)),
            !key_in_region(key@, old(self).region@) ==> {
                &&& r matches Err(e) && is_key_not_in_region(e, key@, old(self).region@)
                &&& *final(self) == *old(self)
                &&& final(health).critical_errors == bumped(old(health).critical_errors)
                &&& final(health).corruption_marked == (old(health).corruption_marked || old(
                    self,
                ).fail_fast)
            },
            key_in_region(key@, old(self).region@) ==> {
                &&& *final(health) == *old(health)
                &&& r matches Ok(b) && b == final(self).positioned
                &&& final(self).positioned == exists|i: int|
                    old(self).lo <= i < old(self).hi && lex_le(
                        data_key_s(key@),
                        (#[trigger] old(self).kvs()[i]).0,
                    )
                &&& final(self).positioned ==> {
                    &&& final(self).lo <= final(self).pos < final(self).hi
                    &&& lex_le(data_key_s(key@), final(self).kvs()[final(self).pos as int].0)
                    &&& forall|j: int|
                        final(self).lo <= j < final(self).pos ==> lex_lt(
                            (#[trigger] final(self).kvs()[j]).0,
                            data_key_s(key@),
                        )
                }
            },
    {
        match self.should_seekable(key, false, health) {
            Err(e) => Err(e),
            Ok(()) => {
                let dk = data_key(key);
                let idx = seek_ge(&self.data, self.lo, self.hi, dk.as_slice());
                if idx < self.hi {
                    self.pos = idx;
                    self.positioned = true;
                    Ok(true)
                } else {
                    self.positioned = false;
                    proof {
                        assert forall|i: int|
                            old(self).lo <= i < old(self).hi implies !lex_le(
                            data_key_s(key@),
                            (#[trigger] old(self).kvs()[i]).0,
                        ) by {
                            lemma_lex_trans(old(self).kvs()[i].0, data_key_s(key@), old(self).kvs()[i].0);
                            lemma_lex_basics(old(self).kvs()[i].0, old(self).kvs()[i].0);
                        }
                    }
                    Ok(false)
                }
            },
        }
    }

    /// Seeks to the last pair whose key is at most `key`. The target may
    /// equal `end_key` — the inclusive check, the sole exception to the
    /// exclusive rule — since the entry found still lies strictly below it.
    pub fn seek_for_prev(&mut self, key: &[u8], health: &mut Health) -> (r: Result<bool, Error>)
        requires
            old(self).wf(),
        ensures
            final(self).wf(),
            Self::same_view(*old(self), *final(self)),
            !key_in_region_inclusive(key@, old(self).region@) ==> {
                &&& r matches Err(e) && is_key_not_in_region(e, key@, old(self).region@)
                &&& *final(self) == *old(self)
                &&& final(health).critical_errors == bumped(old(health).critical_errors)
                &&& final(health).corruption_marked == (old(health).corruption_marked || old(
                    self,
                ).fail_fast)
            },
            key_in_region_inclusive(key@, old(self).region@) ==> {
                &&& *final(health) == *old(health)
                &&& r matches Ok(b) && b == final(self).positioned
                &&& final(self).positioned == exists|i: int|
                    old(self).lo <= i < old(self).hi && lex_le(
                        (#[trigger] old(self).kvs()[i]).0,
                        data_key_s(key@),
                    )
                &&& final(self).positioned ==> {
                    &&& final(self).lo <= final(self).pos < final(self).hi
                    &&& lex_le(final(self).kvs()[final(self).pos as int].0, data_key_s(key@))
                    &&& forall|j: int|
                        final(self).pos < j < final(self).hi ==> lex_lt(
                            data_key_s(key@),
                            (#[trigger] final(self).kvs()[j]).0,
                        )
                }
            },
    {
        match self.should_seekable(key, true, health) {
            Err(e) => Err(e),
            Ok(()) => {
                let dk = data_key(key);
                let idx = seek_last_le(&self.data, self.lo, self.hi, dk.as_slice());
                if idx > self.lo {
                    self.pos = idx - 1;
                    self.positioned = true;
                    Ok(true)
                } else {
                    self.positioned = false;
                    proof {
                        assert forall|i: int|
                            old(self).lo <= i < old(self).hi implies !lex_le(
                            (#[trigger] old(self).kvs()[i]).0,
                            data_key_s(key@),
                        ) by {
                            lemma_lex_trans(data_key_s(key@), old(self).kvs()[i].0, data_key_s(key@));
                            lemma_lex_basics(data_key_s(key@), data_key_s(key@));
                        }
                    }
                    Ok(false)
                }
            },
        }
    }

    /// Advances forward; reports whether the new position is valid.
    pub fn next(&mut self) -> (r: Result<bool, Error>)
        requires
            old(self).wf(),
            old(self).positioned,
        ensures
            final(self).wf(),
            Self::same_view(*old(self), *final(self)),
            r matches Ok(b) && b == final(self).positioned,
            final(self).positioned == (old(self).pos + 1 < old(self).hi),
            final(self).positioned ==> final(self).pos == old(self).pos + 1,
    {
        if self.pos + 1 < self.hi {
            self.pos = self.pos + 1;
            Ok(true)
        } else {
            self.positioned = false;
            Ok(false)
        }
    }

    /// Steps backward; reports whether the new position is valid.
    pub fn prev(&mut self) -> (r: Result<bool, Error>)
        requires
            old(self).wf(),
            old(self).positioned,
        ensures
            final(self).wf(),
            Self::same_view(*old(self), *final(self)),
            r matches Ok(b) && b == final(self).positioned,
            final(self).positioned == (old(self).pos > old(self).lo),
            final(self).positioned ==> final(self).pos == old(self).pos - 1,
    {
        if self.pos > self.lo {
            self.pos = self.pos - 1;
            Ok(true)
        } else {
            self.positioned = false;
            Ok(false)
        }
    }

    /// The logical key at the current position. Every key this returns lies
    /// in the region: the window cannot reach foreign data.
    pub fn key(&self) -> (r: Vec<u8>)
        requires
            self.wf(),
            self.positioned,
        ensures
            r@ == self.logical_window()[self.pos - self.lo].0,
            key_in_region(r@, self.region@),
    {
        proof {
            let pk = self.kvs()[self.pos as int].0;
            lemma_lex_trans(enc_start_s(self.region@), self.lower@, pk);
            lemma_lex_trans(pk, self.upper@, enc_end_s(self.region@));
            lemma_bounded_key_in_region(pk, self.region@);
        }
        origin_key(self.data[self.pos].0.as_slice())
    }

    /// The raw value at the current position.
    pub fn value(&self) -> (r: Vec<u8>)
        requires
            self.wf(),
            self.positioned,
        ensures
            r@ == self.logical_window()[self.pos - self.lo].1,
    {
        slice_to_vec(self.data[self.pos].1.as_slice())
    }

    /// Whether the cursor is positioned on a pair.
    pub fn valid(&self) -> (r: Result<bool, Error>)
        ensures
            r matches Ok(b) && b == self.positioned,
    {
        Ok(self.positioned)
    }

    /// Iterators that agree on data and window agree on the logical view.
    pub proof fn lemma_logical_window_same(a: RegionIterator, b: RegionIterator)
        requires
            Self::same_view(a, b),
        ensures
            a.logical_window() == b.logical_window(),
    {
        assert(a.logical_window() =~~= b.logical_window());
    }

    /// Traverses the whole window forward (`seek_to_first` then `next`
    /// until exhausted) and returns the logical pairs in order.
    pub fn collect_forward(&mut self) -> (r: Vec<Kv>)
        requires
            old(self).wf(),
        ensures
            final(self).wf(),
            Self::same_view(*old(self), *final(self)),
            r.deep_view() == old(self).logical_window(),
    {
        let mut out: Vec<Kv> = Vec::new();
        let mut going = match self.seek_to_first() {
            Ok(b) => b,
            Err(_) => false,
        };
        proof {
            Self::lemma_logical_window_same(*old(self), *self);
        }
        while going
            invariant
                self.wf(),
                Self::same_view(*old(self), *self),
                self.logical_window() == old(self).logical_window(),
                going == self.positioned,
                going ==> out.deep_view() =~~= self.logical_window().take(self.pos - self.lo),
                !going ==> out.deep_view() =~~= self.logical_window(),
            decreases (if going {
                self.hi - self.pos
            } else {
                0
            }),
        {
            let k = self.key();
            let v = self.value();
            let ghost kk = k@;
            let ghost vv = v@;
            let ghost taken = (self.pos - self.lo) as int;
            let ghost prior_out = out.deep_view();
            out.push((k, v));
            proof {
                assert(out.deep_view() =~~= prior_out.push((kk, vv)));
                assert(out.deep_view() =~~= self.logical_window().take(taken + 1));
            }
            going = match self.next() {
                Ok(b) => b,
                Err(_) => false,
            };
            proof {
                Self::lemma_logical_window_same(*old(self), *self);
                if !going {
                    assert(self.logical_window().take(taken + 1) =~= self.logical_window());
                }
            }
        }
        proof {
            if old(self).lo >= old(self).hi {
                assert(out.deep_view() =~= old(self).logical_window());
            }
        }
        out
    }

    /// Traverses the whole window backward (`seek_to_last` then `prev`
    /// until exhausted). Together with `collect_forward` this states the
    /// symmetry law: the backward sequence is the exact reverse of the
    /// forward one.
    pub fn collect_backward(&mut self) -> (r: Vec<Kv>)
        requires
            old(self).wf(),
        ensures
            final(self).wf(),
            Self::same_view(*old(self), *final(self)),
            r.deep_view() == old(self).logical_window().reverse(),
    {
        let mut out: Vec<Kv> = Vec::new();
        let mut going = match self.seek_to_last() {
            Ok(b) => b,
            Err(_) => false,
        };
        proof {
            Self::lemma_logical_window_same(*old(self), *self);
        }
        while going
            invariant
                self.wf(),
                Self::same_view(*old(self), *self),
                self.logical_window() == old(self).logical_window(),
                going == self.positioned,
                going ==> out.deep_view() =~~= self.logical_window().skip(
                    self.pos + 1 - self.lo,
                ).reverse(),
                !going ==> out.deep_view() =~~= self.logical_window().reverse(),
            decreases (if going {
                self.pos + 1 - self.lo
            } else {
                0
            }),
        {
            let k = self.key();
            let v = self.value();
            let ghost kk = k@;
            let ghost vv = v@;
            let ghost visiting = (self.pos - self.lo) as int;
            let ghost prior_out = out.deep_view();
            out.push((k, v));
            proof {
                assert(out.deep_view() =~~= prior_out.push((kk, vv)));
                assert(out.deep_view() =~~= self.logical_window().skip(visiting).reverse());
            }
            going = match self.prev() {
                Ok(b) => b,
                Err(_) => false,
            };
            proof {
                Self::lemma_logical_window_same(*old(self), *self);
                if !going {
                    assert(self.logical_window().skip(visiting) =~= self.logical_window());
                }
            }
        }
        proof {
            if old(self).lo >= old(self).hi {
                assert(out.deep_view() =~= old(self).logical_window().reverse());
            }
        }
        out
    }
}

/// Forward/backward symmetry: what the backward traversal yields (the
/// reversed window) is, pair for pair, the forward traversal's sequence read
/// from the other end — each is the exact reverse of the other.
pub proof fn lemma_forward_backward_symmetry(it: RegionIterator)
    ensures
        it.logical_window().reverse().len() == it.logical_window().len(),
        forall|i: int|
            0 <= i < it.logical_window().len() ==> #[trigger] it.logical_window().reverse()[i]
                == it.logical_window()[it.logical_window().len() - 1 - i],
{
    assert(it.logical_window().reverse().len() == it.logical_window().len());
}

} // verus!
