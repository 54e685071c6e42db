//! The region-scoped snapshot: range-limited point lookups, iterator
//! construction and callback-driven scans over one immutable snapshot of the
//! shared engine.

use vstd::prelude::*;
use vstd::slice::slice_to_vec;
use vstd::string::StringSliceAdditionalSpecFns;
use crate::bytes::{bytes_eq, lemma_lex_basics, lemma_lex_trans, lex_le, lex_lt, opt_bytes};
use crate::engine::{
    find_cf,
    kvs_get,
    lemma_kvs_get_at,
    lemma_kvs_get_none,
    lookup_cf,
    Engine,
    KvsView,
    Snapshot,
};
use crate::errors::{bumped, is_cf_not_found, is_key_not_in_region, on_out_of_range_key, Error, Health};
use crate::iterator::{clip_lower_s, clip_upper_s, IterOption, RegionIterator};
use crate::keys::{
    data_key,
    data_key_s,
    enc_end_key,
    enc_end_s,
    enc_start_key,
    enc_start_s,
    lemma_bounded_key_in_region,
    origin_key_s,
};
use crate::region::{key_in_region, key_in_region_exec, Region, RegionView};

verus! {

broadcast use crate::bytes::lemma_vec_u8_deep_view;

/// The logical pairs of `kvs` whose physical keys lie in `[lower, upper)`,
/// in storage order.
pub open spec fn range_view(kvs: KvsView, lower: Seq<u8>, upper: Seq<u8>) -> KvsView
    decreases kvs.len(),
{
    if kvs.len() == 0 {
        Seq::empty()
    } else {
        let rest = range_view(kvs.drop_first(), lower, upper);
        if lex_le(lower, kvs[0].0) && lex_lt(kvs[0].0, upper) {
            seq![(origin_key_s(kvs[0].0), kvs[0].1)] + rest
        } else {
            rest
        }
    }
}

/// What a scan over `[start, end)` of region `r` may visit: the range view
/// under the clipped bounds.
pub open spec fn scan_view(kvs: KvsView, r: RegionView, start: Seq<u8>, end: Seq<u8>) -> KvsView {
    range_view(kvs, clip_lower_s(Some(start), r), clip_upper_s(Some(end), r))
}

/// Bound intersection, stated over the window: when the data is sorted and
/// `[lo, hi)` is exactly the index range of keys within `[lower, upper)`,
/// the range view is that window, key-decoded, in order.
pub proof fn lemma_range_view_window(kvs: KvsView, lower: Seq<u8>, upper: Seq<u8>, lo: int, hi: int)
    requires
        0 <= lo <= hi <= kvs.len(),
        forall|i: int| 0 <= i < lo ==> lex_lt((#[trigger] kvs[i]).0, lower),
        forall|i: int| lo <= i < hi ==> lex_le(lower, (#[trigger] kvs[i]).0) && lex_lt(kvs[i].0, upper),
        forall|i: int| hi <= i < kvs.len() ==> lex_le(upper, (#[trigger] kvs[i]).0),
    ensures
        range_view(kvs, lower, upper) == Seq::new(
            (hi - lo) as nat,
            |i: int| (origin_key_s(kvs[lo + i].0), kvs[lo + i].1),
        ),
    decreases kvs.len(),
{
    let goal = Seq::new((hi - lo) as nat, |i: int| (origin_key_s(kvs[lo + i].0), kvs[lo + i].1));
    if kvs.len() == 0 {
        assert(range_view(kvs, lower, upper) =~= goal);
    } else {
        let d = kvs.drop_first();
        assert(forall|i: int| 0 <= i < d.len() ==> (#[trigger] d[i]) == kvs[i + 1]);
        if lo > 0 {
            lemma_lex_trans(kvs[0].0, lower, kvs[0].0);
            lemma_lex_basics(kvs[0].0, kvs[0].0);
            assert(!lex_le(lower, kvs[0].0));
            lemma_range_view_window(d, lower, upper, lo - 1, hi - 1);
            assert(range_view(kvs, lower, upper) =~~= goal);
        } else if hi > 0 {
            lemma_range_view_window(d, lower, upper, 0, hi - 1);
            assert(range_view(kvs, lower, upper) =~~= goal);
        } else {
            lemma_lex_trans(kvs[0].0, upper, kvs[0].0);
            lemma_lex_basics(kvs[0].0, kvs[0].0);
            assert(!lex_lt(kvs[0].0, upper));
            lemma_range_view_window(d, lower, upper, 0, 0);
            assert(range_view(kvs, lower, upper) =~= goal);
        }
    }
}

/// What a well-formed iterator shows is exactly the range view of its data
/// under its clipped bounds.
pub proof fn lemma_iterator_window_is_range_view(it: RegionIterator)
    requires
        it.wf(),
    ensures
        range_view(it.kvs(), it.lower@, it.upper@) == it.logical_window(),
{
    lemma_range_view_window(it.kvs(), it.lower@, it.upper@, it.lo as int, it.hi as int);
    assert(range_view(it.kvs(), it.lower@, it.upper@) =~~= it.logical_window());
}

/// Range containment: every logical key a well-formed iterator can show lies
/// in its region — no read through this layer observes foreign data.
pub proof fn lemma_window_keys_in_region(it: RegionIterator)
    requires
        it.wf(),
    ensures
        forall|i: int|
            0 <= i < it.logical_window().len() ==> key_in_region(
                (#[trigger] it.logical_window()[i]).0,
                it.region@,
            ),
{
    assert forall|i: int| 0 <= i < it.logical_window().len() implies key_in_region(
        (#[trigger] it.logical_window()[i]).0,
        it.region@,
    ) by {
        let pk = it.kvs()[it.lo + i].0;
        lemma_lex_trans(enc_start_s(it.region@), it.lower@, pk);
        lemma_lex_trans(pk, it.upper@, enc_end_s(it.region@));
        lemma_bounded_key_in_region(pk, it.region@);
    }
}

/// A scan's visitor: called once per pair, in key order, it reports whether
/// to continue (`Ok(true)`), stop early (`Ok(false)`), or abort the scan
/// with its own error.
pub trait ScanVisitor {
    /// The pairs this visitor has been shown so far, in visiting order.
    spec fn visited(&self) -> KvsView;

    /// The visitor's decision rule: what it answers once the pairs it has
    /// been shown are `vs` — `Ok(true)` to continue, `Ok(false)` to stop the
    /// scan, `Err(e)` to abort it with `e`. `visit` answers by this rule and
    /// never changes it, so a scan's whole course is a function of the rule
    /// and the pairs in range.
    spec fn decision(&self, vs: KvsView) -> Result<bool, Error>;

    /// Takes note of one pair and answers by the decision rule.
    fn visit(&mut self, key: &[u8], value: &[u8]) -> (r: Result<bool, Error>)
        ensures
            final(self).visited() == old(self).visited().push((key@, value@)),
            r == old(self).decision(old(self).visited().push((key@, value@))),
            forall|vs: KvsView| #[trigger] final(self).decision(vs) == old(self).decision(vs),
    ;
}

/// How many pairs a scan shows a visitor with decision rule `v.decision`
/// whose visited sequence starts as `before` and whose window is `w`: all of
/// `w`, or every pair up to and including the first one answered with "stop"
/// or an error.
pub open spec fn scan_visits<V: ScanVisitor>(v: V, before: KvsView, w: KvsView) -> int
    decreases w.len(),
{
    if w.len() == 0 {
        0
    } else if v.decision(before.push(w[0])) == Ok::<bool, Error>(true) {
        1 + scan_visits(v, before.push(w[0]), w.drop_first())
    } else {
        1
    }
}

/// What such a scan returns: `Ok` when the window is exhausted or the
/// visitor stopped, the visitor's own error — unchanged, at once — when one
/// visit fails.
pub open spec fn scan_outcome<V: ScanVisitor>(v: V, before: KvsView, w: KvsView) -> Result<
    (),
    Error,
>
    decreases w.len(),
{
    if w.len() == 0 {
        Ok(())
    } else {
        match v.decision(before.push(w[0])) {
            Ok(true) => scan_outcome(v, before.push(w[0]), w.drop_first()),
            Ok(false) => Ok(()),
            Err(e) => Err(e),
        }
    }
}

/// A scan never visits more pairs than its window holds.
pub proof fn lemma_scan_visits_bounds<V: ScanVisitor>(v: V, before: KvsView, w: KvsView)
    ensures
        0 <= scan_visits(v, before, w) <= w.len(),
    decreases w.len(),
{
    if w.len() > 0 && v.decision(before.push(w[0])) == Ok::<bool, Error>(true) {
        lemma_scan_visits_bounds(v, before.push(w[0]), w.drop_first());
    }
}

/// A scan whose visitor always answers "continue" visits every pair of its
/// window exactly once, in order, and succeeds.
pub proof fn lemma_scan_full<V: ScanVisitor>(v: V, before: KvsView, w: KvsView)
    requires
        forall|vs: KvsView| #[trigger] v.decision(vs) == Ok::<bool, Error>(true),
    ensures
        scan_visits(v, before, w) == w.len(),
        w.take(scan_visits(v, before, w)) == w,
        scan_outcome(v, before, w) == Ok::<(), Error>(()),
    decreases w.len(),
{
    if w.len() > 0 {
        lemma_scan_full(v, before.push(w[0]), w.drop_first());
    }
    assert(w.take(w.len() as int) =~= w);
}

/// The operational reading of `scan_visits`/`scan_outcome`: after `k` visits
/// all answered "continue", an exhausted window means the scan visited
/// everything and succeeded, and a "stop" or error at the next visit ends it
/// there with the corresponding result.
pub proof fn lemma_scan_course<V: ScanVisitor>(v: V, before: KvsView, w: KvsView, k: int)
    requires
        0 <= k <= w.len(),
        forall|j: int|
            1 <= j <= k ==> #[trigger] v.decision(before + w.take(j)) == Ok::<bool, Error>(true),
    ensures
        k == w.len() ==> scan_visits(v, before, w) == k && scan_outcome(v, before, w) == Ok::<
            (),
            Error,
        >(()),
        k < w.len() && v.decision(before + w.take(k + 1)) == Ok::<bool, Error>(false)
            ==> scan_visits(v, before, w) == k + 1 && scan_outcome(v, before, w) == Ok::<
            (),
            Error,
        >(()),
        k < w.len() ==> (v.decision(before + w.take(k + 1)) matches Err(e) ==> scan_visits(
            v,
            before,
            w,
        ) == k + 1 && scan_outcome(v, before, w) == Err::<(), Error>(e)),
    decreases k,
{
    if k == 0 {
        if w.len() > 0 {
            assert(before + w.take(1) =~= before.push(w[0]));
        }
    } else {
        assert(before + w.take(1) =~= before.push(w[0]));
        assert(v.decision(before + w.take(1)) == Ok::<bool, Error>(true));
        let before2 = before.push(w[0]);
        let w2 = w.drop_first();
        assert forall|j: int|
            1 <= j <= k - 1 implies #[trigger] v.decision(before2 + w2.take(j)) == Ok::<
            bool,
            Error,
        >(true) by {
            assert(before2 + w2.take(j) =~= before + w.take(j + 1));
            assert(v.decision(before + w.take(j + 1)) == Ok::<bool, Error>(true));
        }
        lemma_scan_course(v, before2, w2, k - 1);
        if k < w.len() {
            assert(before2 + w2.take(k) =~= before + w.take(k + 1));
        }
    }
}

/// A visitor that collects every pair it is shown. It can be told to stop
/// the scan once a number of pairs is reached, or to abort it with an
/// engine-style error, so scan clients (and their tests) can drive every
/// outcome of the visiting protocol.
pub struct KvCollector {
    pub pairs: Vec<(Vec<u8>, Vec<u8>)>,
    pub stop_after: Option<usize>,
    pub fail_after: Option<usize>,
}

impl KvCollector {
    /// Collects without limit.
    pub fn new() -> (c: KvCollector)
        ensures
            c.visited() == Seq::<(Seq<u8>, Seq<u8>)>::empty(),
            c.stop_after is None,
            c.fail_after is None,
    {
        let c = KvCollector { pairs: Vec::new(), stop_after: None, fail_after: None };
        proof {
            assert(c.pairs.deep_view() =~= Seq::<(Seq<u8>, Seq<u8>)>::empty());
        }
        c
    }

    /// Collects at most `limit` pairs, then asks the scan to stop.
    pub fn with_limit(limit: usize) -> (c: KvCollector)
        ensures
            c.visited() == Seq::<(Seq<u8>, Seq<u8>)>::empty(),
            c.stop_after == Some(limit),
            c.fail_after is None,
    {
        let c = KvCollector { pairs: Vec::new(), stop_after: Some(limit), fail_after: None };
        proof {
            assert(c.pairs.deep_view() =~= Seq::<(Seq<u8>, Seq<u8>)>::empty());
        }
        c
    }

    /// Collects `limit` pairs, then aborts the scan with an engine error.
    pub fn failing_after(limit: usize) -> (c: KvCollector)
        ensures
            c.visited() == Seq::<(Seq<u8>, Seq<u8>)>::empty(),
            c.stop_after is None,
            c.fail_after == Some(limit),
    {
        let c = KvCollector { pairs: Vec::new(), stop_after: None, fail_after: Some(limit) };
        proof {
            assert(c.pairs.deep_view() =~= Seq::<(Seq<u8>, Seq<u8>)>::empty());
        }
        c
    }
}

impl ScanVisitor for KvCollector {
    open spec fn visited(&self) -> KvsView {
        self.pairs.deep_view()
    }

    open spec fn decision(&self, vs: KvsView) -> Result<bool, Error> {
        if (match self.fail_after {
            Some(n) => vs.len() >= n,
            None => false,
        }) {
            Err(Error::EngineIo)
        } else if (match self.stop_after {
            Some(n) => vs.len() >= n,
            None => false,
        }) {
            Ok(false)
        } else {
            Ok(true)
        }
    }

    fn visit(&mut self, key: &[u8], value: &[u8]) -> (r: Result<bool, Error>) {
        let ghost prior = self.pairs.deep_view();
        self.pairs.push((slice_to_vec(key), slice_to_vec(value)));
        proof {
            assert(self.pairs.deep_view() =~~= prior.push((key@, value@)));
        }
        match self.fail_after {
            Some(n) => {
                if self.pairs.len() >= n {
                    return Err(Error::EngineIo);
                }
            },
            None => {},
        }
        match self.stop_after {
            Some(n) => Ok(self.pairs.len() < n),
            None => Ok(true),
        }
    }
}

/// Table statistics restricted to the region's key range: how many pairs of
/// the column family lie between the region's encoded boundaries.
pub struct RangeProperties {
    pub entries: usize,
}

proof fn lemma_range_view_skip_step(kvs: KvsView, lower: Seq<u8>, upper: Seq<u8>, i: int)
    requires
        0 <= i < kvs.len(),
    ensures
        range_view(kvs.skip(i), lower, upper).len() == range_view(kvs.skip(i + 1), lower, upper).len()
            + (if lex_le(lower, kvs[i].0) && lex_lt(kvs[i].0, upper) {
            1int
        } else {
            0int
        }),
{
    assert(kvs.skip(i).drop_first() =~= kvs.skip(i + 1));
    assert(kvs.skip(i)[0] == kvs[i]);
}

/// Counts the pairs of `kvs` whose keys lie in `[lower, upper)`.
fn count_in_range(kvs: &Vec<(Vec<u8>, Vec<u8>)>, lower: &[u8], upper: &[u8]) -> (n: usize)
    ensures
        n == range_view(kvs.deep_view(), lower@, upper@).len(),
{
    proof {
        assert(kvs.deep_view().skip(0) =~= kvs.deep_view());
    }
    let mut count: usize = 0;
    let mut i: usize = 0;
    while i < kvs.len()
        invariant
            count <= i <= kvs@.len(),
            count + range_view(kvs.deep_view().skip(i as int), lower@, upper@).len() == range_view(
                kvs.deep_view(),
                lower@,
                upper@,
            ).len(),
        decreases kvs@.len() - i,
    {
        proof {
            lemma_range_view_skip_step(kvs.deep_view(), lower@, upper@, i as int);
        }
        if crate::bytes::bytes_le(lower, kvs[i].0.as_slice()) && crate::bytes::bytes_lt(
            kvs[i].0.as_slice(),
            upper,
        ) {
            count = count + 1;
        }
        i = i + 1;
    }
    proof {
        assert(kvs.deep_view().skip(kvs@.len() as int) =~= Seq::<(Seq<u8>, Seq<u8>)>::empty());
    }
    count
}

/// An immutable, range-scoped read view over one snapshot of the shared
/// engine: only data within `region` can be observed through it. The
/// fail-fast flag is the corruption policy injected at construction.
pub struct RegionSnapshot {
    pub snap: Snapshot,
    pub region: Region,
    pub fail_fast: bool,
}

impl RegionSnapshot {
    /// The snapshot's column families are sorted by physical key.
    pub open spec fn wf(self) -> bool {
        self.snap.wf()
    }

    /// Wraps an engine snapshot with the region boundary it must enforce,
    /// under the given corruption policy.
    pub fn from_snapshot(snap: Snapshot, region: Region, fail_fast: bool) -> (s: RegionSnapshot)
        ensures
            s.snap == snap,
            s.region == region,
            s.fail_fast == fail_fast,
    {
        RegionSnapshot { snap, region, fail_fast }
    }

    /// Captures a fresh snapshot of `engine`, scoped to `region`. Later
    /// writes to the engine are never visible through the result.
    pub fn from_raw(engine: &Engine, region: Region, fail_fast: bool) -> (s: RegionSnapshot)
        requires
            engine.wf(),
        ensures
            s.wf(),
            s.snap.default_cf.deep_view() == engine.default_cf.deep_view(),
            s.snap.cfs@.len() == engine.cfs@.len(),
            forall|i: int|
                0 <= i < engine.cfs@.len() ==> (#[trigger] s.snap.cfs@[i]).name@
                    == engine.cfs@[i].name@ && s.snap.cfs@[i].kvs.deep_view()
                    == engine.cfs@[i].kvs.deep_view(),
            s.region == region,
            s.fail_fast == fail_fast,
    {
        RegionSnapshot { snap: engine.snapshot(), region, fail_fast }
    }

    /// An identical view over the same snapshot and region.
    pub fn duplicate(&self) -> (s: RegionSnapshot)
        ensures
            s.snap.default_cf.deep_view() == self.snap.default_cf.deep_view(),
            s.snap.cfs@.len() == self.snap.cfs@.len(),
            forall|i: int|
                0 <= i < self.snap.cfs@.len() ==> (#[trigger] s.snap.cfs@[i]).name@
                    == self.snap.cfs@[i].name@ && s.snap.cfs@[i].kvs.deep_view()
                    == self.snap.cfs@[i].kvs.deep_view(),
            s.region@ == self.region@,
            s.fail_fast == self.fail_fast,
            self.wf() ==> s.wf(),
    {
        RegionSnapshot {
            snap: self.snap.duplicate(),
            region: self.region.duplicate(),
            fail_fast: self.fail_fast,
        }
    }

    /// The region this view is scoped to.
    pub fn get_region(&self) -> (r: &Region)
        ensures
            *r == self.region,
    {
        &self.region
    }

    /// The region's inclusive logical start key.
    pub fn get_start_key(&self) -> (k: &[u8])
        ensures
            k@ == self.region.start_key@,
    {
        self.region.start_key.as_slice()
    }

    /// The region's exclusive logical end key (empty means unbounded).
    pub fn get_end_key(&self) -> (k: &[u8])
        ensures
            k@ == self.region.end_key@,
    {
        self.region.end_key.as_slice()
    }

    /// Point lookup in the default column family. In range, it returns
    /// exactly what the snapshot stores under the key's physical form —
    /// `Ok(Some(value))` if present, `Ok(None)` if absent; out of range, it
    /// consults the corruption policy and returns `KeyNotInRegion`.
    pub fn get_value(&self, key: &[u8], health: &mut Health) -> (r: Result<Option<Vec<u8>>, Error>)
        requires
            self.wf(),
        ensures
            key_in_region(key@, self.region@) ==> {
                &&& *final(health) == *old(health)
                &&& r matches Ok(v) && opt_bytes(v) == kvs_get(
                    self.snap.default_cf.deep_view(),
                    data_key_s(key@),
                )
            },
            !key_in_region(key@, self.region@) ==> {
                &&& r matches Err(e) && is_key_not_in_region(e, key@, self.region@)
                &&& final(health).critical_errors == bumped(old(health).critical_errors)
                &&& final(health).corruption_marked == (old(health).corruption_marked
                    || self.fail_fast)
            },
    {
        if !key_in_region_exec(key, &self.region) {
            return match on_out_of_range_key(self.fail_fast, health, key, &self.region) {
                Err(e) => Err(e),
                Ok(()) => Ok(None),
            };
        }
        let dk = data_key(key);
        Self::lookup_value(&self.snap.default_cf, dk.as_slice())
    }

    /// Point lookup in the named column family; the region check comes
    /// first, a missing column family is the (recoverable) configuration
    /// error.
    pub fn get_value_cf(&self, cf: &str, key: &[u8], health: &mut Health) -> (r: Result<
        Option<Vec<u8>>,
        Error,
    >)
        requires
            self.wf(),
        ensures
            key_in_region(key@, self.region@) ==> {
                &&& *final(health) == *old(health)
                &&& match find_cf(self.snap.cfs@, cf.spec_bytes()) {
                    Some(c) => r matches Ok(v) && opt_bytes(v) == kvs_get(
                        c.kvs.deep_view(),
                        data_key_s(key@),
                    ),
                    None => r matches Err(e) && is_cf_not_found(e, cf.spec_bytes()),
                }
            },
            !key_in_region(key@, self.region@) ==> {
                &&& r matches Err(e) && is_key_not_in_region(e, key@, self.region@)
                &&& final(health).critical_errors == bumped(old(health).critical_errors)
                &&& final(health).corruption_marked == (old(health).corruption_marked
                    || self.fail_fast)
            },
    {
        if !key_in_region_exec(key, &self.region) {
            return match on_out_of_range_key(self.fail_fast, health, key, &self.region) {
                Err(e) => Err(e),
                Ok(()) => Ok(None),
            };
        }
        let name = cf.as_bytes();
        match lookup_cf(&self.snap.cfs, name) {
            Some(c) => {
                let dk = data_key(key);
                Self::lookup_value(&c.kvs, dk.as_slice())
            },
            None => Err(Error::ColumnFamilyNotFound { cf: slice_to_vec(name) }),
        }
    }

    fn lookup_value(kvs: &Vec<(Vec<u8>, Vec<u8>)>, dk: &[u8]) -> (r: Result<Option<Vec<u8>>, Error>)
        ensures
            r matches Ok(v) && opt_bytes(v) == kvs_get(kvs.deep_view(), dk@),
    {
        let mut i: usize = 0;
        while i < kvs.len()
            invariant
                i <= kvs@.len(),
                forall|j: int| 0 <= j < i ==> (#[trigger] kvs.deep_view()[j]).0 != dk@,
            decreases kvs@.len() - i,
        {
            if bytes_eq(kvs[i].0.as_slice(), dk) {
                proof {
                    lemma_kvs_get_at(kvs.deep_view(), dk@, i as int);
                }
                return Ok(Some(slice_to_vec(kvs[i].1.as_slice())));
            }
            i = i + 1;
        }
        proof {
            lemma_kvs_get_none(kvs.deep_view(), dk@);
        }
        Ok(None)
    }

    /// Builds a region-scoped iterator over the default column family, its
    /// bounds clipped to the region.
    pub fn iter(&self, iter_opt: IterOption) -> (it: RegionIterator)
        requires
            self.wf(),
        ensures
            it.wf(),
            it.kvs() == self.snap.default_cf.deep_view(),
            it.region@ == self.region@,
            it.lower@ == clip_lower_s(opt_bytes(iter_opt.lower_bound), self.region@),
            it.upper@ == clip_upper_s(opt_bytes(iter_opt.upper_bound), self.region@),
            it.fail_fast == self.fail_fast,
            !it.positioned,
    {
        RegionIterator::new(&self.snap, self.region.duplicate(), iter_opt, self.fail_fast)
    }

    /// Builds a region-scoped iterator over the named column family, or
    /// reports `ColumnFamilyNotFound`.
    pub fn iter_cf(&self, cf: &str, iter_opt: IterOption) -> (r: Result<RegionIterator, Error>)
        requires
            self.wf(),
        ensures
            match find_cf(self.snap.cfs@, cf.spec_bytes()) {
                Some(c) => r matches Ok(it) && {
                    &&& it.wf()
                    &&& it.kvs() == c.kvs.deep_view()
                    &&& it.region@ == self.region@
                    &&& it.lower@ == clip_lower_s(opt_bytes(iter_opt.lower_bound), self.region@)
                    &&& it.upper@ == clip_upper_s(opt_bytes(iter_opt.upper_bound), self.region@)
                    &&& it.fail_fast == self.fail_fast
                    &&& !it.positioned
                },
                None => r matches Err(e) && is_cf_not_found(e, cf.spec_bytes()),
            },
    {
        RegionIterator::new_cf(&self.snap, self.region.duplicate(), iter_opt, cf, self.fail_fast)
    }

    /// Scans `[start_key, end_key)` in the default column family, visiting
    /// each pair in key order until the window is exhausted, the visitor
    /// stops, or the visitor fails; a visitor error aborts the scan at once.
    /// The start key must lie in the region, else the corruption policy is
    /// consulted; every key the visitor sees lies in the region.
    pub fn scan<V: ScanVisitor>(
        &self,
        start_key: &[u8],
        end_key: &[u8],
        fill_cache: bool,
        visitor: &mut V,
        health: &mut Health,
    ) -> (r: Result<(), Error>)
        requires
            self.wf(),
        ensures
            !key_in_region(start_key@, self.region@) ==> {
                &&& r matches Err(e) && is_key_not_in_region(e, start_key@, self.region@)
                &&& *final(visitor) == *old(visitor)
                &&& final(health).critical_errors == bumped(old(health).critical_errors)
                &&& final(health).corruption_marked == (old(health).corruption_marked
                    || self.fail_fast)
            },
            key_in_region(start_key@, self.region@) ==> {
                &&& *final(health) == *old(health)
                &&& ({
                    let w = scan_view(
                        self.snap.default_cf.deep_view(),
                        self.region@,
                        start_key@,
                        end_key@,
                    );
                    &&& final(visitor).visited() == old(visitor).visited() + w.take(
                        scan_visits(*old(visitor), old(visitor).visited(), w),
                    )
                    &&& r == scan_outcome(*old(visitor), old(visitor).visited(), w)
                })
                &&& forall|vs: KvsView| #[trigger] final(visitor).decision(vs) == old(
                    visitor,
                ).decision(vs)
                &&& forall|i: int|
                    old(visitor).visited().len() <= i < final(visitor).visited().len()
                        ==> key_in_region(
                        (#[trigger] final(visitor).visited()[i]).0,
                        self.region@,
                    )
            },
    {
        let iter_opt = IterOption::new(
            Some(slice_to_vec(start_key)),
            Some(slice_to_vec(end_key)),
            fill_cache,
        );
        let mut it = self.iter(iter_opt);
        proof {
            crate::iterator::lemma_seek_start_le_clip(start_key@, self.region@);
            lemma_iterator_window_is_range_view(it);
            lemma_window_keys_in_region(it);
            lemma_scan_visits_bounds(*visitor, visitor.visited(), it.logical_window());
        }
        Self::scan_impl(&mut it, start_key, visitor, health)
    }

    /// Like `scan`, only on the named column family; a missing column
    /// family is reported before any region check or visit.
    pub fn scan_cf<V: ScanVisitor>(
        &self,
        cf: &str,
        start_key: &[u8],
        end_key: &[u8],
        fill_cache: bool,
        visitor: &mut V,
        health: &mut Health,
    ) -> (r: Result<(), Error>)
        requires
            self.wf(),
        ensures
            match find_cf(self.snap.cfs@, cf.spec_bytes()) {
                None => {
                    &&& r matches Err(e) && is_cf_not_found(e, cf.spec_bytes())
                    &&& final(visitor).visited() == old(visitor).visited()
                    &&& *final(health) == *old(health)
                },
                Some(c) => {
                    &&& !key_in_region(start_key@, self.region@) ==> {
                        &&& r matches Err(e) && is_key_not_in_region(e, start_key@, self.region@)
                        &&& *final(visitor) == *old(visitor)
                        &&& final(health).critical_errors == bumped(old(health).critical_errors)
                        &&& final(health).corruption_marked == (old(health).corruption_marked
                            || self.fail_fast)
                    }
                    &&& key_in_region(start_key@, self.region@) ==> {
                        &&& *final(health) == *old(health)
                        &&& ({
                            let w = scan_view(c.kvs.deep_view(), self.region@, start_key@, end_key@);
                            &&& final(visitor).visited() == old(visitor).visited() + w.take(
                                scan_visits(*old(visitor), old(visitor).visited(), w),
                            )
                            &&& r == scan_outcome(*old(visitor), old(visitor).visited(), w)
                        })
                        &&& forall|vs: KvsView| #[trigger] final(visitor).decision(vs) == old(
                            visitor,
                        ).decision(vs)
                        &&& forall|i: int|
                            old(visitor).visited().len() <= i < final(visitor).visited().len()
                                ==> key_in_region(
                                (#[trigger] final(visitor).visited()[i]).0,
                                self.region@,
                            )
                    }
                },
            },
    {
        let iter_opt = IterOption::new(
            Some(slice_to_vec(start_key)),
            Some(slice_to_vec(end_key)),
            fill_cache,
        );
        match self.iter_cf(cf, iter_opt) {
            Err(e) => Err(e),
            Ok(mut it) => {
                proof {
                    crate::iterator::lemma_seek_start_le_clip(start_key@, self.region@);
                    lemma_iterator_window_is_range_view(it);
                    lemma_window_keys_in_region(it);
                    lemma_scan_visits_bounds(*visitor, visitor.visited(), it.logical_window());
                }
                Self::scan_impl(&mut it, start_key, visitor, health)
            },
        }
    }

    fn scan_impl<V: ScanVisitor>(
        it: &mut RegionIterator,
        start_key: &[u8],
        visitor: &mut V,
        health: &mut Health,
    ) -> (r: Result<(), Error>)
        requires
            old(it).wf(),
            lex_le(data_key_s(start_key@), old(it).lower@),
        ensures
            !key_in_region(start_key@, old(it).region@) ==> {
                &&& r matches Err(e) && is_key_not_in_region(e, start_key@, old(it).region@)
                &&& *final(visitor) == *old(visitor)
                &&& final(health).critical_errors == bumped(old(health).critical_errors)
                &&& final(health).corruption_marked == (old(health).corruption_marked || old(
                    it,
                ).fail_fast)
            },
            key_in_region(start_key@, old(it).region@) ==> {
                &&& *final(health) == *old(health)
                &&& final(visitor).visited() == old(visitor).visited() + old(
                    it,
                ).logical_window().take(
                    scan_visits(*old(visitor), old(visitor).visited(), old(it).logical_window()),
                )
                &&& r == scan_outcome(
                    *old(visitor),
                    old(visitor).visited(),
                    old(it).logical_window(),
                )
                &&& forall|vs: KvsView| #[trigger] final(visitor).decision(vs) == old(
                    visitor,
                ).decision(vs)
            },
    {
        let ghost w = old(it).logical_window();
        let ghost before = old(visitor).visited();
        let mut going = match it.seek(start_key, health) {
            Err(e) => {
                return Err(e);
            },
            Ok(b) => b,
        };
        proof {
            RegionIterator::lemma_logical_window_same(*old(it), *it);
            assert(before + w.take(0) =~= before);
            if going {
                assert(it.pos == it.lo) by {
                    if it.pos > it.lo {
                        let k0 = it.kvs()[it.lo as int].0;
                        lemma_lex_trans(data_key_s(start_key@), it.lower@, k0);
                        lemma_lex_trans(k0, data_key_s(start_key@), k0);
                        lemma_lex_basics(k0, k0);
                    }
                }
            } else {
                assert(it.lo == it.hi) by {
                    if it.lo < it.hi {
                        let k0 = it.kvs()[it.lo as int].0;
                        lemma_lex_trans(data_key_s(start_key@), it.lower@, k0);
                    }
                }
                assert(w.len() == 0);
                assert(visitor.visited() == before + w.take(scan_visits(*old(visitor), before, w)));
            }
        }
        while going
            invariant
                key_in_region(start_key@, old(it).region@),
                w == old(it).logical_window(),
                before == old(visitor).visited(),
                it.wf(),
                RegionIterator::same_view(*old(it), *it),
                it.logical_window() == w,
                w.len() == it.hi - it.lo,
                *health == *old(health),
                forall|vs: KvsView| #[trigger] visitor.decision(vs) == old(visitor).decision(vs),
                going ==> it.positioned,
                going ==> visitor.visited() == before + w.take(it.pos - it.lo),
                going ==> forall|j: int|
                    1 <= j <= it.pos - it.lo ==> #[trigger] old(visitor).decision(
                        before + w.take(j),
                    ) == Ok::<bool, Error>(true),
                !going ==> visitor.visited() == before + w.take(scan_visits(*old(visitor), before, w))
                    && scan_outcome(*old(visitor), before, w) == Ok::<(), Error>(()),
            decreases (if going {
                it.hi - it.pos
            } else {
                0
            }),
        {
            let k = it.key();
            let val = it.value();
            let ghost visiting = (it.pos - it.lo) as int;
            let step = visitor.visit(k.as_slice(), val.as_slice());
            proof {
                assert((before + w.take(visiting)).push(w[visiting]) =~= before + w.take(
                    visiting + 1,
                ));
                assert(visitor.visited() == before + w.take(visiting + 1));
                assert(step == old(visitor).decision(before + w.take(visiting + 1)));
                assert forall|vs: KvsView| #[trigger] visitor.decision(vs) == old(
                    visitor,
                ).decision(vs) by {}
            }
            match step {
                Err(e) => {
                    proof {
                        lemma_scan_course(*old(visitor), before, w, visiting);
                    }
                    return Err(e);
                },
                Ok(cont) => {
                    if cont {
                        going = match it.next() {
                            Ok(b) => b,
                            Err(_) => false,
                        };
                        proof {
                            RegionIterator::lemma_logical_window_same(*old(it), *it);
                            if !going {
                                assert(visiting + 1 == w.len());
                                lemma_scan_course(*old(visitor), before, w, visiting + 1);
                            }
                        }
                    } else {
                        going = false;
                        proof {
                            lemma_scan_course(*old(visitor), before, w, visiting);
                        }
                    }
                },
            }
        }
        Ok(())
    }

    /// Engine table statistics restricted to the region's key range in the
    /// named column family: a thin pass-through over the snapshot.
    pub fn get_properties_cf(&self, cf: &str) -> (r: Result<RangeProperties, Error>)
        requires
            self.wf(),
        ensures
            match find_cf(self.snap.cfs@, cf.spec_bytes()) {
                Some(c) => r matches Ok(p) && p.entries == range_view(
                    c.kvs.deep_view(),
                    enc_start_s(self.region@),
                    enc_end_s(self.region@),
                ).len(),
                None => r matches Err(e) && is_cf_not_found(e, cf.spec_bytes()),
            },
    {
        let name = cf.as_bytes();
        match lookup_cf(&self.snap.cfs, name) {
            Some(c) => {
                let lower = enc_start_key(&self.region);
                let upper = enc_end_key(&self.region);
                let entries = count_in_range(&c.kvs, lower.as_slice(), upper.as_slice());
                Ok(RangeProperties { entries })
            },
            None => Err(Error::ColumnFamilyNotFound { cf: slice_to_vec(name) }),
        }
    }
}

} // verus!
