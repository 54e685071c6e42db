//! An in-memory model of the shared storage engine.
//!
//! The physical storage engine is an external collaborator whose on-disk
//! format and write path are out of scope for this layer; what the layer
//! relies on is an immutable snapshot ordered by physical key, with point
//! lookups and bounded cursors. This module provides exactly that interface
//! as a verified structure: each column family is a list of key-value pairs
//! strictly sorted by byte-lexicographic key. The write path is reduced to
//! the minimum needed to build any snapshot: appending in ascending key
//! order.

use vstd::prelude::*;
use vstd::slice::slice_to_vec;
use crate::bytes::{bytes_eq, bytes_lt, lemma_lex_trans, lex_lt};

verus! {

broadcast use crate::bytes::lemma_vec_u8_deep_view;

/// One key-value pair, physical key first.
pub type Kv = (Vec<u8>, Vec<u8>);

/// The mathematical content of a list of pairs.
pub type KvsView = Seq<(Seq<u8>, Seq<u8>)>;

/// The pairs are strictly sorted by physical key (keys are unique).
pub open spec fn sorted_kvs(s: KvsView) -> bool {
    forall|i: int, j: int| 0 <= i < j < s.len() ==> lex_lt(s[i].0, s[j].0)
}

/// The value stored under physical key `k`, if any.
pub open spec fn kvs_get(s: KvsView, k: Seq<u8>) -> Option<Seq<u8>>
    decreases s.len(),
{
    if s.len() == 0 {
        None
    } else if s[0].0 == k {
        Some(s[0].1)
    } else {
        kvs_get(s.drop_first(), k)
    }
}

/// A key that appears nowhere is absent from the map.
pub proof fn lemma_kvs_get_none(s: KvsView, k: Seq<u8>)
    requires
        forall|i: int| 0 <= i < s.len() ==> s[i].0 != k,
    ensures
        kvs_get(s, k) is None,
    decreases s.len(),
{
    if s.len() > 0 {
        lemma_kvs_get_none(s.drop_first(), k);
    }
}

/// The first pair holding key `k` gives the stored value.
pub proof fn lemma_kvs_get_at(s: KvsView, k: Seq<u8>, i: int)
    requires
        0 <= i < s.len(),
        s[i].0 == k,
        forall|j: int| 0 <= j < i ==> s[j].0 != k,
    ensures
        kvs_get(s, k) == Some(s[i].1),
    decreases i,
{
    if i > 0 {
        lemma_kvs_get_at(s.drop_first(), k, i - 1);
    }
}

/// One named column family of a snapshot.
pub struct Cf {
    pub name: Vec<u8>,
    pub kvs: Vec<Kv>,
}

/// The first column family named `name`, if any.
pub open spec fn find_cf(cfs: Seq<Cf>, name: Seq<u8>) -> Option<Cf>
    decreases cfs.len(),
{
    if cfs.len() == 0 {
        None
    } else if cfs[0].name@ == name {
        Some(cfs[0])
    } else {
        find_cf(cfs.drop_first(), name)
    }
}

proof fn lemma_find_cf_none(cfs: Seq<Cf>, name: Seq<u8>)
    requires
        forall|i: int| 0 <= i < cfs.len() ==> cfs[i].name@ != name,
    ensures
        find_cf(cfs, name) is None,
    decreases cfs.len(),
{
    if cfs.len() > 0 {
        lemma_find_cf_none(cfs.drop_first(), name);
    }
}

proof fn lemma_find_cf_step(cfs: Seq<Cf>, name: Seq<u8>, i: int)
    requires
        0 <= i < cfs.len(),
        forall|j: int| 0 <= j < i ==> cfs[j].name@ != name,
    ensures
        find_cf(cfs, name) == find_cf(cfs.skip(i), name),
    decreases i,
{
    assert(cfs.skip(0) =~= cfs);
    if i > 0 {
        lemma_find_cf_step(cfs, name, i - 1);
        assert(cfs.skip(i - 1).drop_first() =~= cfs.skip(i));
    }
}

/// Searches `cfs` for the first column family named `name`.
pub fn lookup_cf<'a>(cfs: &'a Vec<Cf>, name: &[u8]) -> (r: Option<&'a Cf>)
    ensures
        match r {
            Some(c) => find_cf(cfs@, name@) == Some(*c) && exists|i: int|
                0 <= i < cfs@.len() && cfs@[i] == *c,
            None => find_cf(cfs@, name@) is None,
        },
{
    let mut i: usize = 0;
    while i < cfs.len()
        invariant
            i <= cfs@.len(),
            forall|j: int| 0 <= j < i ==> cfs@[j].name@ != name@,
        decreases cfs@.len() - i,
    {
        if bytes_eq(cfs[i].name.as_slice(), name) {
            proof {
                lemma_find_cf_step(cfs@, name@, i as int);
                assert(cfs@.skip(i as int)[0] == cfs@[i as int]);
                assert(exists|j: int| 0 <= j < cfs@.len() && cfs@[j] == cfs@[i as int]);
            }
            return Some(&cfs[i]);
        }
        i = i + 1;
    }
    proof {
        lemma_find_cf_none(cfs@, name@);
    }
    None
}

/// A deep copy of a pair list, used to capture a point-in-time snapshot.
pub fn copy_kvs(src: &Vec<Kv>) -> (r: Vec<Kv>)
    ensures
        r.deep_view() == src.deep_view(),
{
    let mut r: Vec<Kv> = Vec::new();
    let mut i: usize = 0;
    while i < src.len()
        invariant
            i <= src@.len(),
            r.deep_view() =~~= src.deep_view().take(i as int),
        decreases src@.len() - i,
    {
        let k = slice_to_vec(src[i].0.as_slice());
        let v = slice_to_vec(src[i].1.as_slice());
        r.push((k, v));
        proof {
            assert(r.deep_view() =~~= src.deep_view().take(i + 1));
        }
        i = i + 1;
    }
    proof {
        assert(src.deep_view().take(src@.len() as int) =~= src.deep_view());
        assert(r.deep_view() =~~= src.deep_view());
    }
    r
}

/// A deep copy of a column family list, element for element.
pub fn copy_cfs(src: &Vec<Cf>) -> (r: Vec<Cf>)
    ensures
        r@.len() == src@.len(),
        forall|i: int|
            0 <= i < src@.len() ==> (#[trigger] r@[i]).name@ == src@[i].name@ && r@[i].kvs.deep_view()
                == src@[i].kvs.deep_view(),
{
    let mut cfs: Vec<Cf> = Vec::new();
    let mut i: usize = 0;
    while i < src.len()
        invariant
            i <= src@.len(),
            cfs@.len() == i,
            forall|j: int|
                0 <= j < i ==> (#[trigger] cfs@[j]).name@ == src@[j].name@ && cfs@[j].kvs.deep_view()
                    == src@[j].kvs.deep_view(),
        decreases src@.len() - i,
    {
        let c = Cf { name: slice_to_vec(src[i].name.as_slice()), kvs: copy_kvs(&src[i].kvs) };
        cfs.push(c);
        i = i + 1;
    }
    cfs
}

/// An immutable point-in-time copy of the engine's contents: the default
/// column family and the named ones, each strictly sorted by physical key.
pub struct Snapshot {
    pub default_cf: Vec<Kv>,
    pub cfs: Vec<Cf>,
}

impl Snapshot {
    /// Every column family is strictly sorted by physical key.
    pub open spec fn wf(self) -> bool {
        &&& sorted_kvs(self.default_cf.deep_view())
        &&& forall|i: int|
            0 <= i < self.cfs@.len() ==> sorted_kvs(#[trigger] self.cfs@[i].kvs.deep_view())
    }

    /// An identical snapshot; snapshots are freely duplicated, never
    /// mutated.
    pub fn duplicate(&self) -> (s: Snapshot)
        ensures
            s.default_cf.deep_view() == self.default_cf.deep_view(),
            s.cfs@.len() == self.cfs@.len(),
            forall|i: int|
                0 <= i < self.cfs@.len() ==> (#[trigger] s.cfs@[i]).name@ == self.cfs@[i].name@
                    && s.cfs@[i].kvs.deep_view() == self.cfs@[i].kvs.deep_view(),
            self.wf() ==> s.wf(),
    {
        let s = Snapshot { default_cf: copy_kvs(&self.default_cf), cfs: copy_cfs(&self.cfs) };
        s
    }
}

/// The shared storage engine, reduced to what this layer consumes: sorted
/// column families and snapshot capture. Writes append in ascending key
/// order, which suffices to build any snapshot.
pub struct Engine {
    pub default_cf: Vec<Kv>,
    pub cfs: Vec<Cf>,
}

impl Engine {
    /// Every column family is strictly sorted by physical key.
    pub open spec fn wf(self) -> bool {
        &&& sorted_kvs(self.default_cf.deep_view())
        &&& forall|i: int|
            0 <= i < self.cfs@.len() ==> sorted_kvs(#[trigger] self.cfs@[i].kvs.deep_view())
    }

    /// An empty engine.
    pub fn new() -> (e: Engine)
        ensures
            e.wf(),
            e.default_cf.deep_view() == Seq::<(Seq<u8>, Seq<u8>)>::empty(),
            e.cfs@.len() == 0,
    {
        let e = Engine { default_cf: Vec::new(), cfs: Vec::new() };
        proof {
            assert(e.default_cf.deep_view() =~= Seq::<(Seq<u8>, Seq<u8>)>::empty());
        }
        e
    }

    /// Stores `value` under physical key `key` in the default column family.
    /// Accepted only above the highest key present; returns whether the pair
    /// was stored.
    pub fn put(&mut self, key: &[u8], value: &[u8]) -> (ok: bool)
        requires
            old(self).wf(),
        ensures
            final(self).wf(),
            final(self).cfs@ == old(self).cfs@,
            ok == (old(self).default_cf.deep_view().len() == 0 || lex_lt(
                old(self).default_cf.deep_view().last().0,
                key@,
            )),
            ok ==> final(self).default_cf.deep_view() == old(self).default_cf.deep_view().push(
                (key@, value@),
            ),
            !ok ==> final(self).default_cf.deep_view() == old(self).default_cf.deep_view(),
    {
        let n = self.default_cf.len();
        if n == 0 || bytes_lt(self.default_cf[n - 1].0.as_slice(), key) {
            let ghost prior = self.default_cf.deep_view();
            proof {
                if n > 0 {
                    assert(prior.last().0 == self.default_cf@[n - 1].0@);
                }
            }
            self.default_cf.push((slice_to_vec(key), slice_to_vec(value)));
            proof {
                assert(self.default_cf.deep_view() =~~= prior.push((key@, value@)));
                assert forall|i: int, j: int|
                    0 <= i < j < self.default_cf.deep_view().len() implies lex_lt(
                    self.default_cf.deep_view()[i].0,
                    self.default_cf.deep_view()[j].0,
                ) by {
                    let s = self.default_cf.deep_view();
                    if j < prior.len() {
                        assert(lex_lt(prior[i].0, prior[j].0));
                    } else if i < prior.len() - 1 {
                        assert(lex_lt(prior[i].0, prior.last().0));
                        lemma_lex_trans(s[i].0, prior.last().0, s[j].0);
                    }
                }
            }
            true
        } else {
            false
        }
    }

    /// Adds an empty column family named `cf`; returns whether it was added
    /// (an existing name is left untouched).
    pub fn create_cf(&mut self, cf: &[u8]) -> (ok: bool)
        requires
            old(self).wf(),
        ensures
            final(self).wf(),
            final(self).default_cf.deep_view() == old(self).default_cf.deep_view(),
            ok == (find_cf(old(self).cfs@, cf@) is None),
            ok ==> {
                &&& final(self).cfs@.len() == old(self).cfs@.len() + 1
                &&& final(self).cfs@.last().name@ == cf@
                &&& final(self).cfs@.last().kvs.deep_view() == Seq::<(Seq<u8>, Seq<u8>)>::empty()
                &&& forall|i: int|
                    0 <= i < old(self).cfs@.len() ==> final(self).cfs@[i] == old(self).cfs@[i]
            },
            !ok ==> final(self).cfs@ == old(self).cfs@,
    {
        match lookup_cf(&self.cfs, cf) {
            Some(_) => false,
            None => {
                let c = Cf { name: slice_to_vec(cf), kvs: Vec::new() };
                proof {
                    assert(c.kvs.deep_view() =~= Seq::<(Seq<u8>, Seq<u8>)>::empty());
                }
                self.cfs.push(c);
                true
            },
        }
    }

    /// Stores `value` under `key` in the column family named `cf`. Accepted
    /// only if that family exists and `key` is above its highest key;
    /// returns whether the pair was stored.
    pub fn put_cf(&mut self, cf: &[u8], key: &[u8], value: &[u8]) -> (ok: bool)
        requires
            old(self).wf(),
        ensures
            final(self).wf(),
            final(self).default_cf.deep_view() == old(self).default_cf.deep_view(),
            final(self).cfs@.len() == old(self).cfs@.len(),
            ok == (match find_cf(old(self).cfs@, cf@) {
                Some(c) => c.kvs.deep_view().len() == 0 || lex_lt(
                    c.kvs.deep_view().last().0,
                    key@,
                ),
                None => false,
            }),
            ok ==> exists|i: int|
                {
                    &&& 0 <= i < old(self).cfs@.len()
                    &&& (#[trigger] old(self).cfs@[i]).name@ == cf@
                    &&& final(self).cfs@[i].name@ == cf@
                    &&& final(self).cfs@[i].kvs.deep_view() == old(self).cfs@[i].kvs.deep_view().push(
                        (key@, value@),
                    )
                    &&& forall|j: int|
                        0 <= j < old(self).cfs@.len() && j != i ==> final(self).cfs@[j] == old(
                            self,
                        ).cfs@[j]
                },
            !ok ==> final(self).cfs@ == old(self).cfs@,
    {
        let mut idx: usize = 0;
        let n = self.cfs.len();
        while idx < n
            invariant
                old(self).wf(),
                n == self.cfs@.len(),
                idx <= n,
                *self == *old(self),
                forall|j: int| 0 <= j < idx ==> (#[trigger] old(self).cfs@[j]).name@ != cf@,
            decreases n - idx,
        {
            if bytes_eq(self.cfs[idx].name.as_slice(), cf) {
                proof {
                    lemma_find_cf_step(old(self).cfs@, cf@, idx as int);
                    assert(old(self).cfs@.skip(idx as int)[0] == old(self).cfs@[idx as int]);
                    assert(find_cf(old(self).cfs@, cf@) == Some(old(self).cfs@[idx as int]));
                }
                let mut c = self.cfs.remove(idx);
                let m = c.kvs.len();
                proof {
                    assert(c == old(self).cfs@[idx as int]);
                    assert(sorted_kvs(old(self).cfs@[idx as int].kvs.deep_view()));
                    assert(sorted_kvs(c.kvs.deep_view()));
                }
                if m == 0 || bytes_lt(c.kvs[m - 1].0.as_slice(), key) {
                    let ghost prior = c.kvs.deep_view();
                    proof {
                        if m > 0 {
                            assert(prior.last().0 == c.kvs@[m - 1].0@);
                        }
                    }
                    c.kvs.push((slice_to_vec(key), slice_to_vec(value)));
                    proof {
                        assert(c.kvs.deep_view() =~~= prior.push((key@, value@)));
                        assert forall|i: int, j: int|
                            0 <= i < j < c.kvs.deep_view().len() implies lex_lt(
                            c.kvs.deep_view()[i].0,
                            c.kvs.deep_view()[j].0,
                        ) by {
                            let s = c.kvs.deep_view();
                            if j < prior.len() {
                                assert(lex_lt(prior[i].0, prior[j].0));
                            } else if i < prior.len() - 1 {
                                assert(lex_lt(prior[i].0, prior.last().0));
                                lemma_lex_trans(s[i].0, prior.last().0, s[j].0);
                            }
                        }
                    }
                    self.cfs.insert(idx, c);
                    proof {
                        assert(self.cfs@ =~= old(self).cfs@.update(idx as int, c));
                        assert forall|i: int| 0 <= i < self.cfs@.len() implies sorted_kvs(
                            #[trigger] self.cfs@[i].kvs.deep_view(),
                        ) by {
                            if i != idx {
                                assert(self.cfs@[i] == old(self).cfs@[i]);
                                assert(sorted_kvs(old(self).cfs@[i].kvs.deep_view()));
                            } else {
                                assert(self.cfs@[i] == c);
                            }
                        }
                        assert((#[trigger] old(self).cfs@[idx as int]).name@ == cf@
                            && self.cfs@[idx as int].name@ == cf@ && self.cfs@[
                            idx as int
                        ].kvs.deep_view() == old(self).cfs@[idx as int].kvs.deep_view().push(
                            (key@, value@),
                        ));
                    }
                    return true;
                } else {
                    self.cfs.insert(idx, c);
                    proof {
                        assert(self.cfs@ =~= old(self).cfs@);
                    }
                    return false;
                }
            }
            idx = idx + 1;
        }
        proof {
            lemma_find_cf_none(self.cfs@, cf@);
        }
        false
    }

    /// Captures an immutable point-in-time copy of the whole engine.
    pub fn snapshot(&self) -> (s: Snapshot)
        requires
            self.wf(),
        ensures
            s.wf(),
            s.default_cf.deep_view() == self.default_cf.deep_view(),
            s.cfs@.len() == self.cfs@.len(),
            forall|i: int|
                0 <= i < self.cfs@.len() ==> (#[trigger] s.cfs@[i]).name@ == self.cfs@[i].name@
                    && s.cfs@[i].kvs.deep_view() == self.cfs@[i].kvs.deep_view(),
    {
        Snapshot { default_cf: copy_kvs(&self.default_cf), cfs: copy_cfs(&self.cfs) }
    }
}

} // verus!
