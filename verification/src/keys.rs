//! The key codec: translation between logical keys (caller-visible) and
//! physical keys (stored in the shared engine).
//!
//! Region data shares the physical key space with non-region metadata, so
//! every data key carries a one-byte namespace prefix. Only this module adds
//! or strips that prefix. A region's encoded end maps an empty `end_key` to
//! the smallest physical key above the whole data namespace, never to an
//! empty bound.

use vstd::prelude::*;
use crate::bytes::{lex_le, lex_lt};
use crate::region::{key_in_region, Region, RegionView};

verus! {

/// The namespace prefix of every physical data key.
pub const DATA_PREFIX: u8 = 122;

/// The byte just above the prefix: `[DATA_MAX_BYTE]` bounds the whole data
/// namespace from above.
pub const DATA_MAX_BYTE: u8 = 123;

/// The physical form of logical key `k`.
pub open spec fn data_key_s(k: Seq<u8>) -> Seq<u8> {
    seq![DATA_PREFIX] + k
}

/// The logical form of physical key `k` (strips the namespace prefix).
pub open spec fn origin_key_s(k: Seq<u8>) -> Seq<u8> {
    k.drop_first()
}

/// The least physical key above every data key.
pub open spec fn data_max_key_s() -> Seq<u8> {
    seq![DATA_MAX_BYTE]
}

/// The physical encoding of a region's inclusive lower boundary.
pub open spec fn enc_start_s(r: RegionView) -> Seq<u8> {
    data_key_s(r.start)
}

/// The physical encoding of a region's exclusive upper boundary; an empty
/// `end_key` means the whole data namespace.
pub open spec fn enc_end_s(r: RegionView) -> Seq<u8> {
    if r.end.len() == 0 {
        data_max_key_s()
    } else {
        data_key_s(r.end)
    }
}

/// Converts a logical key to its physical form.
pub fn data_key(key: &[u8]) -> (r: Vec<u8>)
    ensures
        r@ == data_key_s(key@),
{
    let mut v: Vec<u8> = Vec::new();
    v.push(DATA_PREFIX);
    v.extend_from_slice(key);
    proof {
        assert(v@ =~= data_key_s(key@));
    }
    v
}

/// Converts a physical data key back to its logical form.
pub fn origin_key(data_key: &[u8]) -> (r: Vec<u8>)
    requires
        data_key@.len() >= 1,
        data_key@[0] == DATA_PREFIX,
    ensures
        r@ == origin_key_s(data_key@),
{
    let mut v: Vec<u8> = Vec::new();
    let mut i: usize = 1;
    while i < data_key.len()
        invariant
            1 <= i <= data_key@.len(),
            v@ =~= data_key@.subrange(1, i as int),
        decreases data_key@.len() - i,
    {
        let b = data_key[i];
        v.push(b);
        i = i + 1;
    }
    proof {
        assert(v@ =~= origin_key_s(data_key@));
    }
    v
}

/// The physical encoding of `region`'s lower boundary.
pub fn enc_start_key(region: &Region) -> (r: Vec<u8>)
    ensures
        r@ == enc_start_s(region@),
{
    data_key(region.start_key.as_slice())
}

/// The physical encoding of `region`'s upper boundary.
pub fn enc_end_key(region: &Region) -> (r: Vec<u8>)
    ensures
        r@ == enc_end_s(region@),
{
    if region.end_key.len() == 0 {
        let mut v: Vec<u8> = Vec::new();
        v.push(DATA_MAX_BYTE);
        proof {
            assert(v@ =~= data_max_key_s());
        }
        v
    } else {
        data_key(region.end_key.as_slice())
    }
}

/// The codec is a two-sided inverse: stripping the prefix undoes adding it,
/// for every logical key.
pub proof fn lemma_codec_round_trip(k: Seq<u8>)
    ensures
        origin_key_s(data_key_s(k)) == k,
{
    assert(origin_key_s(data_key_s(k)) =~= k);
}

/// Every physical data key lies strictly below the data namespace's upper
/// bound, so a region with an empty `end_key` excludes no data key from
/// above: the unbounded region reaches the true end of the key space.
pub proof fn lemma_unbounded_region_covers(k: Seq<u8>, r: RegionView)
    requires
        r.end.len() == 0,
    ensures
        lex_lt(data_key_s(k), enc_end_s(r)),
{
    assert(data_key_s(k)[0] == DATA_PREFIX);
    assert(data_max_key_s()[0] == DATA_MAX_BYTE);
}

/// A physical key between a region's encoded boundaries is a data key whose
/// logical form lies in the region: the clipped iterator bounds admit
/// region-owned data only.
pub proof fn lemma_bounded_key_in_region(k: Seq<u8>, r: RegionView)
    requires
        lex_le(enc_start_s(r), k),
        lex_lt(k, enc_end_s(r)),
    ensures
        k.len() >= 1,
        k[0] == DATA_PREFIX,
        key_in_region(origin_key_s(k), r),
{
    assert(k.len() >= 1 && k[0] == DATA_PREFIX) by {
        assert(enc_start_s(r)[0] == DATA_PREFIX);
        if k.len() == 0 {
            assert(!lex_le(enc_start_s(r), k));
        }
        if k[0] > DATA_PREFIX {
            if r.end.len() == 0 {
                if k[0] == DATA_MAX_BYTE {
                    assert(data_max_key_s().drop_first() =~= Seq::<u8>::empty());
                    assert(!lex_lt(k.drop_first(), data_max_key_s().drop_first()));
                }
                assert(!lex_lt(k, data_max_key_s()));
            } else {
                assert(!lex_lt(k, data_key_s(r.end)));
            }
        }
    }
    assert(lex_le(r.start, origin_key_s(k))) by {
        assert(enc_start_s(r).drop_first() =~= r.start);
        assert(k.drop_first() =~= origin_key_s(k));
    }
    if r.end.len() > 0 {
        assert(lex_lt(origin_key_s(k), r.end)) by {
            assert(data_key_s(r.end).drop_first() =~= r.end);
            assert(k.drop_first() =~= origin_key_s(k));
        }
    }
}

} // verus!
