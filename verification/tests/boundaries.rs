//! Codec, bound clipping, corruption policy and column-family behaviour.

use region_snapshot::bytes::{bytes_eq, bytes_le, bytes_lt};
use region_snapshot::engine::Engine;
use region_snapshot::errors::{Error, Health};
use region_snapshot::iterator::{clip_lower, clip_upper, IterOption};
use region_snapshot::keys::{data_key, enc_end_key, enc_start_key, origin_key};
use region_snapshot::region::{check_key_in_region, check_key_in_region_inclusive, Region};
use region_snapshot::snapshot::{KvCollector, RegionSnapshot};

fn default_engine() -> Engine {
    let mut engine = Engine::new();
    for (k, v) in [
        (b"a1".as_slice(), b"v1".as_slice()),
        (b"a3", b"v3"),
        (b"a5", b"v5"),
        (b"a7", b"v7"),
    ] {
        let dk = data_key(k);
        assert!(engine.put(dk.as_slice(), v));
    }
    engine
}

fn region_a2_a7() -> Region {
    Region::new(1, b"a2".to_vec(), b"a7".to_vec())
}

#[test]
fn codec_round_trip() {
    for k in [b"".as_slice(), b"a", b"key", &[0x00], &[0xFF, 0xFF]] {
        let physical = data_key(k);
        assert_eq!(physical[0], 122u8);
        assert_eq!(physical.len(), k.len() + 1);
        let logical = origin_key(physical.as_slice());
        assert_eq!(logical, k.to_vec());
    }
}

#[test]
fn encoded_boundaries() {
    let r = region_a2_a7();
    assert_eq!(enc_start_key(&r), b"za2".to_vec());
    assert_eq!(enc_end_key(&r), b"za7".to_vec());

    // an empty end key means the whole data namespace, not an empty bound
    let unbounded = Region::new(2, Vec::new(), Vec::new());
    assert_eq!(enc_start_key(&unbounded), b"z".to_vec());
    assert_eq!(enc_end_key(&unbounded), vec![123u8]);
    let high = data_key(&[0xFF, 0xFF, 0xFF]);
    assert!(bytes_lt(high.as_slice(), enc_end_key(&unbounded).as_slice()));
}

#[test]
fn byte_order() {
    assert!(bytes_lt(b"a", b"b"));
    assert!(bytes_lt(b"a", b"a0"));
    assert!(!bytes_lt(b"a", b"a"));
    assert!(bytes_le(b"a", b"a"));
    assert!(bytes_le(b"", b"a"));
    assert!(!bytes_le(b"b", b"a"));
    assert!(bytes_eq(b"abc", b"abc"));
    assert!(!bytes_eq(b"abc", b"abd"));
    assert!(!bytes_eq(b"ab", b"abc"));
}

#[test]
fn bound_intersection() {
    let r = region_a2_a7();
    // a caller bound outside the region is clamped to the region boundary
    assert_eq!(clip_lower(&Some(b"a0".to_vec()), &r), b"za2".to_vec());
    assert_eq!(clip_upper(&Some(vec![0xFF, 0xFF]), &r), b"za7".to_vec());
    // a caller bound inside the region is kept
    assert_eq!(clip_lower(&Some(b"a4".to_vec()), &r), b"za4".to_vec());
    assert_eq!(clip_upper(&Some(b"a5".to_vec()), &r), b"za5".to_vec());
    // a missing or empty bound falls back to the region boundary
    assert_eq!(clip_lower(&None, &r), b"za2".to_vec());
    assert_eq!(clip_upper(&None, &r), b"za7".to_vec());
    assert_eq!(clip_lower(&Some(Vec::new()), &r), b"za2".to_vec());
    assert_eq!(clip_upper(&Some(Vec::new()), &r), b"za7".to_vec());
}

#[test]
fn upper_bound_tighter_than_region() {
    let engine = default_engine();
    let snap = RegionSnapshot::from_raw(&engine, region_a2_a7(), false);
    let mut it = snap.iter(IterOption::new(None, Some(b"a5".to_vec()), true));
    let pairs = it.collect_forward();
    assert_eq!(pairs, vec![(b"a3".to_vec(), b"v3".to_vec())]);
}

#[test]
fn point_lookup_contract() {
    let engine = default_engine();
    let snap = RegionSnapshot::from_raw(&engine, region_a2_a7(), false);
    let mut health = Health::new();

    // present and in range
    assert_eq!(snap.get_value(b"a3", &mut health).unwrap(), Some(b"v3".to_vec()));
    // absent and in range
    assert_eq!(snap.get_value(b"a4", &mut health).unwrap(), None);
    // outside the range: the typed error names the key and the region
    match snap.get_value(b"a1", &mut health) {
        Err(Error::KeyNotInRegion { key, region_id, start_key, end_key }) => {
            assert_eq!(key, b"a1".to_vec());
            assert_eq!(region_id, 1);
            assert_eq!(start_key, b"a2".to_vec());
            assert_eq!(end_key, b"a7".to_vec());
        },
        _ => panic!("expected KeyNotInRegion"),
    }
    assert_eq!(health.critical_errors, 1);
    assert!(!health.corruption_marked);
}

#[test]
fn seek_asymmetry_at_end_key() {
    let engine = default_engine();
    let snap = RegionSnapshot::from_raw(&engine, region_a2_a7(), false);
    let mut health = Health::new();
    let mut it = snap.iter(IterOption::default());

    // the exclusive end is rejected as a forward-seek target ...
    assert!(it.seek(b"a7", &mut health).is_err());
    // ... but accepted as a backward-seek target, landing strictly below it
    assert!(it.seek_for_prev(b"a7", &mut health).unwrap());
    assert_eq!(it.key(), b"a5".to_vec());
    assert_eq!(it.value(), b"v5".to_vec());

    // the plain membership checks show the same asymmetry
    let r = region_a2_a7();
    assert!(check_key_in_region(b"a7", &r).is_err());
    assert!(check_key_in_region_inclusive(b"a7", &r).is_ok());
    assert!(check_key_in_region_inclusive(b"a8", &r).is_err());
}

#[test]
fn seek_scenarios() {
    let engine = default_engine();
    let snap = RegionSnapshot::from_raw(&engine, region_a2_a7(), false);
    let mut health = Health::new();
    let mut it = snap.iter(IterOption::default());

    assert!(it.seek(b"a1", &mut health).is_err());
    assert!(it.seek(b"a2", &mut health).unwrap());
    assert_eq!(it.key(), b"a3".to_vec());
    assert_eq!(it.value(), b"v3".to_vec());
    assert!(it.seek(b"a8", &mut health).is_err());
    assert_eq!(health.critical_errors, 2);
}

#[test]
fn forward_backward_symmetry() {
    let engine = default_engine();
    let snap = RegionSnapshot::from_raw(&engine, region_a2_a7(), false);
    let mut it = snap.iter(IterOption::default());
    let forward = it.collect_forward();
    let mut backward = it.collect_backward();
    backward.reverse();
    assert_eq!(forward, backward);
    assert_eq!(
        forward,
        vec![(b"a3".to_vec(), b"v3".to_vec()), (b"a5".to_vec(), b"v5".to_vec())]
    );
}

#[test]
fn unbounded_region_reaches_keyspace_end() {
    let mut engine = default_engine();
    let high = data_key(&[0xFF, 0xFF]);
    assert!(engine.put(high.as_slice(), b"vh"));
    let region = Region::new(3, Vec::new(), Vec::new());
    let snap = RegionSnapshot::from_raw(&engine, region, false);
    let mut it = snap.iter(IterOption::default());
    let pairs = it.collect_forward();
    assert_eq!(pairs.len(), 5);
    assert_eq!(pairs[4], (vec![0xFF, 0xFF], b"vh".to_vec()));
}

#[test]
fn scan_with_empty_bounds_over_unbounded_region() {
    let engine = default_engine();
    let region = Region::new(3, Vec::new(), Vec::new());
    let snap = RegionSnapshot::from_raw(&engine, region, false);
    let mut c = KvCollector::new();
    let mut health = Health::new();
    snap.scan(b"", &[0xFF, 0xFF], false, &mut c, &mut health).unwrap();
    assert_eq!(c.pairs.len(), 4);
    assert_eq!(c.pairs[0], (b"a1".to_vec(), b"v1".to_vec()));
    assert_eq!(c.pairs[3], (b"a7".to_vec(), b"v7".to_vec()));
}

#[test]
fn scan_out_of_range_start_fails() {
    let engine = default_engine();
    let snap = RegionSnapshot::from_raw(&engine, region_a2_a7(), false);
    let mut c = KvCollector::new();
    let mut health = Health::new();
    let r = snap.scan(b"a1", &[0xFF, 0xFF], false, &mut c, &mut health);
    assert!(matches!(r, Err(Error::KeyNotInRegion { .. })));
    assert!(c.pairs.is_empty());
    assert_eq!(health.critical_errors, 1);
}

#[test]
fn scan_propagates_visitor_error() {
    let engine = default_engine();
    let snap = RegionSnapshot::from_raw(&engine, region_a2_a7(), false);
    let mut v = KvCollector::failing_after(1);
    let mut health = Health::new();
    let r = snap.scan(b"a2", &[0xFF, 0xFF], false, &mut v, &mut health);
    assert!(matches!(r, Err(Error::EngineIo)));
    assert_eq!(v.pairs.len(), 1);
}

#[test]
fn fill_cache_hint_has_no_effect() {
    let engine = default_engine();
    let snap = RegionSnapshot::from_raw(&engine, region_a2_a7(), false);
    let mut health = Health::new();
    let mut with_hint = KvCollector::new();
    let mut without_hint = KvCollector::new();
    let r1 = snap.scan(b"a2", &[0xFF, 0xFF], true, &mut with_hint, &mut health);
    let r2 = snap.scan(b"a2", &[0xFF, 0xFF], false, &mut without_hint, &mut health);
    assert!(r1.is_ok() && r2.is_ok());
    assert_eq!(with_hint.pairs, without_hint.pairs);
}

#[test]
fn fail_fast_sets_corruption_mark() {
    let engine = default_engine();
    let snap = RegionSnapshot::from_raw(&engine, region_a2_a7(), true);
    let mut health = Health::new();
    assert!(snap.get_value(b"a1", &mut health).is_err());
    assert_eq!(health.critical_errors, 1);
    assert!(health.corruption_marked);

    // without fail-fast the error stays recoverable and the mark clear
    let lenient = RegionSnapshot::from_raw(&engine, region_a2_a7(), false);
    let mut health2 = Health::new();
    assert!(lenient.get_value(b"a8", &mut health2).is_err());
    assert!(!health2.corruption_marked);
}

#[test]
fn column_families() {
    let mut engine = default_engine();
    assert!(engine.create_cf(b"lock"));
    assert!(!engine.create_cf(b"lock"));
    let dk = data_key(b"a3");
    assert!(engine.put_cf(b"lock", dk.as_slice(), b"l3"));
    let dk5 = data_key(b"a5");
    assert!(engine.put_cf(b"lock", dk5.as_slice(), b"l5"));

    let snap = RegionSnapshot::from_raw(&engine, region_a2_a7(), false);
    let mut health = Health::new();

    assert_eq!(snap.get_value_cf("lock", b"a3", &mut health).unwrap(), Some(b"l3".to_vec()));
    assert_eq!(snap.get_value_cf("lock", b"a4", &mut health).unwrap(), None);
    match snap.get_value_cf("write", b"a3", &mut health) {
        Err(Error::ColumnFamilyNotFound { cf }) => assert_eq!(cf, b"write".to_vec()),
        _ => panic!("expected ColumnFamilyNotFound"),
    }
    // the region check comes before the column-family lookup
    assert!(matches!(
        snap.get_value_cf("write", b"a1", &mut health),
        Err(Error::KeyNotInRegion { .. })
    ));

    let mut it = snap.iter_cf("lock", IterOption::default()).unwrap();
    let pairs = it.collect_forward();
    assert_eq!(
        pairs,
        vec![(b"a3".to_vec(), b"l3".to_vec()), (b"a5".to_vec(), b"l5".to_vec())]
    );
    assert!(snap.iter_cf("write", IterOption::default()).is_err());

    let mut c = KvCollector::new();
    snap.scan_cf("lock", b"a2", &[0xFF, 0xFF], false, &mut c, &mut health).unwrap();
    assert_eq!(c.pairs.len(), 2);

    let props = snap.get_properties_cf("lock").unwrap();
    assert_eq!(props.entries, 2);
    assert!(snap.get_properties_cf("raft").is_err());
}

#[test]
fn engine_put_requires_ascending_keys() {
    let mut engine = Engine::new();
    let dk5 = data_key(b"a5");
    let dk3 = data_key(b"a3");
    assert!(engine.put(dk5.as_slice(), b"v5"));
    assert!(!engine.put(dk3.as_slice(), b"v3"));
    assert!(!engine.put(dk5.as_slice(), b"v5x"));
}

#[test]
fn snapshot_is_point_in_time() {
    let mut engine = default_engine();
    let region = Region::new(1, b"a2".to_vec(), b"a9".to_vec());
    let snap = RegionSnapshot::from_raw(&engine, region, false);
    let dk = data_key(b"a8");
    assert!(engine.put(dk.as_slice(), b"v8"));
    let mut health = Health::new();
    // the write after capture is invisible through the snapshot
    assert_eq!(snap.get_value(b"a8", &mut health).unwrap(), None);
    let copy = snap.duplicate();
    assert_eq!(copy.get_value(b"a3", &mut health).unwrap(), Some(b"v3".to_vec()));
    assert_eq!(copy.get_region().id, 1);
    assert_eq!(copy.get_start_key(), b"a2");
    assert_eq!(copy.get_end_key(), b"a9");
}
