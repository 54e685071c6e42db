//! Ports of the read-path tests: point lookups, forward iteration, seeks in
//! both directions, and reverse traversal, over the default dataset.

use region_snapshot::engine::Engine;
use region_snapshot::errors::Health;
use region_snapshot::iterator::{IterOption, RegionIterator};
use region_snapshot::keys::data_key;
use region_snapshot::region::Region;
use region_snapshot::snapshot::{KvCollector, RegionSnapshot};

type DataSet = Vec<(Vec<u8>, Vec<u8>)>;

fn new_engine(data: &[(&[u8], &[u8])]) -> Engine {
    let mut engine = Engine::new();
    for (k, v) in data {
        let dk = data_key(k);
        assert!(engine.put(dk.as_slice(), v));
    }
    engine
}

fn base_data() -> DataSet {
    vec![
        (b"a1".to_vec(), b"v1".to_vec()),
        (b"a3".to_vec(), b"v3".to_vec()),
        (b"a5".to_vec(), b"v5".to_vec()),
        (b"a7".to_vec(), b"v7".to_vec()),
    ]
}

fn load_default_dataset() -> (Engine, DataSet) {
    let engine = new_engine(&[
        (b"a1", b"v1"),
        (b"a3", b"v3"),
        (b"a5", b"v5"),
        (b"a7", b"v7"),
    ]);
    (engine, base_data())
}

fn collect(snap: &RegionSnapshot, start: &[u8], end: &[u8]) -> DataSet {
    let mut c = KvCollector::new();
    let mut health = Health::new();
    snap.scan(start, end, false, &mut c, &mut health).unwrap();
    c.pairs
}

#[test]
fn test_peekable() {
    let engine = new_engine(&[(b"key1", b"v1"), (b"key2", b"v2"), (b"key3", b"v3")]);
    let r = Region::new(10, b"key0".to_vec(), b"key4".to_vec());
    let snap = RegionSnapshot::from_raw(&engine, r, false);
    let mut health = Health::new();

    let v1 = snap.get_value(b"key1", &mut health).expect("");
    assert_eq!(v1, Some(b"v1".to_vec()));
    let v2 = snap.get_value(b"key2", &mut health).expect("");
    assert_eq!(v2, Some(b"v2".to_vec()));
    let v3 = snap.get_value(b"key3", &mut health).expect("");
    assert_eq!(v3, Some(b"v3".to_vec()));

    let v0 = snap.get_value(b"key0", &mut health).expect("");
    assert!(v0.is_none());

    let v4 = snap.get_value(b"key5", &mut health);
    assert!(v4.is_err());
}

#[test]
fn test_iterate() {
    let (engine, base_data) = load_default_dataset();
    let region = Region::new(10, b"a2".to_vec(), b"a7".to_vec());
    let snap = RegionSnapshot::from_raw(&engine, region, false);
    let mut health = Health::new();

    let data = collect(&snap, b"a2", &[0xFF, 0xFF]);
    assert_eq!(data.len(), 2);
    assert_eq!(data, base_data[1..3].to_vec());

    // seek targets: whether the forward seek and the backward seek are
    // accepted, and what entry each lands on. The region's exclusive end
    // `a7` is a valid target only for the backward direction.
    let seek_table: Vec<(&[u8], bool, bool, Option<(&[u8], &[u8])>, Option<(&[u8], &[u8])>)> = vec![
        (b"a1", false, false, None, None),
        (b"a2", true, true, Some((b"a3", b"v3")), None),
        (b"a3", true, true, Some((b"a3", b"v3")), Some((b"a3", b"v3"))),
        (b"a4", true, true, Some((b"a5", b"v5")), Some((b"a3", b"v3"))),
        (b"a6", true, true, None, Some((b"a5", b"v5"))),
        (b"a7", false, true, None, Some((b"a5", b"v5"))),
        (b"a8", false, false, None, None),
    ];
    let upper_bounds: Vec<Option<&[u8]>> = vec![None, Some(b"a7")];
    for upper_bound in upper_bounds {
        let iter_opt = IterOption::new(None, upper_bound.map(|v| v.to_vec()), true);
        let mut iter = snap.iter(iter_opt);
        for (seek_key, seek_ok, prev_ok, seek_exp, prev_exp) in seek_table.clone() {
            let check_res = |iter: &RegionIterator,
                             in_range: bool,
                             res: Result<bool, region_snapshot::errors::Error>,
                             exp: Option<(&[u8], &[u8])>| {
                if !in_range {
                    assert!(res.is_err(), "exp failed at {:?}", seek_key);
                    return;
                }
                if exp.is_none() {
                    assert!(!res.unwrap(), "exp none at {:?}", seek_key);
                    return;
                }
                assert!(res.unwrap(), "should succeed at {:?}", seek_key);
                let (exp_key, exp_val) = exp.unwrap();
                assert_eq!(iter.key(), exp_key.to_vec());
                assert_eq!(iter.value(), exp_val.to_vec());
            };
            let seek_res = iter.seek(seek_key, &mut health);
            check_res(&iter, seek_ok, seek_res, seek_exp);
            let prev_res = iter.seek_for_prev(seek_key, &mut health);
            check_res(&iter, prev_ok, prev_res, prev_exp);
        }
    }

    let mut limited = KvCollector::with_limit(1);
    snap.scan(b"a2", &[0xFF, 0xFF], false, &mut limited, &mut health).unwrap();
    assert_eq!(limited.pairs.len(), 1);

    let mut iter = snap.iter(IterOption::default());
    assert!(iter.seek_to_first().unwrap());
    let mut res = vec![];
    loop {
        res.push((iter.key(), iter.value()));
        if !iter.next().unwrap() {
            break;
        }
    }
    assert_eq!(res, base_data[1..3].to_vec());

    // the last region: empty start and end expose the whole dataset
    let region = Region::new(0, Vec::new(), Vec::new());
    let snap = RegionSnapshot::from_raw(&engine, region, false);
    let data = collect(&snap, b"", &[0xFF, 0xFF]);
    assert_eq!(data.len(), 4);
    assert_eq!(data, base_data);

    let mut iter = snap.iter(IterOption::default());
    assert!(iter.seek(b"a1", &mut health).unwrap());

    assert!(iter.seek_to_first().unwrap());
    let mut res = vec![];
    loop {
        res.push((iter.key(), iter.value()));
        if !iter.next().unwrap() {
            break;
        }
    }
    assert_eq!(res, base_data);

    // iterator with a user upper bound tighter than the region's
    let mut iter = snap.iter(IterOption::new(None, Some(b"a5".to_vec()), true));
    assert!(iter.seek_to_first().unwrap());
    let mut res = vec![];
    loop {
        res.push((iter.key(), iter.value()));
        if !iter.next().unwrap() {
            break;
        }
    }
    assert_eq!(res, base_data[0..2].to_vec());
}

#[test]
fn test_reverse_iterate() {
    let (engine, test_data) = load_default_dataset();
    let region = Region::new(10, b"a2".to_vec(), b"a7".to_vec());
    let snap = RegionSnapshot::from_raw(&engine, region, false);

    let mut iter = snap.iter(IterOption::default());
    assert!(iter.seek_to_last().unwrap());
    let mut res = vec![];
    loop {
        res.push((iter.key(), iter.value()));
        if !iter.prev().unwrap() {
            break;
        }
    }
    let mut expect = test_data[1..3].to_vec();
    expect.reverse();
    assert_eq!(res, expect);

    // the last region
    let region = Region::new(0, Vec::new(), Vec::new());
    let snap = RegionSnapshot::from_raw(&engine, region, false);
    let mut iter = snap.iter(IterOption::default());
    assert!(iter.seek_to_last().unwrap());
    let mut res = vec![];
    loop {
        res.push((iter.key(), iter.value()));
        if !iter.prev().unwrap() {
            break;
        }
    }
    let mut expect = test_data.clone();
    expect.reverse();
    assert_eq!(res, expect);
}

#[test]
fn test_reverse_iterate_with_lower_bound() {
    let (engine, test_data) = load_default_dataset();
    let region = Region::new(10, b"a2".to_vec(), b"a7".to_vec());
    let snap = RegionSnapshot::from_raw(&engine, region, false);

    let mut iter_opt = IterOption::default();
    iter_opt.set_lower_bound(b"a3".to_vec());
    let mut iter = snap.iter(iter_opt);
    assert!(iter.seek_to_last().unwrap());
    let mut res = vec![];
    loop {
        res.push((iter.key(), iter.value()));
        if !iter.prev().unwrap() {
            break;
        }
    }
    res.sort();
    assert_eq!(res, test_data[1..3].to_vec());
}
