use std::collections::HashSet;

use octomap::key::OcTreeKey;
use octomap::scan::{distinct_keys, pack, ScanUpdate};

fn key(x: u16, y: u16, z: u16) -> OcTreeKey {
    OcTreeKey::new(x, y, z)
}

#[test]
fn the_freed_and_occupied_sets_never_overlap() {
    let mut u = ScanUpdate::new();
    // Two rays along x; the second ends where the first passed.
    u.add_crossed(&[key(0, 0, 0), key(1, 0, 0), key(2, 0, 0)]);
    u.add_ended(key(3, 0, 0));
    u.add_crossed(&[key(0, 0, 0), key(1, 0, 0)]);
    u.add_ended(key(2, 0, 0));
    let (free, occupied) = u.finish();

    let free: HashSet<OcTreeKey> = free.into_iter().collect();
    let occupied: HashSet<OcTreeKey> = occupied.into_iter().collect();
    assert!(free.is_disjoint(&occupied));
    assert_eq!(free, [key(0, 0, 0), key(1, 0, 0)].into_iter().collect());
    assert_eq!(occupied, [key(3, 0, 0), key(2, 0, 0)].into_iter().collect());
}

#[test]
fn each_voxel_is_listed_once() {
    let mut u = ScanUpdate::new();
    u.add_crossed(&[key(5, 5, 5), key(5, 5, 5), key(6, 5, 5)]);
    u.add_crossed(&[key(6, 5, 5)]);
    u.add_ended(key(9, 9, 9));
    u.add_ended(key(9, 9, 9));
    let (free, occupied) = u.finish();
    assert_eq!(free, vec![key(5, 5, 5), key(6, 5, 5)]);
    assert_eq!(occupied, vec![key(9, 9, 9)]);
}

#[test]
fn an_empty_scan_touches_nothing() {
    let (free, occupied) = ScanUpdate::new().finish();
    assert!(free.is_empty());
    assert!(occupied.is_empty());
}

#[test]
fn duplicate_endpoints_collapse_to_one_voxel() {
    let keys = [key(1, 2, 3), key(4, 5, 6), key(1, 2, 3), key(1, 2, 3), key(7, 8, 9)];
    assert_eq!(distinct_keys(&keys), vec![key(1, 2, 3), key(4, 5, 6), key(7, 8, 9)]);
    assert!(distinct_keys(&[]).is_empty());
}

#[test]
fn packing_keeps_every_axis() {
    assert_eq!(pack(&key(1, 2, 3)), 0x0001_0002_0003);
    assert_eq!(pack(&key(65535, 0, 65535)), 0xffff_0000_ffff);
    assert_ne!(pack(&key(0, 1, 0)), pack(&key(0, 0, 1)));
}
