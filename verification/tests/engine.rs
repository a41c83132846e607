//! Scenario tests for the free-list engine: the documented behaviours on
//! concrete regions, requests, and release orders.

use freelist_alloc::Heap;

#[test]
fn region_scenario() {
    // region of 0x30000 bytes at base 0x1000
    let mut h = Heap::empty();
    h.init(0x1000, 0x30000);
    let free0 = h.free();
    assert_eq!(free0, 0x30000);

    let p = h.allocate(64, 8).unwrap();
    assert_eq!(p % 8, 0);
    assert!(p >= 0x1000);
    assert!(p + 64 <= 0x1000 + 0x30000);
    let free1 = h.free();
    assert!(free0 - free1 >= 64);

    h.deallocate(p, 64, 8);
    assert_eq!(h.free(), free0);
}

#[test]
fn three_blocks_full_coalesce() {
    // three 100-byte blocks from a fresh 1024-byte region, released in the
    // order B, A, C: exactly one node of size 1024 remains
    let mut h = Heap::empty();
    h.init(0, 1024);
    let a = h.allocate(100, 1).unwrap();
    let b = h.allocate(100, 1).unwrap();
    let c = h.allocate(100, 1).unwrap();
    h.deallocate(b, 100, 1);
    h.deallocate(a, 100, 1);
    h.deallocate(c, 100, 1);
    assert_eq!(h.node_count(), 1);
    let n = h.node_at(0).unwrap();
    assert_eq!(n.addr, 0);
    assert_eq!(n.size, 1024);
    assert_eq!(h.free(), 1024);
}

#[test]
fn coalesce_first_third_second() {
    // the middle block released last bridges both neighbours at once
    let mut h = Heap::empty();
    h.init(0, 1024);
    let a = h.allocate(64, 16).unwrap();
    let b = h.allocate(64, 16).unwrap();
    let c = h.allocate(64, 16).unwrap();
    assert_eq!((a, b, c), (0, 64, 128));
    h.deallocate(a, 64, 16);
    h.deallocate(c, 64, 16);
    h.deallocate(b, 64, 16);
    assert_eq!(h.node_count(), 1);
    let n = h.node_at(0).unwrap();
    assert_eq!((n.addr, n.size), (0, 1024));
}

#[test]
fn exhaustion_always_fails() {
    let mut h = Heap::empty();
    h.init(0, 256);
    assert_eq!(h.allocate(512, 1), None);
    assert_eq!(h.free(), 256);

    let p = h.allocate(200, 1).unwrap();
    // more than the remaining free bytes can never be served
    assert_eq!(h.allocate(100, 1), None);
    h.deallocate(p, 200, 1);
    assert_eq!(h.free(), 256);
}

#[test]
fn alignment_of_returned_addresses() {
    let mut h = Heap::empty();
    h.init(8, 4096);
    let p = h.allocate(32, 64).unwrap();
    assert_eq!(p % 64, 0);
    let q = h.allocate(32, 256).unwrap();
    assert_eq!(q % 256, 0);
    let r = h.allocate(5, 1).unwrap();
    assert!(r >= 8 && r + 5 <= 8 + 4096);
}

#[test]
fn round_trip_with_padding() {
    // an aligned request that forces front padding still reclaims fully
    let mut h = Heap::empty();
    h.init(8, 4096);
    let free0 = h.free();
    let p = h.allocate(50, 128).unwrap();
    assert_eq!(p % 128, 0);
    assert!(h.free() < free0);
    h.deallocate(p, 50, 128);
    assert_eq!(h.free(), free0);
}

#[test]
fn accounting_after_every_operation() {
    let mut h = Heap::empty();
    h.init(0x2000, 2048);
    assert_eq!(h.used() + h.free(), 2048);
    let p = h.allocate(300, 4).unwrap();
    assert_eq!(h.used() + h.free(), 2048);
    let q = h.allocate(17, 2).unwrap();
    assert_eq!(h.used() + h.free(), 2048);
    h.deallocate(p, 300, 4);
    assert_eq!(h.used() + h.free(), 2048);
    h.deallocate(q, 17, 2);
    assert_eq!(h.used() + h.free(), 2048);
    assert_eq!(h.used(), 0);
}

#[test]
fn smallest_possible_region() {
    // a region of exactly one node footprint serves exactly one minimal block
    let mut h = Heap::empty();
    h.init(64, 16);
    let p = h.allocate(1, 1).unwrap();
    assert_eq!(p, 64);
    assert_eq!(h.free(), 0);
    assert_eq!(h.allocate(1, 1), None);
    h.deallocate(p, 1, 1);
    assert_eq!(h.free(), 16);
}

#[test]
fn too_small_remainder_skips_the_node() {
    // a 24-byte hole cannot serve a 16-byte block: the 8 bytes left over
    // could not host a node, so the search moves on to the next hole
    let mut h = Heap::empty();
    h.init(0, 1024);
    let a = h.allocate(24, 1).unwrap();
    let b = h.allocate(16, 1).unwrap();
    assert_eq!((a, b), (0, 24));
    h.deallocate(a, 24, 1);
    let c = h.allocate(16, 1).unwrap();
    assert_eq!(c, 40);
    // the 24-byte hole is still there, untouched
    let n = h.node_at(0).unwrap();
    assert_eq!((n.addr, n.size), (0, 24));
}

#[test]
fn small_requests_consume_a_full_node_footprint() {
    // every block consumes at least one node footprint
    let mut h = Heap::empty();
    h.init(0, 512);
    let free0 = h.free();
    let p = h.allocate(1, 1).unwrap();
    assert_eq!(free0 - h.free(), 16);
    h.deallocate(p, 1, 1);
    assert_eq!(h.free(), free0);
}

#[test]
fn ready_state_tracks_init() {
    let mut h = Heap::empty();
    assert!(!h.ready());
    h.init(0, 128);
    assert!(h.ready());
}

#[test]
fn first_fit_prefers_the_lowest_hole() {
    let mut h = Heap::empty();
    h.init(0, 1024);
    let a = h.allocate(128, 1).unwrap();
    let _b = h.allocate(128, 1).unwrap();
    h.deallocate(a, 128, 1);
    // the freed low hole is picked again, not the large tail hole
    let c = h.allocate(64, 1).unwrap();
    assert_eq!(c, 0);
    // and the rest of the low hole survives as its own node
    let n = h.node_at(0).unwrap();
    assert_eq!((n.addr, n.size), (64, 64));
}
