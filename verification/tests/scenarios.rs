use std::collections::BTreeSet;
use std::collections::HashSet;

use objpool::IdGen;
use objpool::Pool;
use objpool::Ptr;

#[test]
fn scenario_block_capacity_256() {
    let mut ids = IdGen::new();
    let mut pool = Pool::with_block_size(&mut ids, 256);
    let mut ptrs = Vec::new();
    for i in 0..1024 {
        ptrs.push(pool.allocate(i));
    }
    assert_eq!(pool.num_blocks(), 4);
    assert_eq!(10, *pool.get(ptrs[10]).unwrap().get());
    assert_eq!(20, *pool.get(ptrs[20]).unwrap().get());
    assert_eq!(300, *pool.get(ptrs[300]).unwrap().get());
    assert!(pool.free(ptrs[30]));
    let h = pool.allocate(5000);
    assert_eq!(h, ptrs[30]);
    assert_eq!(pool.num_blocks(), 4);
    pool.allocate(5001);
    assert_eq!(pool.num_blocks(), 5);
}

#[test]
fn growth_is_lazy_and_exact() {
    let mut ids = IdGen::new();
    let mut pool = Pool::with_block_size(&mut ids, 4);
    assert_eq!(pool.num_blocks(), 0);
    for k in 0..3 {
        for i in 0..4 {
            pool.allocate(4 * k + i);
            assert_eq!(pool.num_blocks(), k + 1);
        }
    }
    assert_eq!(pool.num_blocks(), 3);
    pool.allocate(100);
    assert_eq!(pool.num_blocks(), 4);
}

#[test]
fn alloc_handles_distinct() {
    let mut ids = IdGen::new();
    let mut pool = Pool::with_block_size(&mut ids, 8);
    let mut seen = HashSet::new();
    let mut ptrs = Vec::new();
    for i in 0..50u32 {
        let h = pool.allocate(i);
        assert!(seen.insert(h));
        ptrs.push(h);
    }
    for (i, h) in ptrs.iter().enumerate() {
        assert_eq!(*pool.get(*h).unwrap().get(), i as u32);
    }
}

#[test]
fn mutation_round_trip() {
    let mut ids = IdGen::new();
    let mut pool = Pool::new(&mut ids);
    let h = pool.allocate(vec![1, 2]);
    pool.get_mut(h).unwrap().push(3);
    assert_eq!(pool.get(h).unwrap().get(), &vec![1, 2, 3]);
}

#[test]
fn double_free_reports_false() {
    let mut ids = IdGen::new();
    let mut pool = Pool::new(&mut ids);
    let h = pool.allocate(9i64);
    assert!(pool.free(h));
    assert!(!pool.free(h));
    assert!(pool.get(h).is_none());
    assert!(pool.get_mut(h).is_none());
}

#[test]
fn single_slot_blocks() {
    let mut ids = IdGen::new();
    let mut pool = Pool::with_block_size(&mut ids, 1);
    let a = pool.allocate(1u8);
    let b = pool.allocate(2u8);
    assert_eq!(pool.num_blocks(), 2);
    assert!(pool.free(a));
    let c = pool.allocate(3u8);
    assert_eq!(a, c);
    assert_eq!(pool.num_blocks(), 2);
    assert_eq!(*pool.get(c).unwrap().get(), 3);
    assert_eq!(*pool.get(b).unwrap().get(), 2);
}

#[test]
fn dangling_reports_no_value() {
    let mut ids = IdGen::new();
    let mut pool: Pool<u32> = Pool::new(&mut ids);
    let d = Ptr::dangling();
    assert!(pool.get(d).is_none());
    assert!(pool.get_mut(d).is_none());
    pool.allocate(7);
    assert!(pool.get(d).is_none());
}

#[test]
fn cross_pool_handles_differ() {
    let mut ids = IdGen::new();
    let mut p1 = Pool::new(&mut ids);
    let mut p2 = Pool::new(&mut ids);
    let a = p1.allocate(1u16);
    let b = p2.allocate(2u16);
    // same slot location in both pools, still never equal
    assert_ne!(a, b);
    assert_ne!(p1.id(), p2.id());
}

#[test]
fn handle_set_membership() {
    let mut ids = IdGen::new();
    let mut pool = Pool::new(&mut ids);
    let h1 = pool.allocate('a');
    let h2 = pool.allocate('b');
    let mut set = HashSet::new();
    assert!(set.insert(h1));
    assert!(!set.insert(h1));
    assert!(set.insert(h2));
    assert_eq!(set.len(), 2);
    let mut one = BTreeSet::new();
    one.insert(h2);
    one.insert(h1);
    let mut two = BTreeSet::new();
    two.insert(h1);
    two.insert(h2);
    assert_eq!(one, two);
    assert!(one.contains(&h1) && one.contains(&h2));
}

#[test]
fn ref_rebuilds_handle() {
    let mut ids = IdGen::new();
    let mut pool = Pool::new(&mut ids);
    let h = pool.allocate(String::from("abc"));
    let r = pool.get(h).unwrap();
    assert_eq!(r.get(), "abc");
    assert_eq!(r.handle(), h);
    let back = Ptr::from(r);
    assert_eq!(back, h);
}
