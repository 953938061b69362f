use std::collections::BTreeSet;
use std::collections::HashSet;

use objpool::IdGen;
use objpool::Pool;
use objpool::Ptr;

#[test]
fn simple_insert_and_remove() {
    let mut ids = IdGen::new();
    let mut pool = Pool::new(&mut ids);
    let ptr = pool.allocate(3.14);
    assert_eq!(*pool.get(ptr).unwrap().get(), 3.14);
    *pool.get_mut(ptr).unwrap() = 2.7;
    assert_eq!(*pool.get(ptr).unwrap().get(), 2.7);
    assert!(pool.free(ptr));
    assert!(pool.get(ptr).is_none());
}

#[test]
fn insert_many() {
    let mut ids = IdGen::new();
    let mut pool = Pool::new(&mut ids);
    let mut ptrs = Vec::new();
    for i in 0..4 * pool.block_size() {
        ptrs.push(pool.allocate(i));
    }
    assert_eq!(pool.num_blocks(), 4);
    assert_eq!(10, *pool.get(ptrs[10]).unwrap().get());
    assert_eq!(20, *pool.get(ptrs[20]).unwrap().get());
    assert_eq!(300, *pool.get(ptrs[300]).unwrap().get());
    assert!(pool.free(ptrs[30]));
    assert!(pool.get(ptrs[30]).is_none());
    let h = pool.allocate(1111);
    assert_eq!(h, ptrs[30]);
    assert_eq!(pool.num_blocks(), 4);
    pool.allocate(2222);
    assert_eq!(pool.num_blocks(), 5);
}

struct Node {
    next: Option<Ptr>,
    prev: Option<Ptr>,
}

#[test]
fn graph() {
    let mut ids = IdGen::new();
    let mut pool = Pool::new(&mut ids);
    let h1 = pool.allocate(Node { next: None, prev: None });
    let h2 = pool.allocate(Node { next: None, prev: None });
    assert_ne!(h1, h2);
    pool.get_mut(h1).unwrap().next = Some(h2);
    pool.get_mut(h2).unwrap().prev = Some(h1);

    let mut map = HashSet::new();
    map.insert(h1);
    map.insert(h2);

    let mut tree = BTreeSet::new();
    tree.insert(h1);
    tree.insert(h2);

    assert_eq!(pool.get(h1).unwrap().get().next, Some(h2));
    assert_eq!(pool.get(h2).unwrap().get().prev, Some(h1));
}
