use std::collections::HashSet;

use objpool::IdGen;
use objpool::PoolId;

#[test]
fn test() {
    let mut ids = IdGen::new();
    let mut set = HashSet::new();
    for _ in 0..100 {
        let id = PoolId::gen(&mut ids);
        assert!(id.0 > 0);
        assert!(set.insert(id));
    }
}

#[test]
fn ids_increase() {
    let mut ids = IdGen::new();
    let a = PoolId::gen(&mut ids);
    let b = PoolId::gen(&mut ids);
    let c = PoolId::gen(&mut ids);
    assert_eq!(a.0, 1);
    assert_eq!(b.0, 2);
    assert_eq!(c.0, 3);
    assert_ne!(a, b);
    assert_ne!(b, c);
}
