use symbolic_store::symbol::{BTreeIdentityPool, IdentityRange, VecIdentityPool};

fn ranges(pool: &VecIdentityPool) -> Vec<(usize, usize)> {
    pool.get_ranges().iter().map(|r: &IdentityRange| (r.begin, r.length)).collect()
}

#[test]
fn remove_three_insert_middle() {
    let mut pool = VecIdentityPool::new();
    assert!(pool.remove(0));
    assert!(pool.remove(1));
    assert!(pool.remove(2));
    assert!(pool.insert(1));
    assert_eq!(ranges(&pool), vec![(1, 1), (3, 0)]);
    assert_eq!(pool.get(), 3);
}

#[test]
fn new_pool_is_full() {
    let mut pool = VecIdentityPool::new();
    assert!(pool.is_full());
    assert_eq!(pool.get(), 0);
    assert_eq!(ranges(&pool), vec![(0, 0)]);
    assert!(pool.remove(5));
    assert!(!pool.is_full());
    assert!(pool.insert(5));
    assert!(pool.is_full());
}

#[test]
fn remove_in_use_and_insert_free_fail() {
    let mut pool = VecIdentityPool::new();
    assert!(!pool.insert(0));
    assert!(pool.remove(4));
    assert!(!pool.remove(4));
    assert!(!pool.insert(7));
    assert!(pool.insert(4));
    assert!(!pool.remove(usize::MAX));
    assert!(!pool.insert(usize::MAX));
}

#[test]
fn remove_then_insert_restores_ranges() {
    let mut pool = VecIdentityPool::new();
    for id in [0usize, 1, 2, 3, 4, 5, 6, 7, 8, 9] {
        assert!(pool.remove(id));
    }
    assert!(pool.insert(3));
    assert!(pool.insert(4));
    assert!(pool.insert(7));
    let before = ranges(&pool);
    for id in [3usize, 4, 7, 12, 10] {
        assert!(pool.remove(id));
        assert!(pool.insert(id));
        assert_eq!(ranges(&pool), before);
    }
}

#[test]
fn ranges_merge_and_split() {
    let mut pool = VecIdentityPool::new();
    for id in 0..6usize {
        pool.remove(id);
    }
    pool.insert(1);
    pool.insert(3);
    assert_eq!(ranges(&pool), vec![(1, 1), (3, 1), (6, 0)]);
    pool.insert(2);
    assert_eq!(ranges(&pool), vec![(1, 3), (6, 0)]);
    pool.insert(5);
    assert_eq!(ranges(&pool), vec![(1, 3), (5, 0)]);
    pool.insert(4);
    assert_eq!(ranges(&pool), vec![(1, 0)]);
    pool.remove(2);
    assert_eq!(ranges(&pool), vec![(1, 1), (3, 0)]);
    for window in ranges(&pool).windows(2) {
        assert!(window[0].0 + window[0].1 < window[1].0);
    }
}

fn btree_ranges(pool: &BTreeIdentityPool) -> Vec<(usize, usize)> {
    pool.get_ranges().iter().map(|r: &IdentityRange| (r.begin, r.length)).collect()
}

#[test]
fn btree_pool_remove_three_insert_middle() {
    let mut pool = BTreeIdentityPool::new();
    assert!(pool.is_full());
    assert!(pool.remove(0));
    assert!(pool.remove(1));
    assert!(pool.remove(2));
    assert!(pool.insert(1));
    assert_eq!(btree_ranges(&pool), vec![(1, 1), (3, 0)]);
    assert_eq!(pool.get(), 3);
    assert!(!pool.is_full());
}

#[test]
fn btree_pool_matches_vector_pool() {
    let mut vector = VecIdentityPool::new();
    let mut tree = BTreeIdentityPool::new();
    let steps: [(bool, usize); 14] = [
        (false, 3), (false, 0), (false, 1), (false, 9), (true, 1), (false, 1), (true, 3),
        (true, 3), (false, 2), (true, 0), (false, 4), (true, 9), (false, 5), (true, 4),
    ];
    for (insert, id) in steps {
        let a = if insert { vector.insert(id) } else { vector.remove(id) };
        let b = if insert { tree.insert(id) } else { tree.remove(id) };
        assert_eq!(a, b);
        assert_eq!(ranges(&vector), btree_ranges(&tree));
        assert_eq!(vector.get(), tree.get());
    }
}
