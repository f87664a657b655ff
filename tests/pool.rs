use std::cell::Cell;
use std::rc::Rc;

use object_pool::{Pool, PoolGuard};

#[test]
fn fresh_pool_is_empty() {
    let pool = Pool::new(i32::default);
    assert_eq!(pool.node_count(), 0);
    assert_eq!(pool.free_len(), 0);
    assert_eq!(pool.destroy(), 0);
}

#[test]
fn get_from_empty_pool_builds_one_value() {
    let built = Cell::new(0usize);
    let mut pool = Pool::new(|| {
        built.set(built.get() + 1);
        41u32
    });
    let g = pool.get();
    assert_eq!(built.get(), 1);
    assert_eq!(*g, 41);
    assert_eq!(g.node_id(), 0);
    assert_eq!(pool.node_count(), 1);
    assert_eq!(pool.free_len(), 0);
    pool.put(g);
}

#[test]
fn lazy_growth_builds_once_per_unmet_get() {
    let built = Cell::new(0usize);
    let mut pool = Pool::new(|| {
        built.set(built.get() + 1);
        0u8
    });
    let a = pool.get();
    let b = pool.get();
    let c = pool.get();
    assert_eq!(built.get(), 3);
    pool.put(b);
    let d = pool.get();
    assert_eq!(built.get(), 3);
    let e = pool.get();
    assert_eq!(built.get(), 4);
    assert_eq!(pool.node_count(), 4);
    pool.put(a);
    pool.put(c);
    pool.put(d);
    pool.put(e);
    assert_eq!(pool.free_len(), 4);
}

#[test]
fn release_then_get_reuses_the_same_value() {
    let built = Cell::new(0usize);
    let mut pool = Pool::new(|| {
        built.set(built.get() + 1);
        String::from("new")
    });
    let mut g = pool.get();
    let id = g.node_id();
    g.push_str(" and used");
    pool.put(g);
    let g = pool.get();
    assert_eq!(g.node_id(), id);
    assert_eq!(g.as_str(), "new and used");
    assert_eq!(built.get(), 1);
    pool.put(g);
}

#[test]
fn free_list_is_last_in_first_out() {
    let mut pool = Pool::new(|| 0i64);
    let mut a = pool.get();
    let mut b = pool.get();
    *a = 10;
    *b = 20;
    let (ia, ib) = (a.node_id(), b.node_id());
    assert_ne!(ia, ib);
    pool.put(a);
    pool.put(b);
    let first = pool.get();
    let second = pool.get();
    assert_eq!((first.node_id(), *first), (ib, 20));
    assert_eq!((second.node_id(), *second), (ia, 10));
    pool.put(first);
    pool.put(second);
}

#[test]
fn acquire_release_cycles_keep_the_free_list() {
    let mut pool = Pool::new(|| 0u32);
    let guards: Vec<PoolGuard<u32>> = (0..3).map(|_| pool.get()).collect();
    for g in guards {
        pool.put(g);
    }
    assert_eq!(pool.free_len(), 3);
    for round in 0..100u32 {
        let mut g = pool.get();
        *g = round;
        pool.put(g);
        assert_eq!(pool.free_len(), 3);
        assert_eq!(pool.node_count(), 3);
    }
    assert_eq!(pool.destroy(), 3);
}

#[test]
fn cycles_on_empty_pool_build_a_single_node() {
    let built = Cell::new(0usize);
    let mut pool = Pool::new(|| {
        built.set(built.get() + 1);
        0u32
    });
    for _ in 0..50 {
        let g = pool.get();
        pool.put(g);
    }
    assert_eq!(built.get(), 1);
    assert_eq!(pool.free_len(), 1);
    assert_eq!(pool.node_count(), 1);
}

#[test]
fn outstanding_guards_never_share_a_node() {
    // Each value is a marker: 1 while a guard holds it, 0 while it is free.
    let mut pool = Pool::new(|| 0u8);
    let mut out: Vec<PoolGuard<u8>> = Vec::new();
    for step in 0..400usize {
        if step % 3 == 2 && !out.is_empty() {
            let mut g = out.remove(step % out.len());
            assert_eq!(*g, 1);
            *g = 0;
            assert!(pool.holds(&g));
            pool.put(g);
        } else {
            let mut g = pool.get();
            assert_eq!(*g, 0);
            *g = 1;
            assert!(out.iter().all(|o| o.node_id() != g.node_id()));
            out.push(g);
        }
    }
    let n_out = out.len();
    assert_eq!(pool.free_len() + n_out, pool.node_count());
    for g in out {
        pool.put(g);
    }
    assert_eq!(pool.free_len(), pool.node_count());
}

#[test]
fn holds_rejects_a_guard_of_another_pool() {
    let mut first = Pool::new(|| 0u8);
    let mut second = Pool::new(|| 0u8);
    let a = first.get();
    assert!(first.holds(&a));
    assert!(!second.holds(&a));
    let b = second.get();
    let c = second.get();
    assert!(!first.holds(&c));
    second.put(b);
    second.put(c);
    first.put(a);
}

struct Counted {
    drops: Rc<Cell<usize>>,
}

impl Drop for Counted {
    fn drop(&mut self) {
        self.drops.set(self.drops.get() + 1);
    }
}

#[test]
fn teardown_drops_every_free_node_once() {
    let drops = Rc::new(Cell::new(0usize));
    let built = Cell::new(0usize);
    let mut pool = Pool::new(|| {
        built.set(built.get() + 1);
        Counted { drops: drops.clone() }
    });
    let guards: Vec<PoolGuard<Counted>> = (0..5).map(|_| pool.get()).collect();
    for g in guards {
        pool.put(g);
    }
    assert_eq!(drops.get(), 0);
    assert_eq!(pool.destroy(), 5);
    assert_eq!(built.get(), 5);
    assert_eq!(drops.get(), 5);
}

#[test]
fn teardown_skips_nodes_still_held() {
    let drops = Rc::new(Cell::new(0usize));
    let mut pool = Pool::new(|| Counted { drops: drops.clone() });
    let a = pool.get();
    let b = pool.get();
    let c = pool.get();
    pool.put(a);
    pool.put(c);
    assert_eq!(pool.destroy(), 2);
    assert_eq!(drops.get(), 2);
    drop(b);
    assert_eq!(drops.get(), 3);
}
