use std::sync::{Arc, Mutex};

use private_scoring::gpu::store::{
    global_stats, ClusterStoreError, ClusterStoreStats, DeviceCluster, Lookup, LruInner,
};

#[derive(Debug)]
struct FakeCluster {
    bytes: u64,
    id: usize,
    drops: Arc<Mutex<Vec<usize>>>,
}

impl DeviceCluster for FakeCluster {
    fn device_bytes(&self) -> u64 {
        self.bytes
    }
}

impl Drop for FakeCluster {
    fn drop(&mut self) {
        self.drops
            .lock()
            .expect("drop log mutex poisoned")
            .push(self.id);
    }
}

fn fake(bytes: u64, id: usize, drops: &Arc<Mutex<Vec<usize>>>) -> FakeCluster {
    FakeCluster {
        bytes,
        id,
        drops: Arc::clone(drops),
    }
}

fn insert_one(
    inner: &mut LruInner<FakeCluster>,
    id: usize,
    bytes: u64,
    drops: &Arc<Mutex<Vec<usize>>>,
) {
    inner
        .pre_evict_for::<std::io::Error>(bytes)
        .expect("pre-evict");
    let _arc = inner.insert(id, fake(bytes, id, drops));
}

#[test]
fn budget_too_small_surfaces_when_first_payload_overflows() {
    let mut inner = LruInner::<FakeCluster>::new(100);
    let res: Result<(), ClusterStoreError<std::io::Error>> = inner.pre_evict_for(200);
    match res {
        Err(ClusterStoreError::BudgetTooSmall {
            budget_bytes,
            requested_bytes,
        }) => {
            assert_eq!(budget_bytes, 100);
            assert_eq!(requested_bytes, 200);
        }
        other => panic!("expected BudgetTooSmall, got {other:?}"),
    }
}

#[test]
fn lru_evicts_oldest_then_inserts_new() {
    let mut inner = LruInner::<FakeCluster>::new(250);
    let drops = Arc::new(Mutex::new(Vec::new()));
    for id in 0..3 {
        insert_one(&mut inner, id, 100, &drops);
    }
    let dropped = drops.lock().unwrap().clone();
    assert_eq!(
        dropped,
        vec![0],
        "cluster 0 should evict first when 2's insert hits the budget"
    );
    assert_eq!(inner.resident_bytes(), 200);
}

#[test]
fn touch_returns_existing_payload_and_bumps_recency() {
    let mut inner = LruInner::<FakeCluster>::new(1_000);
    let drops = Arc::new(Mutex::new(Vec::new()));
    insert_one(&mut inner, 7, 100, &drops);
    let touched = inner.touch(7).expect("hit");
    let guard = touched.lock().expect("lock");
    assert_eq!(guard.id, 7);
}

#[test]
fn recency_bump_protects_recently_used_cluster() {
    let mut inner = LruInner::<FakeCluster>::new(250);
    let drops = Arc::new(Mutex::new(Vec::new()));
    insert_one(&mut inner, 0, 100, &drops);
    insert_one(&mut inner, 1, 100, &drops);
    inner.touch(0).expect("hit on 0");
    insert_one(&mut inner, 2, 100, &drops);
    let dropped = drops.lock().unwrap().clone();
    assert_eq!(
        dropped,
        vec![1],
        "cluster 1 should evict (cluster 0 was bumped)"
    );
}

#[test]
fn insert_returns_existing_on_race() {
    let mut inner = LruInner::<FakeCluster>::new(500);
    let drops = Arc::new(Mutex::new(Vec::new()));

    insert_one(&mut inner, 3, 100, &drops);
    let bytes_before = inner.resident_bytes();

    let _arc = inner.insert(3, fake(100, 99, &drops));

    assert_eq!(inner.resident_bytes(), bytes_before);
    let dropped = drops.lock().unwrap().clone();
    assert_eq!(
        dropped,
        vec![99],
        "second-payload (id=99) drops on race; resident_bytes unchanged"
    );
}

#[test]
fn pre_evict_only_evicts_enough_for_request() {
    let mut inner = LruInner::<FakeCluster>::new(250);
    let drops = Arc::new(Mutex::new(Vec::new()));
    insert_one(&mut inner, 0, 100, &drops);
    insert_one(&mut inner, 1, 100, &drops);

    inner
        .pre_evict_for::<std::io::Error>(100)
        .expect("pre-evict");
    assert_eq!(inner.resident_bytes(), 100);
    let dropped = drops.lock().unwrap().clone();
    assert_eq!(dropped, vec![0]);
}

#[test]
fn get_loads_once_and_counts() {
    let mut store = LruInner::<FakeCluster>::new(250);
    let drops = Arc::new(Mutex::new(Vec::new()));
    for id in [0usize, 1, 2, 1] {
        match store.begin_get::<std::io::Error>(id, 100).expect("room") {
            Lookup::Loaded(cell) => {
                assert_eq!(id, 1);
                assert_eq!(cell.clone().lock().id, 1);
            }
            Lookup::Missing { wait_first } => {
                // only the third cluster needs room to be made
                assert_eq!(wait_first, id == 2);
                let cell = store.finish_get(id, fake(100, id, &drops));
                assert_eq!(cell.lock().id, id);
            }
        }
    }
    assert_eq!(store.budget_bytes(), 250);
    assert_eq!(store.resident_bytes(), 200);
    assert_eq!(*drops.lock().unwrap(), vec![0]);
    let stats = store.take_stats();
    assert_eq!(
        stats,
        ClusterStoreStats {
            gets: 4,
            uploads: 3,
            evictions: 1,
            bytes_uploaded: 300,
        }
    );
    assert_eq!(store.take_stats(), ClusterStoreStats::default());
}

#[test]
fn a_cluster_that_was_loaded_in_the_meantime_is_kept() {
    let mut store = LruInner::<FakeCluster>::new(250);
    let drops = Arc::new(Mutex::new(Vec::new()));
    for _ in 0..2 {
        // both find the cluster missing before either has loaded it
        assert!(matches!(
            store.begin_get::<std::io::Error>(7, 100),
            Ok(Lookup::Missing { wait_first: false })
        ));
    }
    let won = store.finish_get(7, fake(100, 1, &drops));
    let lost = store.finish_get(7, fake(90, 2, &drops));
    assert_eq!(won.lock().id, 1);
    assert_eq!(lost.lock().id, 1);
    assert_eq!(*drops.lock().unwrap(), vec![2]);
    assert_eq!(store.resident_bytes(), 100);
    assert_eq!(
        store.take_stats(),
        ClusterStoreStats { gets: 2, uploads: 1, evictions: 0, bytes_uploaded: 100 }
    );
}

#[test]
fn what_is_inserted_is_found() {
    let mut store = LruInner::<FakeCluster>::new(1000);
    let drops = Arc::new(Mutex::new(Vec::new()));
    for id in [0usize, 7, 3] {
        let lock = store.insert(id, fake(100, 10 + id, &drops));
        assert_eq!(lock.lock().unwrap().id, 10 + id);
    }
    for id in [7usize, 0, 3] {
        assert_eq!(store.touch(id).expect("hit").lock().unwrap().id, 10 + id);
    }
}

#[test]
fn get_reports_a_cluster_that_cannot_fit() {
    let mut store = LruInner::<FakeCluster>::new(250);
    match store.begin_get::<std::io::Error>(5, 251) {
        Err(ClusterStoreError::BudgetTooSmall {
            budget_bytes,
            requested_bytes,
        }) => assert_eq!((budget_bytes, requested_bytes), (250, 251)),
        _ => panic!("expected BudgetTooSmall"),
    }
    assert_eq!(store.take_stats().gets, 1);
}

#[test]
fn a_poisoned_cluster_can_still_be_locked() {
    let mut store = LruInner::<FakeCluster>::new(250);
    let drops = Arc::new(Mutex::new(Vec::new()));
    let cell = store.finish_get(4, fake(10, 4, &drops));
    let poisoner = store.touch(4).expect("hit");
    let watched = Arc::clone(&poisoner);
    let pool = rayon::ThreadPoolBuilder::new()
        .num_threads(1)
        .panic_handler(|_| {})
        .build()
        .unwrap();
    pool.spawn(move || {
        let _guard = poisoner.lock().unwrap();
        panic!("poison the lock");
    });
    while !watched.is_poisoned() {
        std::hint::spin_loop();
    }
    assert_eq!(cell.lock().id, 4);
}

#[test]
fn stats_differences_stop_at_zero() {
    let base = ClusterStoreStats {
        gets: 5,
        uploads: 2,
        evictions: 9,
        bytes_uploaded: 100,
    };
    let later = ClusterStoreStats {
        gets: 8,
        uploads: 2,
        evictions: 4,
        bytes_uploaded: 250,
    };
    assert_eq!(
        later.delta(base),
        ClusterStoreStats {
            gets: 3,
            uploads: 0,
            evictions: 0,
            bytes_uploaded: 150,
        }
    );
    let mut sum = base;
    sum.absorb(later);
    assert_eq!(
        global_stats(&sum),
        ClusterStoreStats {
            gets: 13,
            uploads: 4,
            evictions: 13,
            bytes_uploaded: 350,
        }
    );
}
