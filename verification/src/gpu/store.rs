//! Clusters that are loaded on demand and dropped by age when a budget is used up.

use std::collections::{HashMap, VecDeque};
use std::sync::{Arc, LockResult, Mutex, MutexGuard, PoisonError};

use vstd::prelude::*;

use crate::math::sums;
use crate::math::wrapping;
use crate::math::wrapping::plus;

verus! {

/// Declares `std::sync::Mutex`.
#[verifier::external_type_specification]
#[verifier::external_body]
#[verifier::reject_recursive_types(T)]
pub struct ExMutex<T: ?Sized>(Mutex<T>);

/// Declares `std::sync::MutexGuard`.
#[verifier::external_type_specification]
#[verifier::external_body]
#[verifier::reject_recursive_types(T)]
pub struct ExMutexGuard<'a, T: ?Sized + 'a>(MutexGuard<'a, T>);

/// Declares `std::sync::PoisonError`.
#[verifier::external_type_specification]
#[verifier::external_body]
#[verifier::reject_recursive_types(T)]
pub struct ExPoisonError<T>(PoisonError<T>);

/// Puts a value behind a lock: `Mutex::new`. Nothing is believed of the lock.
pub assume_specification<T>[ Mutex::<T>::new ](t: T) -> (mutex: Mutex<T>);

/// Takes a lock: `Mutex::lock`. Nothing is believed of the guard, or of whether a holder of the
/// lock has panicked.
pub assume_specification<T: ?Sized>[ Mutex::<T>::lock ](mutex: &Mutex<T>) -> (r: LockResult<
    MutexGuard<'_, T>,
>);

/// Takes the guard out of the report that a holder of a lock has panicked:
/// `PoisonError::into_inner`. Nothing is believed of the guard.
pub assume_specification<T>[ PoisonError::<T>::into_inner ](e: PoisonError<T>) -> (r: T);

/// A cluster in the memory of a device.
pub trait DeviceCluster: Send + 'static {
    /// Bytes that the cluster takes on the device.
    fn device_bytes(&self) -> u64;
}

/// The lock is one that a payload was put behind.
pub open spec fn is_lock_of<C: DeviceCluster>(mutex: Mutex<C>, payload: C) -> bool {
    call_ensures(Mutex::<C>::new, (payload,), mutex)
}

/// The guard that taking a lock came to, which is given also where a holder of the lock has
/// panicked.
pub open spec fn is_guard_of<C: DeviceCluster>(
    guard: MutexGuard<'_, C>,
    mutex: &Mutex<C>,
    taken: LockResult<MutexGuard<'_, C>>,
) -> bool {
    &&& call_ensures(Mutex::<C>::lock, (mutex,), taken)
    &&& match taken {
        Ok(held) => guard == held,
        Err(e) => call_ensures(PoisonError::<MutexGuard<'_, C>>::into_inner, (e,), guard),
    }
}

/// A cluster that is loaded. It stays loaded for as long as someone holds it.
#[verifier::reject_recursive_types(C)]
pub struct LruCell<C: DeviceCluster> {
    inner: Arc<Mutex<C>>,
}

impl<C: DeviceCluster> LruCell<C> {
    /// The lock of the cluster.
    pub closed spec fn spec_inner(&self) -> Arc<Mutex<C>> {
        self.inner
    }

    /// Takes the lock of the cluster: the guard is the one that `Mutex::lock` gives for the
    /// cluster's own lock. A holder of the lock that has panicked does not stand in the way. A
    /// thread that holds the lock already does not get past this.
    pub fn lock(&self) -> (guard: MutexGuard<'_, C>)
        ensures
            exists|taken: LockResult<MutexGuard<'_, C>>| #[trigger]
                is_guard_of(guard, &*self.spec_inner(), taken),
    {
        let taken: LockResult<MutexGuard<'_, C>> = self.inner.lock();
        let ghost came_to = taken;
        let guard: MutexGuard<'_, C> = match taken {
            Ok(held) => held,
            Err(e) => e.into_inner(),
        };
        assert(is_guard_of(guard, &*self.spec_inner(), came_to));
        guard
    }
}

impl<C: DeviceCluster> Clone for LruCell<C> {
    fn clone(&self) -> (r: Self)
        ensures
            r == *self,
    {
        LruCell { inner: Arc::clone(&self.inner) }
    }
}

/// What happened to the clusters of stores.
#[derive(Debug, Clone, Copy, Default, PartialEq, Eq, Structural)]
pub struct ClusterStoreStats {
    /// Clusters that were asked for.
    pub gets: u64,
    /// Clusters that were loaded.
    pub uploads: u64,
    /// Clusters that were dropped.
    pub evictions: u64,
    /// Bytes that were loaded.
    pub bytes_uploaded: u64,
}

/// `a - b`, or zero if that is negative.
pub open spec fn minus(a: u64, b: u64) -> int {
    if a < b {
        0
    } else {
        a - b
    }
}

impl ClusterStoreStats {
    /// What happened since `base` was taken.
    pub fn delta(self, base: Self) -> (r: Self)
        ensures
            r.gets == minus(self.gets, base.gets),
            r.uploads == minus(self.uploads, base.uploads),
            r.evictions == minus(self.evictions, base.evictions),
            r.bytes_uploaded == minus(self.bytes_uploaded, base.bytes_uploaded),
    {
        ClusterStoreStats {
            gets: self.gets.saturating_sub(base.gets),
            uploads: self.uploads.saturating_sub(base.uploads),
            evictions: self.evictions.saturating_sub(base.evictions),
            bytes_uploaded: self.bytes_uploaded.saturating_sub(base.bytes_uploaded),
        }
    }

    /// Adds what happened in one store to what happened in all. Counts wrap at `2^64`.
    pub fn absorb(&mut self, other: Self)
        ensures
            final(self).gets == wrapping::wrap(old(self).gets + other.gets),
            final(self).uploads == wrapping::wrap(old(self).uploads + other.uploads),
            final(self).evictions == wrapping::wrap(old(self).evictions + other.evictions),
            final(self).bytes_uploaded == wrapping::wrap(
                old(self).bytes_uploaded + other.bytes_uploaded,
            ),
    {
        self.gets = plus(self.gets, other.gets);
        self.uploads = plus(self.uploads, other.uploads);
        self.evictions = plus(self.evictions, other.evictions);
        self.bytes_uploaded = plus(self.bytes_uploaded, other.bytes_uploaded);
    }
}

/// What is counted of a store.
pub enum StoreEvent {
    /// A cluster was asked for, for which others were dropped.
    Asked {
        /// How many were dropped.
        dropped: nat,
    },
    /// A cluster was loaded.
    Loaded {
        /// Bytes that it takes.
        bytes: nat,
    },
}

impl StoreEvent {
    /// How often a cluster was asked for.
    pub open spec fn gets(self) -> int {
        if self is Asked {
            1
        } else {
            0
        }
    }

    /// How many clusters were loaded.
    pub open spec fn uploads(self) -> int {
        if self is Loaded {
            1
        } else {
            0
        }
    }

    /// How many clusters were dropped.
    pub open spec fn evictions(self) -> int {
        match self {
            StoreEvent::Asked { dropped } => dropped as int,
            StoreEvent::Loaded { .. } => 0,
        }
    }

    /// How many bytes were loaded.
    pub open spec fn bytes_uploaded(self) -> int {
        match self {
            StoreEvent::Asked { .. } => 0,
            StoreEvent::Loaded { bytes } => bytes as int,
        }
    }
}

/// The counts after one more event. They wrap at `2^64`.
pub open spec fn counted(stats: ClusterStoreStats, event: StoreEvent) -> ClusterStoreStats {
    ClusterStoreStats {
        gets: wrapping::wrap(stats.gets + event.gets()),
        uploads: wrapping::wrap(stats.uploads + event.uploads()),
        evictions: wrapping::wrap(stats.evictions + event.evictions()),
        bytes_uploaded: wrapping::wrap(stats.bytes_uploaded + event.bytes_uploaded()),
    }
}

/// The counts after the first `n` of some events.
pub open spec fn counted_all(stats: ClusterStoreStats, events: Seq<StoreEvent>, n: int) -> ClusterStoreStats
    decreases n,
{
    if n <= 0 {
        stats
    } else {
        counted(counted_all(stats, events, n - 1), events[n - 1])
    }
}

/// What happened in all stores, as it is counted so far.
pub fn global_stats(counted: &ClusterStoreStats) -> (r: ClusterStoreStats)
    ensures
        r == *counted,
{
    *counted
}

/// Why a cluster could not be loaded.
#[derive(Debug)]
pub enum ClusterStoreError<E> {
    /// Loading failed.
    Upload(E),
    /// The cluster does not fit, even if all others are dropped.
    BudgetTooSmall {
        /// Bytes of the budget.
        budget_bytes: u64,
        /// Bytes that were asked for.
        requested_bytes: u64,
    },
    /// The device could not be waited for.
    Sync(String),
}

/// A cluster and the bytes that it takes.
#[verifier::reject_recursive_types(C)]
pub struct ClusterEntry<C: DeviceCluster> {
    /// The cluster.
    pub payload: Arc<Mutex<C>>,
    /// Bytes that the cluster takes.
    pub bytes: u64,
}

/// Loaded clusters in the order in which they were last used.
#[verifier::reject_recursive_types(C)]
pub struct LruInner<C: DeviceCluster> {
    entries: HashMap<usize, ClusterEntry<C>>,
    order: VecDeque<usize>,
    resident_bytes: u64,
    budget_bytes: u64,
    stats: ClusterStoreStats,
}

/// The bytes of the clusters of a list.
pub open spec fn total_bytes<C: DeviceCluster>(
    order: Seq<usize>,
    entries: Map<usize, ClusterEntry<C>>,
) -> int
    decreases order.len(),
{
    if order.len() == 0 {
        0
    } else {
        total_bytes(order.drop_first(), entries) + entries[order[0]].bytes
    }
}

/// How many of the longest unused clusters are dropped so that `requested` more bytes fit.
pub open spec fn drop_count<C: DeviceCluster>(
    order: Seq<usize>,
    entries: Map<usize, ClusterEntry<C>>,
    requested: u64,
    budget: u64,
) -> int
    decreases order.len(),
{
    if order.len() == 0 || total_bytes(order, entries) + requested <= budget {
        0
    } else {
        1 + drop_count(order.drop_first(), entries, requested, budget)
    }
}

/// Sums over lists of clusters that do not change are equal.
proof fn lemma_total_same<C: DeviceCluster>(
    order: Seq<usize>,
    a: Map<usize, ClusterEntry<C>>,
    b: Map<usize, ClusterEntry<C>>,
)
    requires
        forall|i: int| 0 <= i < order.len() ==> a[#[trigger] order[i]] == b[order[i]],
    ensures
        total_bytes(order, a) == total_bytes(order, b),
    decreases order.len(),
{
    if order.len() > 0 {
        assert(order[0] == order[0]);
        assert forall|i: int| 0 <= i < order.drop_first().len() implies a[
        #[trigger] order.drop_first()[i]] == b[order.drop_first()[i]] by {
            assert(order[i + 1] == order.drop_first()[i]);
        }
        lemma_total_same(order.drop_first(), a, b);
    }
}

/// A cluster more at the end adds its bytes.
proof fn lemma_total_push<C: DeviceCluster>(
    order: Seq<usize>,
    entries: Map<usize, ClusterEntry<C>>,
    id: usize,
)
    ensures
        total_bytes(order.push(id), entries) == total_bytes(order, entries) + entries[id].bytes,
        0 <= total_bytes(order, entries),
    decreases order.len(),
{
    if order.len() > 0 {
        assert(order.push(id).drop_first() =~= order.drop_first().push(id));
        lemma_total_push(order.drop_first(), entries, id);
    } else {
        assert(order.push(id).drop_first() =~= order);
    }
}

/// A cluster less takes its bytes off.
proof fn lemma_total_remove<C: DeviceCluster>(
    order: Seq<usize>,
    entries: Map<usize, ClusterEntry<C>>,
    pos: int,
)
    requires
        0 <= pos < order.len(),
    ensures
        total_bytes(order.remove(pos), entries) == total_bytes(order, entries)
            - entries[order[pos]].bytes,
        0 <= total_bytes(order.remove(pos), entries),
    decreases order.len(),
{
    if pos == 0 {
        assert(order.remove(0) =~= order.drop_first());
    } else {
        assert(order.remove(pos).drop_first() =~= order.drop_first().remove(pos - 1));
        lemma_total_remove(order.drop_first(), entries, pos - 1);
    }
    lemma_total_push(order.remove(pos), entries, 0);
}

impl<C: DeviceCluster> LruInner<C> {
    /// The loaded clusters.
    pub closed spec fn spec_entries(&self) -> Map<usize, ClusterEntry<C>> {
        self.entries@
    }

    /// The loaded clusters, the longest unused first.
    pub closed spec fn spec_order(&self) -> Seq<usize> {
        self.order@
    }

    /// Bytes that the loaded clusters take.
    pub closed spec fn spec_resident(&self) -> u64 {
        self.resident_bytes
    }

    /// Bytes that loaded clusters may take.
    pub closed spec fn spec_budget(&self) -> u64 {
        self.budget_bytes
    }

    /// What happened since it was last taken.
    pub closed spec fn spec_stats(&self) -> ClusterStoreStats {
        self.stats
    }

    /// Every loaded cluster has one place in the order, and the bytes of all are counted.
    pub open spec fn well_formed(&self) -> bool {
        &&& self.spec_order().no_duplicates()
        &&& forall|id: usize| #[trigger]
            self.spec_entries().contains_key(id) <==> self.spec_order().contains(id)
        &&& self.spec_resident() == total_bytes(self.spec_order(), self.spec_entries())
    }

    /// How many clusters are dropped when a cluster is asked for that takes at most `hint` bytes:
    /// none if it is loaded or never fits.
    pub open spec fn dropped_by(&self, id: usize, hint: u64) -> nat {
        if self.spec_entries().contains_key(id) || hint > self.spec_budget() {
            0
        } else {
            drop_count(
                self.spec_order(),
                self.spec_entries(),
                hint,
                self.spec_budget(),
            ) as nat
        }
    }

    /// A store that has loaded nothing.
    pub fn new(budget_bytes: u64) -> (store: Self)
        ensures
            store.well_formed(),
            store.spec_order() == Seq::<usize>::empty(),
            store.spec_entries() == Map::<usize, ClusterEntry<C>>::empty(),
            store.spec_resident() == 0,
            store.spec_budget() == budget_bytes,
            store.spec_stats() == (ClusterStoreStats {
                gets: 0,
                uploads: 0,
                evictions: 0,
                bytes_uploaded: 0,
            }),
    {
        broadcast use vstd::std_specs::hash::group_hash_axioms;

        LruInner {
            entries: HashMap::new(),
            order: VecDeque::new(),
            resident_bytes: 0,
            budget_bytes,
            stats: ClusterStoreStats { gets: 0, uploads: 0, evictions: 0, bytes_uploaded: 0 },
        }
    }

    /// Bytes that the loaded clusters take.
    pub fn resident_bytes(&self) -> (r: u64)
        ensures
            r == self.spec_resident(),
    {
        self.resident_bytes
    }

    /// Bytes that loaded clusters may take.
    pub fn budget_bytes(&self) -> (r: u64)
        ensures
            r == self.spec_budget(),
    {
        self.budget_bytes
    }

    /// Finds a cluster, and makes it the last used.
    pub fn touch(&mut self, cluster_id: usize) -> (r: Option<Arc<Mutex<C>>>)
        requires
            old(self).well_formed(),
        ensures
            final(self).well_formed(),
            final(self).spec_entries() == old(self).spec_entries(),
            final(self).spec_resident() == old(self).spec_resident(),
            final(self).spec_budget() == old(self).spec_budget(),
            final(self).spec_stats() == old(self).spec_stats(),
            r == (if old(self).spec_entries().contains_key(cluster_id) {
                Some(old(self).spec_entries()[cluster_id].payload)
            } else {
                None
            }),
            final(self).spec_order() == (if old(self).spec_entries().contains_key(cluster_id) {
                old(self).spec_order().remove_value(cluster_id).push(cluster_id)
            } else {
                old(self).spec_order()
            }),
    {
        broadcast use vstd::std_specs::hash::group_hash_axioms;

        let payload: Arc<Mutex<C>> = match self.entries.get(&cluster_id) {
            None => {
                return None;
            },
            Some(entry) => Arc::clone(&entry.payload),
        };
        let ghost order = self.order@;
        let mut pos: usize = 0;
        while pos < self.order.len() && self.order[pos] != cluster_id
            invariant
                self.order@ == order,
                pos <= order.len(),
                forall|i: int| 0 <= i < pos ==> order[i] != cluster_id,
            decreases order.len() - pos,
        {
            pos = pos + 1;
        }
        assert(order.contains(cluster_id));
        assert(pos < order.len());
        let _ = self.order.remove(pos);
        self.order.push_back(cluster_id);
        proof {
            assert(order.index_of_first(cluster_id) == Some(pos as int)) by {
                order.index_of_first_ensures(cluster_id);
            }
            let rest = order.remove(pos as int);
            assert(self.order@ =~= rest.push(cluster_id));
            lemma_total_remove(order, self.entries@, pos as int);
            lemma_total_push(rest, self.entries@, cluster_id);
            assert forall|id: usize| #[trigger]
                self.spec_entries().contains_key(id) <==> self.spec_order().contains(id) by {
                if order.contains(id) {
                    let i = choose|i: int| 0 <= i < order.len() && order[i] == id;
                    if i < pos {
                        assert(self.order@[i] == id);
                    } else if i > pos {
                        assert(self.order@[i - 1] == id);
                    } else {
                        assert(self.order@[rest.len() as int] == id);
                    }
                }
                if self.order@.contains(id) {
                    let i = choose|i: int| 0 <= i < self.order@.len() && self.order@[i] == id;
                    if i < pos {
                        assert(order[i] == id);
                    } else if i < rest.len() {
                        assert(order[i + 1] == id);
                    }
                }
            }
        }
        Some(payload)
    }

    /// Drops the longest unused clusters until `requested_bytes` more fit in the budget, and no
    /// more of them. Nothing is dropped if so many bytes never fit.
    pub fn pre_evict_for<E>(&mut self, requested_bytes: u64) -> (r: Result<(), ClusterStoreError<E>>)
        requires
            old(self).well_formed(),
        ensures
            final(self).well_formed(),
            final(self).spec_budget() == old(self).spec_budget(),
            requested_bytes > old(self).spec_budget() ==> r == Err::<(), ClusterStoreError<E>>(
                ClusterStoreError::BudgetTooSmall {
                    budget_bytes: old(self).spec_budget(),
                    requested_bytes,
                },
            ) && *final(self) == *old(self),
            requested_bytes <= old(self).spec_budget() ==> {
                let dropped = drop_count(
                    old(self).spec_order(),
                    old(self).spec_entries(),
                    requested_bytes,
                    old(self).spec_budget(),
                );
                &&& r is Ok
                &&& 0 <= dropped <= old(self).spec_order().len()
                &&& final(self).spec_order() == old(self).spec_order().skip(dropped)
                &&& forall|id: usize|
                    final(self).spec_order().contains(id)
                        ==> #[trigger] final(self).spec_entries()[id] == old(self).spec_entries()[id]
                &&& final(self).spec_resident() + requested_bytes <= final(self).spec_budget()
                &&& final(self).spec_stats() == (ClusterStoreStats {
                    evictions: wrapping::wrap(old(self).spec_stats().evictions + dropped),
                    ..old(self).spec_stats()
                })
            },
    {
        broadcast use vstd::std_specs::hash::group_hash_axioms;

        if requested_bytes > self.budget_bytes {
            return Err(
                ClusterStoreError::BudgetTooSmall {
                    budget_bytes: self.budget_bytes,
                    requested_bytes,
                },
            );
        }
        let ghost order = self.order@;
        let ghost entries = self.entries@;
        let ghost stats = self.stats;
        let ghost budget = self.budget_bytes;
        let ghost mut dropped: int = 0;
        assert(order.skip(0) =~= order);
        proof {
            wrapping::lemma_small(stats.evictions as int);
        }
        while self.resident_bytes as u128 + requested_bytes as u128 > self.budget_bytes as u128
            invariant
                self.well_formed(),
                requested_bytes <= budget,
                self.budget_bytes == budget,
                0 <= dropped <= order.len(),
                self.order@ == order.skip(dropped),
                forall|id: usize|
                    self.order@.contains(id) ==> #[trigger] self.entries@[id] == entries[id],
                drop_count(order, entries, requested_bytes, budget) == dropped + drop_count(
                    self.order@,
                    entries,
                    requested_bytes,
                    budget,
                ),
                self.stats == (ClusterStoreStats {
                    evictions: wrapping::wrap(stats.evictions + dropped),
                    ..stats
                }),
            decreases self.order@.len(),
        {
            broadcast use vstd::std_specs::hash::group_hash_axioms;

            let ghost before = *self;
            proof {
                lemma_total_same(self.order@, self.entries@, entries);
                if self.order@.len() == 0 {
                    assert(total_bytes(self.order@, self.entries@) == 0);
                }
                lemma_total_remove(self.order@, self.entries@, 0);
                lemma_total_push(self.order@.drop_first(), self.entries@, 0);
                assert(self.order@.remove(0) =~= self.order@.drop_first());
            }
            let evicted_id: usize = match self.order.pop_front() {
                None => {
                    return Err(
                        ClusterStoreError::BudgetTooSmall {
                            budget_bytes: self.budget_bytes,
                            requested_bytes,
                        },
                    );
                },
                Some(id) => id,
            };
            assert(before.order@[0] == evicted_id);
            assert(before.order@.contains(evicted_id));
            match self.entries.remove(&evicted_id) {
                None => {},
                Some(evicted) => {
                    self.resident_bytes = self.resident_bytes - evicted.bytes;
                    let evictions: u64 = plus(self.stats.evictions, 1);
                    self.stats = ClusterStoreStats {
                        gets: self.stats.gets,
                        uploads: self.stats.uploads,
                        evictions,
                        bytes_uploaded: self.stats.bytes_uploaded,
                    };
                },
            }
            proof {
                let rest = before.order@.drop_first();
                assert(self.order@ =~= rest);
                assert(rest =~= order.skip(dropped + 1));
                assert forall|id: usize| rest.contains(id) implies id != evicted_id by {
                    let i = choose|i: int| 0 <= i < rest.len() && rest[i] == id;
                    assert(before.order@[i + 1] == id);
                }
                assert forall|id: usize| #[trigger]
                    self.spec_entries().contains_key(id) <==> self.spec_order().contains(id) by {
                    if before.order@.contains(id) && id != evicted_id {
                        let i = choose|i: int|
                            0 <= i < before.order@.len() && before.order@[i] == id;
                        assert(rest[i - 1] == id);
                    }
                    if rest.contains(id) {
                        let i = choose|i: int| 0 <= i < rest.len() && rest[i] == id;
                        assert(before.order@[i + 1] == id);
                    }
                }
                assert forall|id: usize| self.order@.contains(id) implies
                    #[trigger] self.entries@[id] == entries[id] by {
                    let i = choose|i: int| 0 <= i < rest.len() && rest[i] == id;
                    assert(before.order@[i + 1] == id);
                    assert(before.entries@[id] == entries[id]);
                }
                assert forall|i: int| 0 <= i < rest.len() implies self.entries@[
                #[trigger] rest[i]] == before.entries@[rest[i]] by {
                    assert(rest.contains(rest[i]));
                }
                lemma_total_same(rest, self.entries@, before.entries@);
                wrapping::lemma_wrap_more(stats.evictions + dropped, 1);
                dropped = dropped + 1;
            }
        }
        proof {
            lemma_total_same(self.order@, self.entries@, entries);
        }
        Ok(())
    }

    /// Adds a cluster as the last used, behind a lock of its own, which is given. If it is there
    /// already, that one is kept and given.
    pub fn insert(&mut self, cluster_id: usize, payload: C) -> (r: Arc<Mutex<C>>)
        requires
            old(self).well_formed(),
            !old(self).spec_entries().contains_key(cluster_id) ==> forall|bytes: u64|
                call_ensures(C::device_bytes, (&payload,), bytes) ==> old(self).spec_resident()
                    + bytes <= u64::MAX,
        ensures
            final(self).well_formed(),
            final(self).spec_budget() == old(self).spec_budget(),
            final(self).spec_stats() == old(self).spec_stats(),
            old(self).spec_entries().contains_key(cluster_id) ==> *final(self) == *old(self) && r
                == old(self).spec_entries()[cluster_id].payload,
            !old(self).spec_entries().contains_key(cluster_id) ==> {
                let entry = final(self).spec_entries()[cluster_id];
                &&& entry.payload == r
                &&& is_lock_of(*r, payload)
                &&& call_ensures(C::device_bytes, (&payload,), entry.bytes)
                &&& final(self).spec_entries() == old(self).spec_entries().insert(
                    cluster_id,
                    entry,
                )
                &&& final(self).spec_order() == old(self).spec_order().push(cluster_id)
                &&& final(self).spec_resident() == old(self).spec_resident() + entry.bytes
            },
    {
        broadcast use vstd::std_specs::hash::group_hash_axioms;

        match self.entries.get(&cluster_id) {
            Some(entry) => {
                return Arc::clone(&entry.payload);
            },
            None => {},
        }
        let ghost order = self.order@;
        let ghost entries = self.entries@;
        let bytes: u64 = payload.device_bytes();
        let cell: Arc<Mutex<C>> = Arc::new(Mutex::new(payload));
        let entry: ClusterEntry<C> = ClusterEntry { payload: Arc::clone(&cell), bytes };
        self.entries.insert(cluster_id, entry);
        self.order.push_back(cluster_id);
        self.resident_bytes = self.resident_bytes + bytes;
        proof {
            assert(self.order@ =~= order.push(cluster_id));
            assert forall|i: int| 0 <= i < order.len() implies self.entries@[#[trigger] order[i]]
                == entries[order[i]] by {
                assert(order.contains(order[i]));
            }
            lemma_total_same(order, self.entries@, entries);
            lemma_total_push(order, self.entries@, cluster_id);
            assert forall|id: usize| #[trigger]
                self.spec_entries().contains_key(id) <==> self.spec_order().contains(id) by {
                if order.contains(id) {
                    let i = choose|i: int| 0 <= i < order.len() && order[i] == id;
                    assert(self.order@[i] == id);
                }
                if id == cluster_id {
                    assert(self.order@[order.len() as int] == id);
                }
                if self.order@.contains(id) && id != cluster_id {
                    let i = choose|i: int| 0 <= i < self.order@.len() && self.order@[i] == id;
                    assert(order[i] == id);
                }
            }
        }
        cell
    }
}

/// What is to be done for a cluster that was asked for.
#[verifier::reject_recursive_types(C)]
pub enum Lookup<C: DeviceCluster> {
    /// Nothing: it is loaded.
    Loaded(LruCell<C>),
    /// It is to be loaded, for which there is room now.
    Missing {
        /// The device must be waited for first, since memory was given back.
        wait_first: bool,
    },
}

impl<C: DeviceCluster> LruInner<C> {
    /// Asks for a cluster that takes at most `payload_bytes_hint` bytes: finds it, or makes room.
    pub fn begin_get<E>(&mut self, cluster_id: usize, payload_bytes_hint: u64) -> (r: Result<
        Lookup<C>,
        ClusterStoreError<E>,
    >)
        requires
            old(self).well_formed(),
        ensures
            final(self).well_formed(),
            final(self).spec_budget() == old(self).spec_budget(),
            final(self).spec_stats() == counted(
                old(self).spec_stats(),
                StoreEvent::Asked { dropped: old(self).dropped_by(cluster_id, payload_bytes_hint) },
            ),
            ({
                let loaded = old(self).spec_entries().contains_key(cluster_id);
                let fits = payload_bytes_hint <= old(self).spec_budget();
                let dropped = drop_count(
                    old(self).spec_order(),
                    old(self).spec_entries(),
                    payload_bytes_hint,
                    old(self).spec_budget(),
                );
                &&& loaded ==> {
                    &&& r is Ok
                    &&& r->Ok_0 is Loaded
                    &&& r->Ok_0->Loaded_0.spec_inner()
                        == old(self).spec_entries()[cluster_id].payload
                    &&& final(self).spec_entries() == old(self).spec_entries()
                    &&& final(self).spec_resident() == old(self).spec_resident()
                    &&& final(self).spec_order() == old(self).spec_order().remove_value(
                        cluster_id,
                    ).push(cluster_id)
                }
                &&& !loaded && !fits ==> {
                    &&& r == Err::<Lookup<C>, ClusterStoreError<E>>(
                        ClusterStoreError::BudgetTooSmall {
                            budget_bytes: old(self).spec_budget(),
                            requested_bytes: payload_bytes_hint,
                        },
                    )
                    &&& final(self).spec_entries() == old(self).spec_entries()
                    &&& final(self).spec_order() == old(self).spec_order()
                }
                &&& !loaded && fits ==> {
                    &&& r is Ok
                    &&& r->Ok_0 is Missing
                    &&& r->Ok_0->wait_first == (final(self).spec_resident() < old(self).spec_resident())
                    &&& final(self).spec_order() == old(self).spec_order().skip(dropped)
                    &&& forall|id: usize|
                        final(self).spec_order().contains(id)
                            ==> #[trigger] final(self).spec_entries()[id]
                            == old(self).spec_entries()[id]
                    &&& final(self).spec_resident() + payload_bytes_hint <= final(self).spec_budget()
                }
            }),
    {
        let gets: u64 = plus(self.stats.gets, 1);
        self.stats = ClusterStoreStats {
            gets,
            uploads: self.stats.uploads,
            evictions: self.stats.evictions,
            bytes_uploaded: self.stats.bytes_uploaded,
        };
        match self.touch(cluster_id) {
            Some(payload) => {
                return Ok(Lookup::Loaded(LruCell { inner: payload }));
            },
            None => {},
        }
        let before: u64 = self.resident_bytes;
        let made: Result<(), ClusterStoreError<E>> = self.pre_evict_for(payload_bytes_hint);
        match made {
            Ok(()) => Ok(Lookup::Missing { wait_first: self.resident_bytes < before }),
            Err(e) => Err(e),
        }
    }

    /// Adds a cluster that was loaded. If it was added in the meantime, that one is kept and given,
    /// and nothing is counted.
    pub fn finish_get(&mut self, cluster_id: usize, payload: C) -> (r: LruCell<C>)
        requires
            old(self).well_formed(),
            !old(self).spec_entries().contains_key(cluster_id) ==> forall|bytes: u64|
                call_ensures(C::device_bytes, (&payload,), bytes) ==> old(self).spec_resident()
                    + bytes <= u64::MAX,
        ensures
            final(self).well_formed(),
            final(self).spec_budget() == old(self).spec_budget(),
            final(self).spec_entries().contains_key(cluster_id),
            r.spec_inner() == final(self).spec_entries()[cluster_id].payload,
            old(self).spec_entries().contains_key(cluster_id) ==> *final(self) == *old(self),
            !old(self).spec_entries().contains_key(cluster_id) ==> {
                let entry = final(self).spec_entries()[cluster_id];
                &&& is_lock_of(*r.spec_inner(), payload)
                &&& call_ensures(C::device_bytes, (&payload,), entry.bytes)
                &&& final(self).spec_entries() == old(self).spec_entries().insert(
                    cluster_id,
                    entry,
                )
                &&& final(self).spec_order() == old(self).spec_order().push(cluster_id)
                &&& final(self).spec_resident() == old(self).spec_resident() + entry.bytes
                &&& final(self).spec_stats() == counted(
                    old(self).spec_stats(),
                    StoreEvent::Loaded { bytes: entry.bytes as nat },
                )
            },
    {
        broadcast use vstd::std_specs::hash::group_hash_axioms;

        if self.entries.contains_key(&cluster_id) {
            let kept: Arc<Mutex<C>> = self.insert(cluster_id, payload);
            return LruCell { inner: kept };
        }
        let before: u64 = self.resident_bytes;
        let cell: Arc<Mutex<C>> = self.insert(cluster_id, payload);
        let loaded: u64 = self.resident_bytes - before;
        let uploads: u64 = plus(self.stats.uploads, 1);
        let bytes_uploaded: u64 = plus(self.stats.bytes_uploaded, loaded);
        self.stats = ClusterStoreStats {
            gets: self.stats.gets,
            uploads,
            evictions: self.stats.evictions,
            bytes_uploaded,
        };
        LruCell { inner: cell }
    }

    /// Takes what happened since it was last taken.
    pub fn take_stats(&mut self) -> (r: ClusterStoreStats)
        requires
            old(self).well_formed(),
        ensures
            final(self).well_formed(),
            r == old(self).spec_stats(),
            final(self).spec_stats() == (ClusterStoreStats {
                gets: 0,
                uploads: 0,
                evictions: 0,
                bytes_uploaded: 0,
            }),
            final(self).spec_entries() == old(self).spec_entries(),
            final(self).spec_order() == old(self).spec_order(),
            final(self).spec_resident() == old(self).spec_resident(),
            final(self).spec_budget() == old(self).spec_budget(),
    {
        let r: ClusterStoreStats = self.stats;
        self.stats = ClusterStoreStats { gets: 0, uploads: 0, evictions: 0, bytes_uploaded: 0 };
        r
    }
}

/// After a run of events the counts are the sums of what was asked for, loaded and dropped in it,
/// and of the bytes that were loaded, modulo `2^64`.
pub proof fn counts_are_sums(stats: ClusterStoreStats, events: Seq<StoreEvent>, n: int)
    requires
        0 <= n <= events.len(),
    ensures
        ({
            let after = counted_all(stats, events, n);
            &&& after.gets == wrapping::wrap(
                stats.gets + sums::sum(n, |i: int| events[i].gets()),
            )
            &&& after.uploads == wrapping::wrap(
                stats.uploads + sums::sum(n, |i: int| events[i].uploads()),
            )
            &&& after.evictions == wrapping::wrap(
                stats.evictions + sums::sum(n, |i: int| events[i].evictions()),
            )
            &&& after.bytes_uploaded == wrapping::wrap(
                stats.bytes_uploaded + sums::sum(n, |i: int| events[i].bytes_uploaded()),
            )
        }),
    decreases n,
{
    let gets = |i: int| events[i].gets();
    let uploads = |i: int| events[i].uploads();
    let evictions = |i: int| events[i].evictions();
    let bytes_uploaded = |i: int| events[i].bytes_uploaded();
    if n == 0 {
        wrapping::lemma_small(stats.gets as int);
        wrapping::lemma_small(stats.uploads as int);
        wrapping::lemma_small(stats.evictions as int);
        wrapping::lemma_small(stats.bytes_uploaded as int);
    } else {
        counts_are_sums(stats, events, n - 1);
        wrapping::lemma_wrap_more(stats.gets + sums::sum(n - 1, gets), gets(n - 1));
        wrapping::lemma_wrap_more(stats.uploads + sums::sum(n - 1, uploads), uploads(n - 1));
        wrapping::lemma_wrap_more(stats.evictions + sums::sum(n - 1, evictions), evictions(n - 1));
        wrapping::lemma_wrap_more(
            stats.bytes_uploaded + sums::sum(n - 1, bytes_uploaded),
            bytes_uploaded(n - 1),
        );
    }
}

/// No more clusters are dropped than must be: what is left fits, and with one cluster more it would
/// not.
pub proof fn dropping_is_minimal<C: DeviceCluster>(
    order: Seq<usize>,
    entries: Map<usize, ClusterEntry<C>>,
    requested: u64,
    budget: u64,
)
    requires
        requested <= budget,
    ensures
        ({
            let dropped = drop_count(order, entries, requested, budget);
            &&& 0 <= dropped <= order.len()
            &&& total_bytes(order.skip(dropped), entries) + requested <= budget
            &&& dropped > 0 ==> total_bytes(order.skip(dropped - 1), entries) + requested > budget
        }),
    decreases order.len(),
{
    assert(order.skip(0) =~= order);
    if order.len() > 0 && total_bytes(order, entries) + requested > budget {
        let rest = order.drop_first();
        dropping_is_minimal(rest, entries, requested, budget);
        let dropped = drop_count(rest, entries, requested, budget);
        assert(order.skip(dropped + 1) =~= rest.skip(dropped));
        if dropped > 0 {
            assert(order.skip(dropped) =~= rest.skip(dropped - 1));
        }
    }
}

/// The cluster that was used last is dropped only if all others are.
pub proof fn last_used_is_dropped_last(order: Seq<usize>, id: usize, dropped: int)
    requires
        0 <= dropped <= order.remove_value(id).len(),
    ensures
        order.remove_value(id).push(id).skip(dropped).contains(id),
{
    let touched = order.remove_value(id).push(id);
    let left = touched.skip(dropped);
    assert(left[left.len() - 1] == id);
}

/// The bytes of a list of clusters are the sum of the bytes of every one of them.
pub proof fn bytes_of_every_cluster_are_counted<C: DeviceCluster>(
    order: Seq<usize>,
    entries: Map<usize, ClusterEntry<C>>,
)
    ensures
        total_bytes(order, entries) == sums::sum(
            order.len() as int,
            |i: int| entries[order[i]].bytes as int,
        ),
    decreases order.len(),
{
    if order.len() > 0 {
        let rest = order.drop_first();
        bytes_of_every_cluster_are_counted(rest, entries);
        let term = |i: int| entries[order[i]].bytes as int;
        let rest_term = |i: int| entries[rest[i]].bytes as int;
        sums::lemma_sum_cut(1, rest.len() as int, term);
        assert forall|i: int| 0 <= i < rest.len() implies #[trigger] rest_term(i) == term(1 + i) by {
            assert(rest[i] == order[1 + i]);
        }
        sums::lemma_sum_same(rest.len() as int, rest_term, |i: int| term(1 + i));
        assert(sums::sum(1, term) == term(0)) by {
            assert(sums::sum(0, term) == 0);
        }
    }
}

/// Asking for a cluster counts once, with the clusters that were dropped for it; loading one counts
/// once, with its bytes. Nothing else is counted.
pub proof fn events_count_once(stats: ClusterStoreStats, dropped: nat, bytes: nat)
    requires
        stats.gets < u64::MAX,
        stats.uploads < u64::MAX,
        stats.evictions + dropped <= u64::MAX,
        stats.bytes_uploaded + bytes <= u64::MAX,
    ensures
        counted(stats, StoreEvent::Asked { dropped }) == (ClusterStoreStats {
            gets: (stats.gets + 1) as u64,
            uploads: stats.uploads,
            evictions: (stats.evictions + dropped) as u64,
            bytes_uploaded: stats.bytes_uploaded,
        }),
        counted(stats, StoreEvent::Loaded { bytes }) == (ClusterStoreStats {
            gets: stats.gets,
            uploads: (stats.uploads + 1) as u64,
            evictions: stats.evictions,
            bytes_uploaded: (stats.bytes_uploaded + bytes) as u64,
        }),
{
    wrapping::lemma_small(stats.gets as int);
    wrapping::lemma_small(stats.gets + 1);
    wrapping::lemma_small(stats.uploads as int);
    wrapping::lemma_small(stats.uploads + 1);
    wrapping::lemma_small(stats.evictions as int);
    wrapping::lemma_small(stats.evictions + dropped);
    wrapping::lemma_small(stats.bytes_uploaded as int);
    wrapping::lemma_small(stats.bytes_uploaded + bytes);
}

/// What is left of a count since an earlier one makes it up again; of a later one nothing is left.
pub proof fn differences_make_up_the_count(a: u64, b: u64)
    ensures
        b <= a ==> b + minus(a, b) == a,
        a <= b ==> minus(a, b) == 0,
{
}

/// Room is made for a cluster that is not loaded and can fit: the longest unused clusters go, as few
/// as leave room in the budget beside what stays. A loaded cluster, or one that can never fit, has
/// none dropped for it.
pub proof fn as_few_are_dropped_as_leave_room<C: DeviceCluster>(
    store: LruInner<C>,
    id: usize,
    hint: u64,
    fewer: nat,
)
    ensures
        ({
            let order = store.spec_order();
            let bytes = |i: int| store.spec_entries()[order[i]].bytes as int;
            let all = sums::sum(order.len() as int, bytes);
            let dropped = store.dropped_by(id, hint);
            let needed = !store.spec_entries().contains_key(id) && hint <= store.spec_budget();
            &&& !needed ==> dropped == 0
            &&& needed ==> dropped <= order.len() && all - sums::sum(dropped as int, bytes) + hint
                <= store.spec_budget()
            &&& needed && fewer < dropped ==> all - sums::sum(fewer as int, bytes) + hint
                > store.spec_budget()
        }),
{
    let order = store.spec_order();
    let entries = store.spec_entries();
    let bytes = |i: int| entries[order[i]].bytes as int;
    let dropped = store.dropped_by(id, hint);
    if !entries.contains_key(id) && hint <= store.spec_budget() {
        dropping_is_minimal(order, entries, hint, store.spec_budget());
        lemma_bytes_after(order, entries, dropped as int);
        if fewer < dropped {
            lemma_bytes_after(order, entries, dropped - 1);
            lemma_bytes_after(order, entries, fewer as int);
            let between = |i: int| bytes(fewer + i);
            sums::lemma_sum_cut(fewer as int, dropped - 1 - fewer, bytes);
            sums::lemma_sum_bounds(dropped - 1 - fewer, 0, u64::MAX as int, between);
            sums::lemma_sum_same(dropped - 1 - fewer, between, |i: int| bytes(fewer + i));
        }
    }
}

/// The bytes of what stays behind the first `n` clusters.
proof fn lemma_bytes_after<C: DeviceCluster>(
    order: Seq<usize>,
    entries: Map<usize, ClusterEntry<C>>,
    n: int,
)
    requires
        0 <= n <= order.len(),
    ensures
        total_bytes(order.skip(n), entries) == sums::sum(
            order.len() as int,
            |i: int| entries[order[i]].bytes as int,
        ) - sums::sum(n, |i: int| entries[order[i]].bytes as int),
{
    let bytes = |i: int| entries[order[i]].bytes as int;
    let rest = order.skip(n);
    let rest_bytes = |i: int| entries[rest[i]].bytes as int;
    bytes_of_every_cluster_are_counted(rest, entries);
    sums::lemma_sum_cut(n, rest.len() as int, bytes);
    assert forall|i: int| 0 <= i < rest.len() implies #[trigger] rest_bytes(i) == bytes(n + i) by {
        assert(rest[i] == order[n + i]);
    }
    sums::lemma_sum_same(rest.len() as int, rest_bytes, |i: int| bytes(n + i));
}

} // verus!
