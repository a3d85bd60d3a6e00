//! Scoring on a graphics card.

use vstd::prelude::*;

use crate::float_bits;
use crate::float_bits::total_order_key_32;
use crate::gpu::store::ClusterStoreError;
use crate::hits::Hit;

verus! {

/// An error of the graphics card.
#[derive(Debug)]
pub enum GpuError {
    /// The search library reported an error.
    Cuvs(String),
    /// The budget could not be found out.
    Budget(String),
    /// The memory in use could not be watched.
    Sampler(String),
    /// The driver reported an error.
    Driver(String),
    /// A cluster does not fit.
    BudgetTooSmall {
        /// Bytes that may be used.
        budget_bytes: u64,
        /// Bytes that the cluster takes.
        requested_bytes: u64,
    },
}

/// The error of the graphics card that stands for an error of the store.
pub open spec fn gpu_error_of(e: ClusterStoreError<String>) -> GpuError {
    match e {
        ClusterStoreError::Upload(message) => GpuError::Cuvs(message),
        ClusterStoreError::BudgetTooSmall { budget_bytes, requested_bytes } => {
            GpuError::BudgetTooSmall { budget_bytes, requested_bytes }
        },
        ClusterStoreError::Sync(message) => GpuError::Cuvs(message),
    }
}

/// Reports an error of the store as an error of the graphics card.
pub fn gpu_error(e: ClusterStoreError<String>) -> (r: GpuError)
    ensures
        r == gpu_error_of(e),
{
    match e {
        ClusterStoreError::Upload(message) => GpuError::Cuvs(message),
        ClusterStoreError::BudgetTooSmall { budget_bytes, requested_bytes } => {
            GpuError::BudgetTooSmall { budget_bytes, requested_bytes }
        },
        ClusterStoreError::Sync(message) => GpuError::Cuvs(message),
    }
}

/// How many rows of `n` to search for: `k` or all.
pub fn search_width(n: usize, k: usize) -> (r: usize)
    ensures
        r == (if k < n {
            k
        } else {
            n
        }),
{
    if k < n {
        k
    } else {
        n
    }
}

/// The rows that a device found, as hits. A row's number is that of its vector, and the device's
/// order is kept.
pub fn row_hits(rows: &[usize], distances: &[u32]) -> (r: Vec<Hit>)
    requires
        rows@.len() == distances@.len(),
    ensures
        r@ == Seq::new(
            rows@.len(),
            |i: int|
                Hit {
                    id: rows@[i] as u32,
                    score: (-1 - float_bits::total_order_32(distances@[i])) as i64,
                },
        ),
{
    let mut r: Vec<Hit> = Vec::with_capacity(rows.len());
    let ghost all = Seq::new(
        rows@.len(),
        |i: int|
            Hit {
                id: rows@[i] as u32,
                score: (-1 - float_bits::total_order_32(distances@[i])) as i64,
            },
    );
    for i in 0..rows.len()
        invariant
            rows@.len() == distances@.len(),
            all == Seq::new(
                rows@.len(),
                |i: int|
                    Hit {
                        id: rows@[i] as u32,
                        score: (-1 - float_bits::total_order_32(distances@[i])) as i64,
                    },
            ),
            r@ == all.take(i as int),
    {
        let key: i64 = total_order_key_32(distances[i]);
        r.push(Hit { id: rows[i] as u32, score: -1 - key });
        assert(r@ =~= all.take(i + 1));
    }
    assert(r@ =~= all);
    r
}

/// Nothing of an error of the store is lost when it is reported as one of the graphics card: its
/// message, or the bytes that may be used and those that were asked for.
pub proof fn errors_of_the_store_are_reported(
    message: String,
    budget_bytes: u64,
    requested_bytes: u64,
)
    ensures
        gpu_error_of(ClusterStoreError::Upload(message)) == GpuError::Cuvs(message),
        gpu_error_of(ClusterStoreError::Sync(message)) == GpuError::Cuvs(message),
        gpu_error_of(ClusterStoreError::BudgetTooSmall { budget_bytes, requested_bytes })
            == (GpuError::BudgetTooSmall { budget_bytes, requested_bytes }),
{
}

} // verus!
