//! Repeated computation of one checksum: in sequence for small counts,
//! spread over a pool of workers for large ones.

use rayon::iter::{IntoParallelIterator, ParallelIterator};
use vstd::prelude::*;
use crate::codec::DecodeError;
use crate::crc::{can_crc, lemma_crc_fits, REGISTER_MASK};
use crate::table::{calculate_can_crc_optimized, generate_crc_table, CrcTable};

verus! {

/// Largest iteration count that is accepted.
pub const MAX_ITERATIONS: u64 = 1_000_000_000;

/// Iteration count from which the work is spread over the pool.
pub const PARALLEL_THRESHOLD: u64 = 100_000;

/// Whether an iteration count is one that a batch may be run with.
pub open spec fn iterations_in_range(iterations: u64) -> bool {
    1 <= iterations <= MAX_ITERATIONS
}

/// Accepts an iteration count between 1 and `MAX_ITERATIONS`, and refuses
/// any other.
pub fn validate_iterations(iterations: u64) -> (result: Result<u64, DecodeError>)
    ensures
        iterations_in_range(iterations) ==> result == Ok::<u64, DecodeError>(iterations),
        !iterations_in_range(iterations) ==> result == Err::<u64, DecodeError>(
            DecodeError::IterationsOutOfRange,
        ),
{
    if 1 <= iterations && iterations <= MAX_ITERATIONS {
        Ok(iterations)
    } else {
        Err(DecodeError::IterationsOutOfRange)
    }
}

/// How many workers a batch is spread over: as many as the pool has
/// threads, but at least one, and no more than there are iterations.
pub open spec fn worker_count(iterations: u64, pool: usize) -> nat {
    if pool == 0 {
        1
    } else if pool <= iterations {
        pool as nat
    } else {
        iterations as nat
    }
}

/// The number of workers for a batch on a pool of the given size.
pub fn workers_for(iterations: u64, pool: usize) -> (workers: usize)
    ensures
        workers == worker_count(iterations, pool),
        iterations >= 1 ==> 1 <= workers <= iterations,
{
    if pool == 0 {
        1
    } else if pool as u64 <= iterations {
        pool
    } else {
        iterations as usize
    }
}

/// The number of iterations that every worker but the last is given.
pub open spec fn share(iterations: u64, workers: nat) -> nat {
    iterations as nat / workers
}

/// The first iteration of worker `index`.
pub open spec fn range_start(iterations: u64, workers: nat, index: nat) -> nat {
    index * share(iterations, workers)
}

/// The iteration after the last one of worker `index`: the last worker
/// takes what the equal shares leave over.
pub open spec fn range_end(iterations: u64, workers: nat, index: nat) -> nat {
    if index + 1 == workers {
        iterations as nat
    } else {
        (index + 1) * share(iterations, workers)
    }
}

/// The workers' ranges follow one another from 0 to `iterations`, and none
/// is empty.
pub proof fn lemma_ranges_partition(iterations: u64, workers: nat, index: nat)
    requires
        1 <= workers <= iterations,
        index < workers,
    ensures
        range_start(iterations, workers, 0) == 0,
        range_start(iterations, workers, index) < range_end(iterations, workers, index),
        range_end(iterations, workers, index) <= iterations,
        index + 1 < workers ==> range_end(iterations, workers, index) == range_start(
            iterations,
            workers,
            index + 1,
        ),
        index + 1 == workers ==> range_end(iterations, workers, index) == iterations,
{
    let s = share(iterations, workers);
    assert(s >= 1 && s * workers <= iterations) by (nonlinear_arith)
        requires
            1 <= workers <= iterations,
            s == iterations as nat / workers,
    ;
    assert(index * s < (index + 1) * s && (index + 1) * s <= workers * s) by (nonlinear_arith)
        requires
            s >= 1,
            index < workers,
    ;
    assert(workers * s == s * workers) by (nonlinear_arith);
}

/// What one worker of a batch computes: the checksum of `bits`, once for
/// each iteration of its range, of which it keeps the last.
pub fn worker_crc(
    bits: &[bool],
    table: &CrcTable,
    iterations: u64,
    workers: usize,
    index: usize,
) -> (crc: u16)
    requires
        1 <= workers <= iterations,
        index < workers,
    ensures
        crc == can_crc(bits@),
{
    proof {
        lemma_ranges_partition(iterations, workers as nat, index as nat);
    }
    let share = iterations / (workers as u64);
    let start = (index as u64) * share;
    let end = if index + 1 == workers {
        iterations
    } else {
        (index as u64 + 1) * share
    };
    let mut local: u16 = 0;
    let mut n = start;
    while n < end
        invariant
            start <= n <= end,
            start < n ==> local == can_crc(bits@),
        decreases end - n,
    {
        local = calculate_can_crc_optimized(bits, table);
        n += 1;
    }
    local
}

/// Calls `rayon::current_num_threads`: the number of threads in rayon's
/// pool. Nothing is claimed of the number.
#[verifier::external_body]
fn pool_size() -> usize {
    rayon::current_num_threads()
}

/// Runs `worker_crc` for every index below `workers` on rayon's pool, with
/// `into_par_iter`, `map` and `collect` of rayon's parallel iterators.
/// The contract claims that the vector holds, at each index, what
/// `worker_crc` returns for that index.
#[verifier::external_body]
fn run_workers(bits: &[bool], table: &CrcTable, iterations: u64, workers: usize) -> (results: Vec<
    u16,
>)
    requires
        1 <= workers <= iterations,
    ensures
        results@.len() == workers,
        forall|index: int| 0 <= index < workers ==> results@[index] == can_crc(bits@),
{
    (0..workers).into_par_iter().map(
        |index| worker_crc(bits, table, iterations, workers, index),
    ).collect()
}

/// Computes the checksum of `bits` `iterations` times and returns the last
/// value: once for a count of 1, in a loop below `PARALLEL_THRESHOLD`, and
/// from there on spread over the pool, each worker on its own range.
/// For every count of at least 1 the value is the checksum of `bits`; for
/// a count of 0 nothing is computed and the value is 0.
pub fn compute_batch_crcs_optimized(bits: &[bool], iterations: u64) -> (crc: u16)
    ensures
        iterations >= 1 ==> crc == can_crc(bits@),
        iterations == 0 ==> crc == 0,
        crc <= REGISTER_MASK,
{
    proof {
        lemma_crc_fits(bits@);
    }
    let table = generate_crc_table();
    if iterations == 1 {
        return calculate_can_crc_optimized(bits, &table);
    }
    if iterations >= PARALLEL_THRESHOLD {
        let workers = workers_for(iterations, pool_size());
        let results = run_workers(bits, &table, iterations, workers);
        results[0]
    } else {
        let mut crc: u16 = 0;
        let mut n: u64 = 0;
        while n < iterations
            invariant
                n <= iterations,
                n == 0 ==> crc == 0,
                n > 0 ==> crc == can_crc(bits@),
            decreases iterations - n,
        {
            crc = calculate_can_crc_optimized(bits, &table);
            n += 1;
        }
        crc
    }
}

} // verus!
