//! Splitting a buffer into chunks for independent workers, and choosing how
//! many workers to use.
use vstd::prelude::*;

verus! {

/// The least buffer length that may be split among several workers.
pub const MIN_PARALLEL_LEN: usize = 1000;

/// How many workers per available CPU are used when the count is detected.
pub const WORKERS_PER_CPU: usize = 16;

/// Why a buffer could not be split among workers.
#[derive(Debug, PartialEq, Eq, Structural)]
pub enum ScanError {
    /// The buffer is shorter than the least length for a parallel scan.
    TooSmallForWorkers,
}

/// The start of chunk `i` when `n` bytes are split among `w` workers.
pub open spec fn chunk_start(n: int, w: int, i: int) -> int {
    i * (n / w)
}

/// The end of chunk `i`: where the next begins, or the buffer's end for the
/// last chunk, which also takes the remainder of the division.
pub open spec fn chunk_end(n: int, w: int, i: int) -> int {
    if i == w - 1 {
        n
    } else {
        (i + 1) * (n / w)
    }
}

/// The workers to use for a requested count of threads: the count itself
/// when positive, `WORKERS_PER_CPU` per available CPU (at most `usize::MAX`)
/// when zero, and none when negative.
pub open spec fn workers_for(threads: int, cpus: int) -> int {
    if threads > 0 {
        threads
    } else if threads == 0 {
        if cpus * WORKERS_PER_CPU <= usize::MAX {
            cpus * WORKERS_PER_CPU
        } else {
            usize::MAX as int
        }
    } else {
        0
    }
}

/// Splits `n` bytes among `workers` contiguous chunks, returned as
/// `(start, end)` pairs. Every chunk but the last has `n / workers` bytes,
/// and the last takes the remainder too; chunk edges do not follow strings or
/// characters, so a string across an edge is cut or lost. Buffers shorter
/// than `MIN_PARALLEL_LEN` are refused before any work.
pub fn plan_chunks(n: usize, workers: usize) -> (r: Result<Vec<(usize, usize)>, ScanError>)
    requires
        workers >= 1,
    ensures
        n < MIN_PARALLEL_LEN <==> r is Err,
        r is Err ==> r == Err::<Vec<(usize, usize)>, ScanError>(ScanError::TooSmallForWorkers),
        r matches Ok(v) ==> {
            &&& v@.len() == workers
            &&& forall|i: int|
                0 <= i < workers ==> (#[trigger] v@[i]).0 == chunk_start(n as int, workers as int, i)
                    && v@[i].1 == chunk_end(n as int, workers as int, i)
        },
{
    if n < MIN_PARALLEL_LEN {
        return Err(ScanError::TooSmallForWorkers);
    }
    let size: usize = n / workers;
    let mut chunks: Vec<(usize, usize)> = Vec::new();
    let mut i: usize = 0;
    while i < workers
        invariant
            i <= workers,
            workers >= 1,
            size == n / workers,
            chunks@.len() == i,
            forall|k: int|
                0 <= k < i ==> (#[trigger] chunks@[k]).0 == chunk_start(n as int, workers as int, k)
                    && chunks@[k].1 == chunk_end(n as int, workers as int, k),
        decreases workers - i,
    {
        proof {
            assert(size * workers <= n) by (nonlinear_arith)
                requires
                    size == n / workers,
                    workers >= 1,
            ;
            assert((i + 1) * size <= workers * size) by (nonlinear_arith)
                requires
                    i < workers,
            ;
            assert(i * size <= (i + 1) * size) by (nonlinear_arith);
        }
        let start: usize = i * size;
        let end: usize = if i == workers - 1 {
            n
        } else {
            (i + 1) * size
        };
        chunks.push((start, end));
        i = i + 1;
    }
    Ok(chunks)
}

/// How a buffer is to be scanned.
pub enum ScanPlan {
    /// No scan at all (a negative thread count was asked for).
    Idle,
    /// One pass over the whole buffer.
    Sequential,
    /// One independent scan per chunk, as `(start, end)` pairs.
    Parallel(Vec<(usize, usize)>),
}

/// Decides how a buffer of `n` bytes is scanned by `workers` workers: none
/// means no scan, one a sequential scan, and more a scan of the chunks that
/// [`plan_chunks`] gives, which refuses buffers that are too short.
pub fn plan_scan(n: usize, workers: usize) -> (r: Result<ScanPlan, ScanError>)
    ensures
        workers == 0 ==> r matches Ok(ScanPlan::Idle),
        workers == 1 ==> r matches Ok(ScanPlan::Sequential),
        workers >= 2 ==> (n < MIN_PARALLEL_LEN <==> r is Err),
        r is Err ==> r matches Err(ScanError::TooSmallForWorkers),
        workers >= 2 && r is Ok ==> (r matches Ok(ScanPlan::Parallel(v)) && v@.len() == workers
            && forall|i: int|
            0 <= i < workers ==> (#[trigger] v@[i]).0 == chunk_start(n as int, workers as int, i)
                && v@[i].1 == chunk_end(n as int, workers as int, i)),
{
    if workers == 0 {
        Ok(ScanPlan::Idle)
    } else if workers == 1 {
        Ok(ScanPlan::Sequential)
    } else {
        match plan_chunks(n, workers) {
            Ok(chunks) => Ok(ScanPlan::Parallel(chunks)),
            Err(e) => Err(e),
        }
    }
}

/// The number of workers for a requested count of threads, given the number
/// of CPUs available; see [`workers_for`].
pub fn worker_count(threads: i32, cpus: usize) -> (r: usize)
    ensures
        r == workers_for(threads as int, cpus as int),
{
    if threads > 0 {
        threads as usize
    } else if threads == 0 {
        cpus.checked_mul(WORKERS_PER_CPU).unwrap_or(usize::MAX)
    } else {
        0
    }
}

/// Relies on num_cpus::get: the number of CPUs this process may use, which
/// its documentation promises is at least 1.
#[verifier::external_body]
fn available_cpus() -> (r: usize)
    ensures
        r >= 1,
{
    num_cpus::get()
}

/// The number of workers for a requested count of threads on this machine;
/// a count of zero asks for `WORKERS_PER_CPU` per available CPU.
pub fn detect_workers(threads: i32) -> (r: usize)
    ensures
        threads > 0 ==> r == threads,
        threads == 0 ==> r >= WORKERS_PER_CPU,
        threads < 0 ==> r == 0,
{
    let cpus = if threads == 0 {
        available_cpus()
    } else {
        1
    };
    worker_count(threads, cpus)
}

} // verus!
