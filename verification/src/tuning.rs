//! How many chunks and worker threads the pooled downloader uses.
use vstd::prelude::*;

verus! {

/// The smallest chunk worth its own request: 10 MiB.
pub const MIN_CHUNK_SIZE: u64 = 10485760;

/// The largest number of chunks, and of downloads running at once.
pub const MAX_CONCURRENT_DOWNLOADS: usize = 32;

/// Calls `num_cpus::get`, the number of CPUs this process may use. Its
/// documentation promises at least 1; no upper bound is stated.
#[verifier::external_body]
pub(crate) fn cpu_count() -> (n: usize)
    ensures
        n >= 1,
{
    num_cpus::get()
}

/// The chunk count the file size asks for: one per 10 MiB, at least one.
pub open spec fn size_based_chunks(file_size: u64) -> usize {
    let q = file_size / MIN_CHUNK_SIZE;
    (if q >= 1 { q } else { 1u64 }) as usize
}

/// The chunk count for a file: the largest of the requested count, the count
/// the size asks for, and two per CPU, but never more than 32.
pub open spec fn optimal_chunks_for(file_size: u64, requested: usize, cores: usize) -> usize {
    let a = if requested >= size_based_chunks(file_size) {
        requested
    } else {
        size_based_chunks(file_size)
    };
    let b = if a >= cores * 2 {
        a
    } else {
        (cores * 2) as usize
    };
    if b <= MAX_CONCURRENT_DOWNLOADS {
        b
    } else {
        MAX_CONCURRENT_DOWNLOADS
    }
}

/// The chunk count for a file of `file_size` bytes on a machine with `cores` CPUs.
pub fn optimal_chunks(file_size: u64, requested: usize, cores: usize) -> (r: usize)
    requires
        cores * 2 <= usize::MAX,
    ensures
        r == optimal_chunks_for(file_size, requested, cores),
{
    let q = file_size / MIN_CHUNK_SIZE;
    let size_based = (if q >= 1 { q } else { 1 }) as usize;
    let core_based = cores * 2;
    let a = if requested >= size_based { requested } else { size_based };
    let b = if a >= core_based { a } else { core_based };
    if b <= MAX_CONCURRENT_DOWNLOADS { b } else { MAX_CONCURRENT_DOWNLOADS }
}

/// The chunk count for a file on this machine. `None` when the CPU count is so
/// large that twice it is no `usize`.
pub fn calculate_optimal_chunks(file_size: u64, requested: usize) -> (r: Option<usize>)
    ensures
        match r {
            Some(n) => exists|c: usize|
                c >= 1 && c * 2 <= usize::MAX && n == #[trigger] optimal_chunks_for(file_size, requested, c),
            None => exists|c: usize| c >= 1 && #[trigger] (c * 2) > usize::MAX,
        },
{
    let cores = cpu_count();
    if cores > usize::MAX / 2 {
        assert(cores * 2 > usize::MAX);
        return None;
    }
    let n = optimal_chunks(file_size, requested, cores);
    Some(n)
}

/// How many downloads run at once with `cores` CPUs: two per CPU, at most 32.
pub fn pool_size(cores: usize) -> (r: usize)
    requires
        cores * 2 <= usize::MAX,
    ensures
        r == (if cores * 2 <= MAX_CONCURRENT_DOWNLOADS { cores * 2 } else { MAX_CONCURRENT_DOWNLOADS as int }),
{
    let c = cores * 2;
    if c <= MAX_CONCURRENT_DOWNLOADS { c } else { MAX_CONCURRENT_DOWNLOADS }
}

/// How many downloads run at once on this machine. `None` when the CPU count is
/// so large that twice it is no `usize`.
pub fn download_pool_size() -> (r: Option<usize>)
    ensures
        match r {
            Some(n) => exists|c: usize|
                c >= 1 && c * 2 <= usize::MAX && n == (if #[trigger] (c * 2) <= MAX_CONCURRENT_DOWNLOADS { c * 2 } else { MAX_CONCURRENT_DOWNLOADS as int }),
            None => exists|c: usize| c >= 1 && #[trigger] (c * 2) > usize::MAX,
        },
{
    let cores = cpu_count();
    if cores > usize::MAX / 2 {
        assert(cores * 2 > usize::MAX);
        return None;
    }
    Some(pool_size(cores))
}

/// With at least one CPU, the chunk count lies between 2 and 32, and is at least
/// the requested count whenever that is at most 32.
pub proof fn law_optimal_chunks_bounds(file_size: u64, requested: usize, cores: usize)
    requires
        cores >= 1,
        cores * 2 <= usize::MAX,
    ensures
        2 <= optimal_chunks_for(file_size, requested, cores) <= MAX_CONCURRENT_DOWNLOADS,
        requested <= MAX_CONCURRENT_DOWNLOADS ==> requested <= optimal_chunks_for(file_size, requested, cores),
{
}

} // verus!
