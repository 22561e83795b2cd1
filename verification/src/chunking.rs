//! How many items a worker takes at a time when work is shared out.
use vstd::prelude::*;

verus! {

/// `num_cpus::get` reports the number of logical processors that the
/// process may use. The number depends on the machine and on the moment, so
/// nothing is claimed of it.
pub assume_specification[ num_cpus::get ]() -> (n: usize)
;

/// The chunk size for `total` items shared among `threads` workers: an even
/// share, but all of the items at once where a share would be under 8, and
/// never more than 1000. Without a worker the items stay in one chunk.
pub open spec fn chunk_size(total: int, threads: int) -> int {
    if threads <= 0 || total / threads < 8 {
        total
    } else if total / threads > 1000 {
        1000
    } else {
        total / threads
    }
}

/// The chunk size for `total_items` items shared among `num_threads` workers.
pub fn chunk_size_for(total_items: usize, num_threads: usize) -> (size: usize)
    ensures
        size == chunk_size(total_items as int, num_threads as int),
{
    if num_threads == 0 {
        return total_items;
    }
    let base = total_items / num_threads;
    if base < 8 {
        total_items
    } else if base > 1000 {
        1000
    } else {
        base
    }
}

/// The chunk size for `total_items` items shared among as many workers as
/// the machine has processors.
pub fn calculate_chunk_size(total_items: usize) -> (size: usize)
    ensures
        exists|threads: int| 0 <= threads && size == chunk_size(total_items as int, threads),
{
    let threads = num_cpus::get();
    let size = chunk_size_for(total_items, threads);
    assert(0 <= threads as int && size == chunk_size(total_items as int, threads as int));
    size
}

} // verus!
