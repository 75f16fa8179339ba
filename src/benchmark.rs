//! Records of timed parsing runs and the arithmetic on them.
use vstd::prelude::*;

verus! {

/// What one timed run measured.
#[derive(Debug)]
pub struct BenchmarkResult {
    pub name: String,
    /// Wall-clock time of the run, in nanoseconds.
    pub duration_nanos: u64,
    /// Peak memory of the process above what it used before the run, in KB.
    pub memory_used_kb: u64,
    /// Peak memory of the process during the run, in KB.
    pub peak_memory_kb: u64,
}

impl BenchmarkResult {
    /// The record of a run from its samples: memory used is the peak above
    /// the memory before the run, and 0 where the peak is lower.
    pub fn from_samples(
        name: String,
        duration_nanos: u64,
        initial_memory_kb: u64,
        peak_memory_kb: u64,
    ) -> (r: BenchmarkResult)
        ensures
            r.name@ == name@,
            r.duration_nanos == duration_nanos,
            r.peak_memory_kb == peak_memory_kb,
            r.memory_used_kb == if peak_memory_kb >= initial_memory_kb {
                (peak_memory_kb - initial_memory_kb) as u64
            } else {
                0u64
            },
    {
        let memory_used_kb = if peak_memory_kb >= initial_memory_kb {
            peak_memory_kb - initial_memory_kb
        } else {
            0
        };
        BenchmarkResult { name, duration_nanos, memory_used_kb, peak_memory_kb }
    }
}

/// Raises the recorded peak to the current sample where that is higher.
pub fn record_sample(peak_kb: &mut u64, current_kb: u64)
    ensures
        *final(peak_kb) == if current_kb > *old(peak_kb) {
            current_kb
        } else {
            *old(peak_kb)
        },
{
    if current_kb > *peak_kb {
        *peak_kb = current_kb;
    }
}

/// The largest memory use among `results`, or 1000 KB where there is none.
pub open spec fn largest_memory_used(results: Seq<BenchmarkResult>) -> u64
    decreases results.len(),
{
    if results.len() == 0 {
        1000
    } else if results.len() == 1 {
        results[0].memory_used_kb
    } else {
        let rest = largest_memory_used(results.drop_last());
        if results.last().memory_used_kb > rest {
            results.last().memory_used_kb
        } else {
            rest
        }
    }
}

/// The top of the memory axis of a chart of `results`: the largest memory
/// use plus a margin of 100 KB.
pub fn memory_axis_limit(results: &Vec<BenchmarkResult>) -> (r: u64)
    requires
        forall|i: int| 0 <= i < results@.len() ==> #[trigger] results@[i].memory_used_kb <= u64::MAX - 100,
    ensures
        r == largest_memory_used(results@) + 100,
{
    let mut largest: u64 = 1000;
    let mut i: usize = 0;
    while i < results.len()
        invariant
            i <= results@.len(),
            largest == largest_memory_used(results@.take(i as int)),
            largest <= u64::MAX - 100,
            forall|i: int| 0 <= i < results@.len() ==> #[trigger] results@[i].memory_used_kb <= u64::MAX - 100,
        decreases results@.len() - i,
    {
        let m = results[i].memory_used_kb;
        assert(results@.take(i as int + 1).drop_last() =~= results@.take(i as int));
        if i == 0 || m > largest {
            largest = m;
        }
        i = i + 1;
    }
    assert(results@.take(results@.len() as int) =~= results@);
    largest + 100
}

} // verus!
