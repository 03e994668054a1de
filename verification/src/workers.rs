//! How many workers to plan for.

use vstd::prelude::*;

verus! {

/// The number of processors that `num_cpus::get` reports. Nothing is
/// claimed of it: it is what the machine says at the time of the call, and
/// may differ from one call to the next.
#[verifier::external_body]
fn reported_processors() -> (count: usize) {
    num_cpus::get()
}

/// One worker for each processor, and one where none is reported.
pub open spec fn workers_of(processors: usize) -> usize {
    if processors == 0 {
        1
    } else {
        processors
    }
}

/// The worker count for a machine that reports `processors` processors.
pub fn workers_for(processors: usize) -> (workers: usize)
    ensures
        workers == workers_of(processors),
        workers >= 1,
{
    if processors == 0 {
        1
    } else {
        processors
    }
}

/// `processors` is what the machine reported at a call. This is the
/// record of a call, not a rule: it says nothing of the number, nor that
/// two calls agree.
pub closed spec fn reported(processors: usize) -> bool {
    call_ensures(reported_processors, (), processors)
}

/// The worker count for this machine, at the time of the call: the count
/// for as many processors as the machine reports.
pub fn worker_count() -> (workers: usize)
    ensures
        exists|processors: usize|
            #[trigger] reported(processors) && workers == workers_of(processors),
        workers >= 1,
{
    let processors: usize = reported_processors();
    assert(reported(processors));
    workers_for(processors)
}

} // verus!
