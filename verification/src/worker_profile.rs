//! What all workers of a phase did, added up.
use vstd::prelude::*;
use crate::arith::{bounded, bounded_sum, greater, max_usize};
use crate::real_reports::{average_spec_of, average_usize};
use crate::real_terminal::TerminalWorkerProfile;
use crate::scalar::Scalar;

verus! {

/// What all workers did, with how many hands were on a board on average.
#[derive(Clone, Copy, Debug)]
pub struct TerminalProfileTotals<S> {
    pub added: TerminalWorkerProfile,
    pub average_oop_nonzero: S,
    pub average_ip_nonzero: S,
}

/// What two workers did: the counts of both, and the larger of the largest.
pub open spec fn both(a: TerminalWorkerProfile, b: TerminalWorkerProfile) -> TerminalWorkerProfile {
    TerminalWorkerProfile {
        worker_index: 0,
        tasks: bounded(a.tasks + b.tasks) as usize,
        terminal_states: bounded(a.terminal_states + b.terminal_states) as usize,
        fold_states: bounded(a.fold_states + b.fold_states) as usize,
        sparse_tasks: bounded(a.sparse_tasks + b.sparse_tasks) as usize,
        prefix_tasks: bounded(a.prefix_tasks + b.prefix_tasks) as usize,
        zero_reach_tasks: bounded(a.zero_reach_tasks + b.zero_reach_tasks) as usize,
        side_cache_hits: bounded(a.side_cache_hits + b.side_cache_hits) as usize,
        side_cache_misses: bounded(a.side_cache_misses + b.side_cache_misses) as usize,
        oop_nonzero_sum: bounded(a.oop_nonzero_sum + b.oop_nonzero_sum) as usize,
        ip_nonzero_sum: bounded(a.ip_nonzero_sum + b.ip_nonzero_sum) as usize,
        oop_nonzero_max: greater(a.oop_nonzero_max as int, b.oop_nonzero_max as int) as usize,
        ip_nonzero_max: greater(a.ip_nonzero_max as int, b.ip_nonzero_max as int) as usize,
        output_states: bounded(a.output_states + b.output_states) as usize,
    }
}

fn add_both(a: &TerminalWorkerProfile, b: &TerminalWorkerProfile) -> (r: TerminalWorkerProfile)
    ensures
        r == both(*a, *b),
{
    TerminalWorkerProfile {
        worker_index: 0,
        tasks: bounded_sum(a.tasks, b.tasks),
        terminal_states: bounded_sum(a.terminal_states, b.terminal_states),
        fold_states: bounded_sum(a.fold_states, b.fold_states),
        sparse_tasks: bounded_sum(a.sparse_tasks, b.sparse_tasks),
        prefix_tasks: bounded_sum(a.prefix_tasks, b.prefix_tasks),
        zero_reach_tasks: bounded_sum(a.zero_reach_tasks, b.zero_reach_tasks),
        side_cache_hits: bounded_sum(a.side_cache_hits, b.side_cache_hits),
        side_cache_misses: bounded_sum(a.side_cache_misses, b.side_cache_misses),
        oop_nonzero_sum: bounded_sum(a.oop_nonzero_sum, b.oop_nonzero_sum),
        ip_nonzero_sum: bounded_sum(a.ip_nonzero_sum, b.ip_nonzero_sum),
        oop_nonzero_max: max_usize(a.oop_nonzero_max, b.oop_nonzero_max),
        ip_nonzero_max: max_usize(a.ip_nonzero_max, b.ip_nonzero_max),
        output_states: bounded_sum(a.output_states, b.output_states),
    }
}

/// What the first `n` workers did.
pub open spec fn all_of(profiles: Seq<TerminalWorkerProfile>, n: nat) -> TerminalWorkerProfile
    decreases n,
{
    if n == 0 {
        TerminalWorkerProfile::none_spec()
    } else {
        both(all_of(profiles, (n - 1) as nat), profiles[n - 1])
    }
}

/// What all workers did, with how many hands were on a board on average.
pub fn terminal_profile_totals<S: Scalar>(profiles: &[TerminalWorkerProfile]) -> (r:
    TerminalProfileTotals<S>)
    ensures
        r.added == all_of(profiles@, profiles@.len()),
        r.average_oop_nonzero == average_spec_of::<S>(r.added.oop_nonzero_sum, r.added.tasks),
        r.average_ip_nonzero == average_spec_of::<S>(r.added.ip_nonzero_sum, r.added.tasks),
{
    let mut added: TerminalWorkerProfile = TerminalWorkerProfile::none();
    for n in 0..profiles.len()
        invariant
            added == all_of(profiles@, n as nat),
    {
        added = add_both(&added, &profiles[n]);
    }
    let average_oop_nonzero: S = average_usize(added.oop_nonzero_sum, added.tasks);
    let average_ip_nonzero: S = average_usize(added.ip_nonzero_sum, added.tasks);
    TerminalProfileTotals { added, average_oop_nonzero, average_ip_nonzero }
}

} // verus!
