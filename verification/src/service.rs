//! The acceptor side: distributing connections accepted in one readiness
//! wakeup across workers. Edge-triggered readiness requires draining every
//! pending accept per wakeup; the reactor collects the batch and this logic
//! assigns all of it.
use vstd::prelude::*;

verus! {

/// Worker selection. The fixed choice of the first worker is a placeholder
/// policy, kept as its own function so a deployment can swap it.
pub fn choose_worker(n_workers: usize) -> (r: usize)
    requires
        n_workers > 0,
    ensures
        r == 0,
        r < n_workers,
{
    0
}

/// Assign every connection accepted in one wakeup to a worker: each
/// accepted value is paired, in order, with the index of the worker that
/// must take it. None is dropped — a wakeup with several pending accepts
/// registers them all.
pub fn assign_accepted<S>(n_workers: usize, accepted: Vec<S>) -> (r: Vec<(usize, S)>)
    requires
        n_workers > 0,
    ensures
        r@.len() == accepted@.len(),
        forall|i: int|
            0 <= i < r@.len() ==> (#[trigger] r@[i]).1 == accepted@[i] && r@[i].0 < n_workers
                && r@[i].0 == 0,
{
    let ghost accepted0 = accepted@;
    let mut rest = accepted;
    let mut out: Vec<(usize, S)> = Vec::new();
    while rest.len() > 0
        invariant
            n_workers > 0,
            out@.len() + rest@.len() == accepted0.len(),
            rest@ =~= accepted0.skip(out@.len() as int),
            forall|i: int|
                0 <= i < out@.len() ==> (#[trigger] out@[i]).1 == accepted0[i] && out@[i].0 == 0,
        decreases rest@.len(),
    {
        let s = rest.remove(0);
        let w = choose_worker(n_workers);
        out.push((w, s));
        proof {
            assert(rest@ =~= accepted0.skip(out@.len() as int));
        }
    }
    out
}

} // verus!
