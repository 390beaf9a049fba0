//! The mathematical model of the engine.
//!
//! A [`StateSnap`] is what a [`crate::state::State`] looks like in contracts:
//! the job registry as a map from identifier to edge sets, and the symbol
//! index as a map from label to the producers that declared it, in
//! declaration order.  The spec functions here say exactly what registration
//! and each lifecycle event do to a snapshot; the executable functions'
//! contracts are stated against them.

use vstd::prelude::*;

use crate::deps::{DepSnap, DependencyType, StateError};
use crate::job::JobSnap;

verus! {

/// The engine's state in contracts.
pub ghost struct StateSnap {
    /// Registry: job identifier to its edge sets.
    pub jobs: Map<i64, JobSnap>,
    /// Symbol index: label to the producers that declared it, oldest first.
    pub index: Map<Seq<char>, Seq<i64>>,
}

/// The producers currently known for `label`: the indexed sequence, or empty
/// if no job has declared the label yet.
pub open spec fn producers_of(s: StateSnap, label: Seq<char>) -> Seq<i64> {
    if s.index.dom().contains(label) {
        s.index[label]
    } else {
        Seq::empty()
    }
}

/// What wiring a consumer to a producer list leaves behind.
pub ghost struct WireOutcome {
    /// The registry afterwards.
    pub jobs: Map<i64, JobSnap>,
    /// The consumer's ancestor set afterwards.
    pub anc: Set<i64>,
    /// False if the walk stopped at a producer absent from the registry.
    pub ok: bool,
}

/// Walk `prods` in order; for each producer found in the registry, record the
/// consumer `child` as its child and the producer as an ancestor of `child`.
/// Stop at the first producer absent from the registry: the edges already
/// added stay in place and the walk reports failure.
pub open spec fn wire_in(jobs: Map<i64, JobSnap>, anc: Set<i64>, child: i64, prods: Seq<i64>) -> WireOutcome
    decreases prods.len(),
{
    if prods.len() == 0 {
        WireOutcome { jobs, anc, ok: true }
    } else {
        let p = prods[0];
        if !jobs.dom().contains(p) {
            WireOutcome { jobs, anc, ok: false }
        } else {
            let linked = jobs.insert(
                p,
                JobSnap { ancestors: jobs[p].ancestors, children: jobs[p].children.insert(child) },
            );
            wire_in(linked, anc.insert(p), child, prods.drop_first())
        }
    }
}

/// An `In(label)` step for the job `jid` under construction as `j`.
pub open spec fn in_apply(s: StateSnap, j: JobSnap, jid: i64, label: Seq<char>) -> (StateSnap, JobSnap) {
    let w = wire_in(s.jobs, j.ancestors, jid, producers_of(s, label));
    (StateSnap { jobs: w.jobs, index: s.index }, JobSnap { ancestors: w.anc, children: j.children })
}

/// An `Out(label)` step: record `jid` as a producer of the label, once.
pub open spec fn out_step(s: StateSnap, jid: i64, label: Seq<char>) -> StateSnap {
    let ps = producers_of(s, label);
    StateSnap {
        jobs: s.jobs,
        index: s.index.insert(label, if ps.contains(jid) {
            ps
        } else {
            ps.push(jid)
        }),
    }
}

/// One declared dependency of the job `jid` under construction as `j`.
/// `InOut` is an `In` step against the producers known at this moment — the
/// job's own `Out` half not yet among them — followed by an `Out` step.
pub open spec fn dep_step(s: StateSnap, j: JobSnap, jid: i64, d: DepSnap) -> (StateSnap, JobSnap) {
    match d.kind {
        DependencyType::In => in_apply(s, j, jid, d.label),
        DependencyType::Out => (out_step(s, jid, d.label), j),
        DependencyType::InOut => {
            let r = in_apply(s, j, jid, d.label);
            (out_step(r.0, jid, d.label), r.1)
        },
    }
}

/// All declared dependencies, in declaration order.  A failing `In` step
/// leaves its partial edges in place and processing continues.
pub open spec fn run_deps(s: StateSnap, j: JobSnap, jid: i64, deps: Seq<DepSnap>) -> (StateSnap, JobSnap)
    decreases deps.len(),
{
    if deps.len() == 0 {
        (s, j)
    } else {
        let r = dep_step(s, j, jid, deps[0]);
        run_deps(r.0, r.1, jid, deps.drop_first())
    }
}

/// Registration of `jid` with `deps`.  With no declared dependencies the
/// call is a no-op and the job never enters the registry; otherwise the
/// dependencies are processed in order and the job is then inserted with
/// whatever edges were established.
pub open spec fn add_job_spec(s: StateSnap, jid: i64, deps: Seq<DepSnap>) -> StateSnap {
    if deps.len() == 0 {
        s
    } else {
        let r = run_deps(s, JobSnap::empty(), jid, deps);
        StateSnap { jobs: r.0.jobs.insert(jid, r.1), index: r.0.index }
    }
}

/// The registry after `jid` finishes: every present child of `jid` loses
/// `jid` from its ancestor set; nothing else changes.
pub open spec fn finish_jobs(jobs: Map<i64, JobSnap>, jid: i64) -> Map<i64, JobSnap> {
    Map::new(
        |k: i64| jobs.dom().contains(k),
        |k: i64|
            if jobs[jid].children.contains(k) {
                JobSnap { ancestors: jobs[k].ancestors.remove(jid), children: jobs[k].children }
            } else {
                jobs[k]
            },
    )
}

/// The children of `jid` that `finish` unblocks: those present in the
/// registry whose ancestor set becomes empty once `jid` is removed from it.
pub open spec fn finish_ready(jobs: Map<i64, JobSnap>, jid: i64) -> Set<i64> {
    Set::new(
        |k: i64|
            jobs[jid].children.contains(k) && jobs.dom().contains(k)
                && jobs[k].ancestors.remove(jid).is_empty(),
    )
}

/// Whether `finish` on `jid` hits a recorded child absent from the registry.
pub open spec fn finish_fails(jobs: Map<i64, JobSnap>, jid: i64) -> bool {
    exists|k: i64| jobs[jid].children.contains(k) && !jobs.dom().contains(k)
}

/// What `submit` returns: the job itself, if nothing blocks it.
pub open spec fn submit_ready(jobs: Map<i64, JobSnap>, jid: i64) -> Set<i64> {
    if jobs[jid].ancestors.is_empty() {
        Set::empty().insert(jid)
    } else {
        Set::empty()
    }
}

/// A lifecycle event delivered to `jid`: the state afterwards and the result.
///
/// An unknown job identifier fails with `InvalidJobID` and an unrecognised
/// event name with `InvalidEvent`, both without touching the state.
/// `submit` reads only; `depend` and `alloc` are no-op markers; `finish`
/// mutates the children's ancestor sets and reports the newly unblocked
/// jobs, or `MissingDescendent` — with the mutation of the present children
/// kept and the ready set discarded — when a recorded child is absent.
pub open spec fn job_event_spec(s: StateSnap, jid: i64, ev: Seq<char>) -> (StateSnap, Result<Set<i64>, StateError>) {
    if !s.jobs.dom().contains(jid) {
        (s, Err(StateError::InvalidJobID))
    } else if ev == "submit"@ {
        (s, Ok(submit_ready(s.jobs, jid)))
    } else if ev == "depend"@ {
        (s, Ok(Set::empty()))
    } else if ev == "alloc"@ {
        (s, Ok(Set::empty()))
    } else if ev == "finish"@ {
        let s2 = StateSnap { jobs: finish_jobs(s.jobs, jid), index: s.index };
        if finish_fails(s.jobs, jid) {
            (s2, Err(StateError::MissingDescendent))
        } else {
            (s2, Ok(finish_ready(s.jobs, jid)))
        }
    } else {
        (s, Err(StateError::InvalidEvent))
    }
}

/// Wiring edges never adds or removes a job: the registry keys stay as they
/// are.
pub proof fn lemma_wire_in_dom(jobs: Map<i64, JobSnap>, anc: Set<i64>, child: i64, prods: Seq<i64>)
    ensures
        wire_in(jobs, anc, child, prods).jobs.dom() == jobs.dom(),
    decreases prods.len(),
{
    if prods.len() > 0 {
        let p = prods[0];
        if jobs.dom().contains(p) {
            let linked = jobs.insert(
                p,
                JobSnap { ancestors: jobs[p].ancestors, children: jobs[p].children.insert(child) },
            );
            assert(linked.dom() =~= jobs.dom());
            lemma_wire_in_dom(linked, anc.insert(p), child, prods.drop_first());
        }
    }
}

/// Graph consistency: every producer the symbol index names is present in
/// the job registry.
pub open spec fn index_closed(s: StateSnap) -> bool {
    forall|label: Seq<char>, k: int|
        s.index.dom().contains(label) && 0 <= k < s.index[label].len()
            ==> s.jobs.dom().contains(#[trigger] s.index[label][k])
}

} // verus!
