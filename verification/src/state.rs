//! The engine's state: the job registry and the symbol index, with the
//! operations that register jobs and deliver lifecycle events.

use vstd::prelude::*;

use crate::deps::{deps_view, DepSnap, Dependency, DependencyType, StateError};
use std::collections::HashSet;

use crate::ids::{
    copy_ids, id_set, lemma_id_set_empty_len, lemma_id_set_push, nodup, push_unique, remove_id,
};
use crate::job::{Job, JobSnap};
use crate::model::{
    add_job_spec, dep_step, finish_fails, finish_jobs, finish_ready, job_event_spec,
    lemma_wire_in_dom, out_step, producers_of, run_deps, submit_ready, wire_in, StateSnap,
    WireOutcome,
};

verus! {

/// One entry of the symbol index: a label and the jobs that have declared it
/// as an output, oldest first, without duplicates.
pub struct SymbolEntry {
    pub label: String,
    pub producers: Vec<i64>,
}

/// No two jobs share an identifier.
pub open spec fn nodup_job_ids(jobs: Seq<Job>) -> bool {
    forall|i: int, j: int| 0 <= i < j < jobs.len() ==> jobs[i].jobid != jobs[j].jobid
}

/// No two index entries share a label.
pub open spec fn nodup_labels(es: Seq<SymbolEntry>) -> bool {
    forall|i: int, j: int| 0 <= i < j < es.len() ==> es[i].label@ != es[j].label@
}

/// Whether some job in the sequence has the identifier.
pub open spec fn has_job(jobs: Seq<Job>, jid: i64) -> bool {
    exists|k: int| 0 <= k < jobs.len() && jobs[k].jobid == jid
}

/// The position of the job with the identifier (unique when ids are).
pub open spec fn job_pos(jobs: Seq<Job>, jid: i64) -> int {
    choose|k: int| 0 <= k < jobs.len() && jobs[k].jobid == jid
}

/// Whether some entry carries the label.
pub open spec fn has_label(es: Seq<SymbolEntry>, label: Seq<char>) -> bool {
    exists|k: int| 0 <= k < es.len() && es[k].label@ == label
}

/// The position of the entry with the label (unique when labels are).
pub open spec fn label_pos(es: Seq<SymbolEntry>, label: Seq<char>) -> int {
    choose|k: int| 0 <= k < es.len() && es[k].label@ == label
}

/// The registry as a map from job identifier to edge sets.
pub open spec fn jobs_map(jobs: Seq<Job>) -> Map<i64, JobSnap> {
    Map::new(|jid: i64| has_job(jobs, jid), |jid: i64| jobs[job_pos(jobs, jid)]@)
}

/// The symbol index as a map from label to producer sequence.
pub open spec fn index_map(es: Seq<SymbolEntry>) -> Map<Seq<char>, Seq<i64>> {
    Map::new(
        |label: Seq<char>| has_label(es, label),
        |label: Seq<char>| es[label_pos(es, label)].producers@,
    )
}

proof fn lemma_job_pos(jobs: Seq<Job>, k: int)
    requires
        nodup_job_ids(jobs),
        0 <= k < jobs.len(),
    ensures
        job_pos(jobs, jobs[k].jobid) == k,
        has_job(jobs, jobs[k].jobid),
{
    assert(has_job(jobs, jobs[k].jobid));
    let k2 = job_pos(jobs, jobs[k].jobid);
    if k2 != k {
        if k2 < k {
            assert(jobs[k2].jobid != jobs[k].jobid);
        } else {
            assert(jobs[k].jobid != jobs[k2].jobid);
        }
    }
}

proof fn lemma_label_pos(es: Seq<SymbolEntry>, k: int)
    requires
        nodup_labels(es),
        0 <= k < es.len(),
    ensures
        label_pos(es, es[k].label@) == k,
        has_label(es, es[k].label@),
{
    assert(has_label(es, es[k].label@));
    let k2 = label_pos(es, es[k].label@);
    if k2 != k {
        if k2 < k {
            assert(es[k2].label@ != es[k].label@);
        } else {
            assert(es[k].label@ != es[k2].label@);
        }
    }
}

/// Replacing the job at `k` by one with the same identifier updates the
/// registry map at that identifier alone.
proof fn lemma_jobs_map_update(jobs: Seq<Job>, k: int, j2: Job)
    requires
        nodup_job_ids(jobs),
        0 <= k < jobs.len(),
        j2.jobid == jobs[k].jobid,
    ensures
        nodup_job_ids(jobs.update(k, j2)),
        jobs_map(jobs.update(k, j2)) == jobs_map(jobs).insert(j2.jobid, j2@),
{
    let u = jobs.update(k, j2);
    assert forall|i: int, j: int| 0 <= i < j < u.len() implies u[i].jobid != u[j].jobid by {
        assert(jobs[i].jobid != jobs[j].jobid);
    }
    assert forall|q: i64| #[trigger] has_job(u, q) <==> has_job(jobs, q) by {
        if has_job(u, q) {
            let i = choose|i: int| 0 <= i < u.len() && u[i].jobid == q;
            if i == k {
                assert(jobs[k].jobid == q);
            } else {
                assert(jobs[i].jobid == q);
            }
        }
        if has_job(jobs, q) {
            let i = choose|i: int| 0 <= i < jobs.len() && jobs[i].jobid == q;
            if i == k {
                assert(u[k].jobid == q);
            } else {
                assert(u[i].jobid == q);
            }
        }
    }
    assert forall|q: i64| has_job(u, q) implies jobs_map(u)[q] == jobs_map(jobs).insert(
        j2.jobid,
        j2@,
    )[q] by {
        if q == j2.jobid {
            lemma_job_pos(u, k);
            assert(jobs_map(u)[q] == u[k]@);
        } else {
            let i = choose|i: int| 0 <= i < jobs.len() && jobs[i].jobid == q;
            lemma_job_pos(jobs, i);
            lemma_job_pos(u, i);
            assert(i != k);
            assert(jobs_map(u)[q] == u[i]@);
            assert(jobs_map(jobs)[q] == jobs[i]@);
        }
    }
    assert(jobs_map(u) =~= jobs_map(jobs).insert(j2.jobid, j2@));
}

/// Appending a job with a fresh identifier inserts it into the registry map.
proof fn lemma_jobs_map_push(jobs: Seq<Job>, j2: Job)
    requires
        nodup_job_ids(jobs),
        !has_job(jobs, j2.jobid),
    ensures
        nodup_job_ids(jobs.push(j2)),
        jobs_map(jobs.push(j2)) == jobs_map(jobs).insert(j2.jobid, j2@),
{
    let u = jobs.push(j2);
    assert forall|i: int, j: int| 0 <= i < j < u.len() implies u[i].jobid != u[j].jobid by {
        if j < jobs.len() {
            assert(jobs[i].jobid != jobs[j].jobid);
        } else {
            assert(u[i] == jobs[i]);
            if u[i].jobid == j2.jobid {
                assert(has_job(jobs, j2.jobid));
            }
        }
    }
    assert forall|q: i64| #[trigger] has_job(u, q) <==> has_job(jobs, q) || q == j2.jobid by {
        if has_job(u, q) {
            let i = choose|i: int| 0 <= i < u.len() && u[i].jobid == q;
            if i < jobs.len() {
                assert(jobs[i].jobid == q);
            }
        }
        if has_job(jobs, q) {
            let i = choose|i: int| 0 <= i < jobs.len() && jobs[i].jobid == q;
            assert(u[i].jobid == q);
        }
        if q == j2.jobid {
            assert(u[jobs.len() as int].jobid == q);
        }
    }
    assert forall|q: i64| has_job(u, q) implies jobs_map(u)[q] == jobs_map(jobs).insert(
        j2.jobid,
        j2@,
    )[q] by {
        if q == j2.jobid {
            lemma_job_pos(u, jobs.len() as int);
        } else {
            let i = choose|i: int| 0 <= i < jobs.len() && jobs[i].jobid == q;
            lemma_job_pos(jobs, i);
            lemma_job_pos(u, i);
            assert(jobs_map(u)[q] == u[i]@);
        }
    }
    assert(jobs_map(u) =~= jobs_map(jobs).insert(j2.jobid, j2@));
}

/// Replacing the entry at `k` by one with the same label updates the index
/// map at that label alone.
proof fn lemma_index_map_update(es: Seq<SymbolEntry>, k: int, e2: SymbolEntry)
    requires
        nodup_labels(es),
        0 <= k < es.len(),
        e2.label@ == es[k].label@,
    ensures
        nodup_labels(es.update(k, e2)),
        index_map(es.update(k, e2)) == index_map(es).insert(e2.label@, e2.producers@),
{
    let u = es.update(k, e2);
    assert forall|i: int, j: int| 0 <= i < j < u.len() implies u[i].label@ != u[j].label@ by {
        assert(es[i].label@ != es[j].label@);
    }
    assert forall|q: Seq<char>| #[trigger] has_label(u, q) <==> has_label(es, q) by {
        if has_label(u, q) {
            let i = choose|i: int| 0 <= i < u.len() && u[i].label@ == q;
            if i == k {
                assert(es[k].label@ == q);
            } else {
                assert(es[i].label@ == q);
            }
        }
        if has_label(es, q) {
            let i = choose|i: int| 0 <= i < es.len() && es[i].label@ == q;
            if i == k {
                assert(u[k].label@ == q);
            } else {
                assert(u[i].label@ == q);
            }
        }
    }
    assert forall|q: Seq<char>| has_label(u, q) implies index_map(u)[q] == index_map(es).insert(
        e2.label@,
        e2.producers@,
    )[q] by {
        if q == e2.label@ {
            lemma_label_pos(u, k);
        } else {
            let i = choose|i: int| 0 <= i < es.len() && es[i].label@ == q;
            lemma_label_pos(es, i);
            lemma_label_pos(u, i);
            assert(i != k);
            assert(index_map(u)[q] == u[i].producers@);
        }
    }
    assert(index_map(u) =~= index_map(es).insert(e2.label@, e2.producers@));
}

/// Appending an entry with a fresh label inserts it into the index map.
proof fn lemma_index_map_push(es: Seq<SymbolEntry>, e2: SymbolEntry)
    requires
        nodup_labels(es),
        !has_label(es, e2.label@),
    ensures
        nodup_labels(es.push(e2)),
        index_map(es.push(e2)) == index_map(es).insert(e2.label@, e2.producers@),
{
    let u = es.push(e2);
    assert forall|i: int, j: int| 0 <= i < j < u.len() implies u[i].label@ != u[j].label@ by {
        if j < es.len() {
            assert(es[i].label@ != es[j].label@);
        } else {
            assert(u[i] == es[i]);
            if u[i].label@ == e2.label@ {
                assert(has_label(es, e2.label@));
            }
        }
    }
    assert forall|q: Seq<char>| #[trigger] has_label(u, q) <==> has_label(es, q) || q
        == e2.label@ by {
        if has_label(u, q) {
            let i = choose|i: int| 0 <= i < u.len() && u[i].label@ == q;
            if i < es.len() {
                assert(es[i].label@ == q);
            }
        }
        if has_label(es, q) {
            let i = choose|i: int| 0 <= i < es.len() && es[i].label@ == q;
            assert(u[i].label@ == q);
        }
        if q == e2.label@ {
            assert(u[es.len() as int].label@ == q);
        }
    }
    assert forall|q: Seq<char>| has_label(u, q) implies index_map(u)[q] == index_map(es).insert(
        e2.label@,
        e2.producers@,
    )[q] by {
        if q == e2.label@ {
            lemma_label_pos(u, es.len() as int);
        } else {
            let i = choose|i: int| 0 <= i < es.len() && es[i].label@ == q;
            lemma_label_pos(es, i);
            lemma_label_pos(u, i);
            assert(index_map(u)[q] == u[i].producers@);
        }
    }
    assert(index_map(u) =~= index_map(es).insert(e2.label@, e2.producers@));
}

/// The dependency graph: a registry of jobs and the symbol index that wires
/// consumers to the producers registered before them.
pub struct State {
    jobs: Vec<Job>,
    /// Out-symbol lookup table consulted when a job with an `In` dependency
    /// is registered: it names, per label, every job that produces it.
    jobs_with_out_symbol: Vec<SymbolEntry>,
}

impl View for State {
    type V = StateSnap;

    closed spec fn view(&self) -> StateSnap {
        StateSnap { jobs: jobs_map(self.jobs@), index: index_map(self.jobs_with_out_symbol@) }
    }
}

impl State {
    /// Identifiers and labels are unique and every job record is well formed.
    pub closed spec fn wf(&self) -> bool {
        &&& nodup_job_ids(self.jobs@)
        &&& forall|k: int| 0 <= k < self.jobs@.len() ==> (#[trigger] self.jobs@[k]).wf()
        &&& nodup_labels(self.jobs_with_out_symbol@)
    }

    /// An empty graph: no jobs, no indexed labels.
    pub fn new() -> (s: State)
        ensures
            s.wf(),
            s@.jobs == Map::<i64, JobSnap>::empty(),
            s@.index == Map::<Seq<char>, Seq<i64>>::empty(),
    {
        let s = State { jobs: Vec::new(), jobs_with_out_symbol: Vec::new() };
        proof {
            assert(s@.jobs =~= Map::<i64, JobSnap>::empty());
            assert(s@.index =~= Map::<Seq<char>, Seq<i64>>::empty());
        }
        s
    }

    /// Where the job with this identifier sits in the registry vector.
    fn job_index_of(&self, jid: i64) -> (r: Option<usize>)
        requires
            self.wf(),
        ensures
            match r {
                Some(k) => k < self.jobs@.len() && self.jobs@[k as int].jobid == jid
                    && self@.jobs.dom().contains(jid) && self@.jobs[jid] == self.jobs@[k as int]@,
                None => !self@.jobs.dom().contains(jid),
            },
    {
        let mut k: usize = 0;
        while k < self.jobs.len()
            invariant
                self.wf(),
                k <= self.jobs@.len(),
                forall|j: int| 0 <= j < k ==> self.jobs@[j].jobid != jid,
            decreases self.jobs@.len() - k,
        {
            if self.jobs[k].jobid == jid {
                proof {
                    lemma_job_pos(self.jobs@, k as int);
                }
                return Some(k);
            }
            k += 1;
        }
        proof {
            if self@.jobs.dom().contains(jid) {
                let i = choose|i: int| 0 <= i < self.jobs@.len() && self.jobs@[i].jobid == jid;
                assert(self.jobs@[i].jobid != jid);
            }
        }
        None
    }

    /// Where the entry for this label sits in the symbol index vector.
    fn symbol_index_of(&self, symbol: &String) -> (r: Option<usize>)
        requires
            self.wf(),
        ensures
            match r {
                Some(k) => k < self.jobs_with_out_symbol@.len()
                    && self.jobs_with_out_symbol@[k as int].label@ == symbol@
                    && self@.index.dom().contains(symbol@) && self@.index[symbol@]
                    == self.jobs_with_out_symbol@[k as int].producers@,
                None => !self@.index.dom().contains(symbol@),
            },
    {
        let mut k: usize = 0;
        while k < self.jobs_with_out_symbol.len()
            invariant
                self.wf(),
                k <= self.jobs_with_out_symbol@.len(),
                forall|j: int| 0 <= j < k ==> self.jobs_with_out_symbol@[j].label@ != symbol@,
            decreases self.jobs_with_out_symbol@.len() - k,
        {
            if self.jobs_with_out_symbol[k].label == *symbol {
                proof {
                    lemma_label_pos(self.jobs_with_out_symbol@, k as int);
                }
                return Some(k);
            }
            k += 1;
        }
        proof {
            if self@.index.dom().contains(symbol@) {
                let i = choose|i: int|
                    0 <= i < self.jobs_with_out_symbol@.len()
                        && self.jobs_with_out_symbol@[i].label@ == symbol@;
                assert(self.jobs_with_out_symbol@[i].label@ != symbol@);
            }
        }
        None
    }

    /// Best-effort cleanup after a failed registration step.  No concrete
    /// recovery policy is defined: the hook leaves the graph untouched, so
    /// edges already wired for the job being registered stay in place.
    pub fn rollback_job_add(&mut self, job: &Job)
        ensures
            *final(self) == *old(self),
    {
    }

    /// Look up previously registered producers of `symbol` and wire edges:
    /// each producer found in the registry gains `in_job` as a child and
    /// becomes an ancestor of `in_job`.  If the label has no producers the
    /// job is unconstrained by it and nothing changes.  If the index names a
    /// producer absent from the registry the call stops there with
    /// `InvalidJobID`, keeping the edges wired so far.
    pub fn add_in_dependency(&mut self, in_job: &mut Job, symbol: &String) -> (r: Result<
        (),
        StateError,
    >)
        requires
            old(self).wf(),
            old(in_job).wf(),
        ensures
            final(self).wf(),
            final(in_job).wf(),
            final(in_job).jobid == old(in_job).jobid,
            final(in_job)@.children == old(in_job)@.children,
            final(self)@.index == old(self)@.index,
            ({
                let w = wire_in(
                    old(self)@.jobs,
                    old(in_job)@.ancestors,
                    old(in_job).jobid,
                    producers_of(old(self)@, symbol@),
                );
                &&& final(self)@.jobs == w.jobs
                &&& final(in_job)@.ancestors == w.anc
                &&& r == (if w.ok {
                    Ok::<(), StateError>(())
                } else {
                    Err::<(), StateError>(StateError::InvalidJobID)
                })
            }),
    {
        let li = match self.symbol_index_of(symbol) {
            Some(li) => li,
            None => {
                return Ok(());
            },
        };
        let ghost s0 = *self;
        let ghost j0 = *in_job;
        let ghost prods = self.jobs_with_out_symbol@[li as int].producers@;
        proof {
            assert(prods.skip(0) =~= prods);
        }
        let n = self.jobs_with_out_symbol[li].producers.len();
        let mut k: usize = 0;
        while k < n
            invariant
                self.wf(),
                in_job.wf(),
                s0 == *old(self),
                j0 == *old(in_job),
                li < self.jobs_with_out_symbol@.len(),
                self.jobs_with_out_symbol@ == s0.jobs_with_out_symbol@,
                prods == s0.jobs_with_out_symbol@[li as int].producers@,
                producers_of(s0@, symbol@) == prods,
                n == prods.len(),
                k <= n,
                in_job.jobid == j0.jobid,
                in_job@.children == j0@.children,
                wire_in(s0@.jobs, j0@.ancestors, j0.jobid, prods) == wire_in(
                    self@.jobs,
                    in_job@.ancestors,
                    j0.jobid,
                    prods.skip(k as int),
                ),
            decreases n - k,
        {
            let ghost rem = prods.skip(k as int);
            proof {
                assert(rem.drop_first() =~= prods.skip(k as int + 1));
                assert(rem[0] == prods[k as int]);
            }
            let p = self.jobs_with_out_symbol[li].producers[k];
            let ji = match self.job_index_of(p) {
                Some(ji) => ji,
                None => {
                    proof {
                        assert(wire_in(self@.jobs, in_job@.ancestors, j0.jobid, rem)
                            == (WireOutcome {
                            jobs: self@.jobs,
                            anc: in_job@.ancestors,
                            ok: false,
                        }));
                    }
                    return Err(StateError::InvalidJobID);
                },
            };
            let ghost jobs_pre = self.jobs@;
            push_unique(&mut self.jobs[ji].children, in_job.jobid);
            proof {
                let j2 = self.jobs@[ji as int];
                assert(j2.ancestors@ == jobs_pre[ji as int].ancestors@);
                lemma_jobs_map_update(jobs_pre, ji as int, j2);
                assert(j2@ == (JobSnap {
                    ancestors: jobs_map(jobs_pre)[p].ancestors,
                    children: jobs_map(jobs_pre)[p].children.insert(j0.jobid),
                }));
            }
            push_unique(&mut in_job.ancestors, p);
            k += 1;
        }
        proof {
            assert(prods.skip(n as int) =~= Seq::<i64>::empty());
        }
        Ok(())
    }

    /// Record `out_job` as a producer of `symbol` in the lookup table,
    /// creating the entry if the label is new.
    pub fn add_out_dependency(&mut self, out_job: &Job, symbol: &String)
        requires
            old(self).wf(),
        ensures
            final(self).wf(),
            final(self)@ == out_step(old(self)@, out_job.jobid, symbol@),
    {
        let r = self.symbol_index_of(symbol);
        match r {
            Some(li) => {
                let ghost es0 = self.jobs_with_out_symbol@;
                push_unique(&mut self.jobs_with_out_symbol[li].producers, out_job.jobid);
                proof {
                    let e2 = self.jobs_with_out_symbol@[li as int];
                    assert(self.jobs_with_out_symbol@ == es0.update(li as int, e2));
                    lemma_index_map_update(es0, li as int, e2);
                }
            },
            None => {
                let mut producers: Vec<i64> = Vec::new();
                producers.push(out_job.jobid);
                let entry = SymbolEntry { label: symbol.clone(), producers };
                proof {
                    assert(entry.producers@ == Seq::<i64>::empty().push(out_job.jobid));
                    assert(producers_of(old(self)@, symbol@) == Seq::<i64>::empty());
                    lemma_index_map_push(self.jobs_with_out_symbol@, entry);
                }
                self.jobs_with_out_symbol.push(entry);
            },
        }
    }

    /// Register a new job, considering all of its declared dependencies in
    /// order.  `InOut` dependencies are broken down into an `In` step against
    /// the currently known producers followed by an `Out` step.  A failing
    /// `In` step is reported to the rollback hook and processing continues;
    /// the job is inserted afterwards with whatever edges were established.
    /// With no dependencies at all the call is a no-op and the job never
    /// enters the registry.
    pub fn add_job(&mut self, jobid: i64, dependencies: &Vec<Dependency>)
        requires
            old(self).wf(),
            !old(self)@.jobs.dom().contains(jobid),
        ensures
            final(self).wf(),
            final(self)@ == add_job_spec(old(self)@, jobid, deps_view(dependencies@)),
    {
        if dependencies.len() == 0 {
            return ;
        }
        let mut job = Job::new(jobid);
        let ghost s0 = *self;
        let ghost dv = deps_view(dependencies@);
        proof {
            assert(dv.skip(0) =~= dv);
        }
        let mut k: usize = 0;
        while k < dependencies.len()
            invariant
                self.wf(),
                job.wf(),
                s0 == *old(self),
                dv == deps_view(dependencies@),
                dv.len() == dependencies@.len(),
                k <= dv.len(),
                job.jobid == jobid,
                !self@.jobs.dom().contains(jobid),
                run_deps(s0@, JobSnap::empty(), jobid, dv) == run_deps(
                    self@,
                    job@,
                    jobid,
                    dv.skip(k as int),
                ),
            decreases dependencies@.len() - k,
        {
            let ghost s_pre = *self;
            let ghost j_pre = job;
            let ghost rem = dv.skip(k as int);
            proof {
                assert(rem.drop_first() =~= dv.skip(k as int + 1));
                assert(rem[0] == dv[k as int]);
                assert(dv[k as int] == dependencies@[k as int]@);
            }
            match dependencies[k].dep_type {
                DependencyType::In => {
                    let result = self.add_in_dependency(&mut job, &dependencies[k].value);
                    if let Err(_e) = result {
                        self.rollback_job_add(&job);
                    }
                    proof {
                        assert(dep_step(s_pre@, j_pre@, jobid, rem[0]) == (self@, job@));
                    }
                },
                DependencyType::Out => {
                    self.add_out_dependency(&job, &dependencies[k].value);
                    proof {
                        assert(dep_step(s_pre@, j_pre@, jobid, rem[0]) == (self@, job@));
                    }
                },
                DependencyType::InOut => {
                    let result = self.add_in_dependency(&mut job, &dependencies[k].value);
                    self.add_out_dependency(&job, &dependencies[k].value);
                    if let Err(_e) = result {
                        self.rollback_job_add(&job);
                    }
                    proof {
                        assert(dep_step(s_pre@, j_pre@, jobid, rem[0]) == (self@, job@));
                    }
                },
            }
            proof {
                lemma_wire_in_dom(
                    s_pre@.jobs,
                    j_pre@.ancestors,
                    jobid,
                    producers_of(s_pre@, dependencies@[k as int].value@),
                );
            }
            k += 1;
        }
        proof {
            assert(dv.skip(dependencies@.len() as int) =~= Seq::<DepSnap>::empty());
        }
        let ghost jobs_pre = self.jobs@;
        proof {
            lemma_jobs_map_push(jobs_pre, job);
        }
        self.jobs.push(job);
    }

    /// Deliver a lifecycle `event` to the job `jobid` and report which jobs
    /// are now free to run.  `submit` names the job itself if nothing blocks
    /// it; `depend` and `alloc` are no-op markers; `finish` unblocks the
    /// job's children whose last unresolved ancestor it was.  An unknown
    /// identifier fails with `InvalidJobID`, an unrecognised event name with
    /// `InvalidEvent`, and a recorded child missing from the registry with
    /// `MissingDescendent` — the children that are present still lose their
    /// edge to the finishing job, but no ready set is returned.
    pub fn job_event(&mut self, jobid: i64, event: String) -> (r: Result<HashSet<i64>, StateError>)
        requires
            old(self).wf(),
        ensures
            final(self).wf(),
            ({
                let stepped = job_event_spec(old(self)@, jobid, event@);
                &&& final(self)@ == stepped.0
                &&& match (r, stepped.1) {
                    (Ok(got), Ok(want)) => got@ == want,
                    (Err(got), Err(want)) => got == want,
                    _ => false,
                }
            }),
    {
        let ji = match self.job_index_of(jobid) {
            Some(x) => x,
            None => {
                return Err(StateError::InvalidJobID);
            },
        };
        let mut ret: HashSet<i64> = HashSet::new();
        if is_event(&event, "submit") {
            if self.jobs[ji].ancestors.len() == 0 {
                ret.insert(jobid);
            }
            proof {
                lemma_id_set_empty_len(self.jobs@[ji as int].ancestors@);
                if self@.jobs[jobid].ancestors.is_empty() {
                    assert(ret@ == submit_ready(self@.jobs, jobid));
                }
            }
            Ok(ret)
        } else if is_event(&event, "depend") {
            Ok(ret)
        } else if is_event(&event, "alloc") {
            Ok(ret)
        } else if is_event(&event, "finish") {
            let ghost s0 = *self;
            let children = copy_ids(&self.jobs[ji].children);
            let ghost cseq = children@;
            let mut error_occurred: bool = false;
            let mut k: usize = 0;
            proof {
                assert(id_set(cseq.take(0)) =~= Set::<i64>::empty());
            }
            while k < children.len()
                invariant
                    self.wf(),
                    s0 == *old(self),
                    s0.wf(),
                    cseq == children@,
                    k <= cseq.len(),
                    nodup(cseq),
                    s0@.jobs.dom().contains(jobid),
                    s0@.jobs[jobid].children == id_set(cseq),
                    self.jobs_with_out_symbol@ == s0.jobs_with_out_symbol@,
                    self@.jobs.dom() == s0@.jobs.dom(),
                    forall|q: i64|
                        s0@.jobs.dom().contains(q) ==> #[trigger] self@.jobs[q] == (
                        if id_set(cseq.take(k as int)).contains(q) {
                            JobSnap {
                                ancestors: s0@.jobs[q].ancestors.remove(jobid),
                                children: s0@.jobs[q].children,
                            }
                        } else {
                            s0@.jobs[q]
                        }),
                    error_occurred == exists|j: int|
                        0 <= j < k && !s0@.jobs.dom().contains(#[trigger] cseq[j]),
                    ret@ == Set::new(
                        |q: i64|
                            id_set(cseq.take(k as int)).contains(q) && s0@.jobs.dom().contains(q)
                                && s0@.jobs[q].ancestors.remove(jobid).is_empty(),
                    ),
                decreases cseq.len() - k,
            {
                let ghost ret_pre = ret@;
                let child_id = children[k];
                proof {
                    assert(cseq.take(k as int).push(child_id) =~= cseq.take(k as int + 1));
                    lemma_id_set_push(cseq.take(k as int), child_id);
                    assert forall|j: int| 0 <= j < k implies cseq[j] != child_id by {}
                    assert(!id_set(cseq.take(k as int)).contains(child_id)) by {
                        if cseq.take(k as int).contains(child_id) {
                            let j = choose|j: int|
                                0 <= j < k && cseq.take(k as int)[j] == child_id;
                            assert(cseq[j] == child_id);
                        }
                    }
                }
                match self.job_index_of(child_id) {
                    None => {
                        error_occurred = true;
                        proof {
                            assert(!s0@.jobs.dom().contains(cseq[k as int]));
                            assert(ret@ =~= Set::new(
                                |q: i64|
                                    id_set(cseq.take(k as int + 1)).contains(q)
                                        && s0@.jobs.dom().contains(q) && s0@.jobs[q].ancestors.remove(
                                        jobid,
                                    ).is_empty(),
                            ));
                        }
                    },
                    Some(ci) => {
                        let ghost jobs_pre = self.jobs@;
                        remove_id(&mut self.jobs[ci].ancestors, jobid);
                        let ready = self.jobs[ci].ancestors.len() == 0;
                        proof {
                            let j2 = self.jobs@[ci as int];
                            assert(j2.children@ == jobs_pre[ci as int].children@);
                            lemma_jobs_map_update(jobs_pre, ci as int, j2);
                            assert(self@.jobs.dom() =~= s0@.jobs.dom());
                            assert(j2@ == (JobSnap {
                                ancestors: s0@.jobs[child_id].ancestors.remove(jobid),
                                children: s0@.jobs[child_id].children,
                            }));
                            lemma_id_set_empty_len(j2.ancestors@);
                        }
                        if ready {
                            ret.insert(child_id);
                        }
                        proof {
                            assert(ret@ =~= Set::new(
                                |q: i64|
                                    id_set(cseq.take(k as int + 1)).contains(q)
                                        && s0@.jobs.dom().contains(q) && s0@.jobs[q].ancestors.remove(
                                        jobid,
                                    ).is_empty(),
                            ));
                        }
                    },
                }
                k += 1;
            }
            proof {
                assert(cseq.take(cseq.len() as int) =~= cseq);
                assert(self@.jobs =~= finish_jobs(s0@.jobs, jobid));
                assert(self@.index =~= s0@.index);
                assert(ret@ =~= finish_ready(s0@.jobs, jobid));
                if error_occurred {
                    assert(finish_fails(s0@.jobs, jobid));
                } else {
                    if finish_fails(s0@.jobs, jobid) {
                        let q = choose|q: i64|
                            s0@.jobs[jobid].children.contains(q) && !s0@.jobs.dom().contains(q);
                        let j = choose|j: int| 0 <= j < cseq.len() && cseq[j] == q;
                        assert(!s0@.jobs.dom().contains(cseq[j]));
                    }
                }
            }
            if error_occurred {
                return Err(StateError::MissingDescendent);
            }
            Ok(ret)
        } else {
            Err(StateError::InvalidEvent)
        }
    }
}

/// Whether `event` spells exactly the recognised `name`.
fn is_event(event: &String, name: &str) -> (b: bool)
    ensures
        b == (event@ == name@),
{
    let owned: String = name.to_owned();
    *event == owned
}

} // verus!
