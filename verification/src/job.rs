//! A job record: the identifier plus its adjacency in the dependency graph.

use vstd::prelude::*;

use crate::ids::{id_set, nodup};

verus! {

/// What a [`Job`] looks like in contracts: its two edge sets.
pub ghost struct JobSnap {
    /// Jobs this job is still blocked on.
    pub ancestors: Set<i64>,
    /// Jobs blocked on this job.
    pub children: Set<i64>,
}

impl JobSnap {
    /// A record with no edges, as a job starts out.
    pub open spec fn empty() -> JobSnap {
        JobSnap { ancestors: Set::empty(), children: Set::empty() }
    }
}

/// A job in the registry.
///
/// `ancestors` holds the identifiers of jobs this job depends on; entries are
/// only ever removed, as those jobs finish.  `children` holds the identifiers
/// of jobs that depend on this one; entries are only ever added, as later
/// jobs register.  Both are duplicate-free.
pub struct Job {
    pub jobid: i64,
    pub ancestors: Vec<i64>,
    pub children: Vec<i64>,
}

impl View for Job {
    type V = JobSnap;

    open spec fn view(&self) -> JobSnap {
        JobSnap { ancestors: id_set(self.ancestors@), children: id_set(self.children@) }
    }
}

impl Job {
    /// Neither edge vector holds a duplicate.
    pub open spec fn wf(&self) -> bool {
        nodup(self.ancestors@) && nodup(self.children@)
    }

    /// A fresh job record with no edges.
    pub fn new(jobid: i64) -> (job: Job)
        ensures
            job.jobid == jobid,
            job@ == JobSnap::empty(),
            job.wf(),
    {
        let job = Job { jobid, ancestors: Vec::new(), children: Vec::new() };
        proof {
            assert(id_set(job.ancestors@) =~= Set::<i64>::empty());
            assert(id_set(job.children@) =~= Set::<i64>::empty());
        }
        job
    }
}

} // verus!
