//! The engine's laws: what registration and events guarantee, proved over
//! the model in [`crate::model`] that the executable functions' contracts
//! are stated against.

use vstd::prelude::*;

use crate::deps::{DepSnap, DependencyType, StateError};
use crate::job::JobSnap;
use crate::model::{
    add_job_spec, dep_step, finish_fails, finish_jobs, finish_ready, in_apply, index_closed,
    job_event_spec, lemma_wire_in_dom, out_step, producers_of, run_deps, submit_ready, wire_in,
    StateSnap,
};

verus! {

/// Registration-shaped registry growth: the keys stay put, no job's
/// ancestors move, and a job's children gain at most `jid`.
pub open spec fn extends_jobs(m0: Map<i64, JobSnap>, m1: Map<i64, JobSnap>, jid: i64) -> bool {
    &&& m1.dom() == m0.dom()
    &&& forall|q: i64| m0.dom().contains(q) ==> (#[trigger] m1[q]).ancestors == m0[q].ancestors
    &&& forall|q: i64|
        m0.dom().contains(q) ==> m0[q].children.subset_of((#[trigger] m1[q]).children)
    &&& forall|q: i64|
        m0.dom().contains(q) ==> (#[trigger] m1[q]).children.subset_of(
            m0[q].children.insert(jid),
        )
}

/// Registration-shaped index growth: existing producer lists keep their
/// prefix and every new producer entry is `jid`.
pub open spec fn extends_index(
    i0: Map<Seq<char>, Seq<i64>>,
    i1: Map<Seq<char>, Seq<i64>>,
    jid: i64,
) -> bool {
    &&& forall|l: Seq<char>| i0.dom().contains(l) ==> #[trigger] i1.dom().contains(l)
    &&& forall|l: Seq<char>|
        i0.dom().contains(l) ==> (#[trigger] i0[l]).len() <= i1[l].len() && (forall|k: int|
            0 <= k < i0[l].len() ==> i1[l][k] == i0[l][k])
    &&& forall|l: Seq<char>, k: int|
        i1.dom().contains(l) && 0 <= k < i1[l].len() && !(i0.dom().contains(l) && k
            < i0[l].len()) ==> #[trigger] i1[l][k] == jid
}

/// The consumer's ancestor set only grows, and only by registered jobs.
pub open spec fn anc_bounded(a0: Set<i64>, a1: Set<i64>, dom: Set<i64>) -> bool {
    a0.subset_of(a1) && a1.subset_of(a0.union(dom))
}

proof fn lemma_extends_jobs_trans(
    m0: Map<i64, JobSnap>,
    m1: Map<i64, JobSnap>,
    m2: Map<i64, JobSnap>,
    jid: i64,
)
    requires
        extends_jobs(m0, m1, jid),
        extends_jobs(m1, m2, jid),
    ensures
        extends_jobs(m0, m2, jid),
{
    assert forall|q: i64| m0.dom().contains(q) implies (#[trigger] m2[q]).children.subset_of(
        m0[q].children.insert(jid),
    ) by {
        assert(m1[q].children.subset_of(m0[q].children.insert(jid)));
        assert(m2[q].children.subset_of(m1[q].children.insert(jid)));
        assert(m1[q].children.insert(jid).subset_of(m0[q].children.insert(jid)));
    }
}

proof fn lemma_extends_index_trans(
    i0: Map<Seq<char>, Seq<i64>>,
    i1: Map<Seq<char>, Seq<i64>>,
    i2: Map<Seq<char>, Seq<i64>>,
    jid: i64,
)
    requires
        extends_index(i0, i1, jid),
        extends_index(i1, i2, jid),
    ensures
        extends_index(i0, i2, jid),
{
    assert forall|l: Seq<char>, k: int|
        i2.dom().contains(l) && 0 <= k < i2[l].len() && !(i0.dom().contains(l) && k
            < i0[l].len()) implies #[trigger] i2[l][k] == jid by {
        if i1.dom().contains(l) && k < i1[l].len() {
            assert(i1[l][k] == jid);
        }
    }
}

/// Wiring edges moves no ancestor set in the registry, only adds the
/// consumer to children sets, and gains the consumer only registered
/// ancestors.
proof fn lemma_wire_in_frame(jobs: Map<i64, JobSnap>, anc: Set<i64>, child: i64, prods: Seq<i64>)
    ensures
        extends_jobs(jobs, wire_in(jobs, anc, child, prods).jobs, child),
        anc_bounded(anc, wire_in(jobs, anc, child, prods).anc, jobs.dom()),
    decreases prods.len(),
{
    if prods.len() > 0 {
        let p = prods[0];
        if jobs.dom().contains(p) {
            let linked = jobs.insert(
                p,
                JobSnap { ancestors: jobs[p].ancestors, children: jobs[p].children.insert(child) },
            );
            assert(linked.dom() =~= jobs.dom());
            assert(extends_jobs(jobs, linked, child));
            lemma_wire_in_frame(linked, anc.insert(p), child, prods.drop_first());
            lemma_extends_jobs_trans(
                jobs,
                linked,
                wire_in(jobs, anc, child, prods).jobs,
                child,
            );
        }
    }
}

/// If `a` sits in the producer list behind only registered producers, the
/// wiring walk reaches it: `a` becomes an ancestor of the consumer and the
/// consumer a child of `a`.
proof fn lemma_wire_in_wires(
    jobs: Map<i64, JobSnap>,
    anc: Set<i64>,
    child: i64,
    prods: Seq<i64>,
    m: int,
)
    requires
        0 <= m < prods.len(),
        forall|k: int| 0 <= k <= m ==> jobs.dom().contains(#[trigger] prods[k]),
    ensures
        wire_in(jobs, anc, child, prods).anc.contains(prods[m]),
        wire_in(jobs, anc, child, prods).jobs[prods[m]].children.contains(child),
    decreases m,
{
    let p = prods[0];
    let linked = jobs.insert(
        p,
        JobSnap { ancestors: jobs[p].ancestors, children: jobs[p].children.insert(child) },
    );
    assert(linked.dom() =~= jobs.dom());
    if m == 0 {
        lemma_wire_in_frame(linked, anc.insert(p), child, prods.drop_first());
    } else {
        assert forall|k: int| 0 <= k <= m - 1 implies linked.dom().contains(
            #[trigger] prods.drop_first()[k],
        ) by {
            assert(prods.drop_first()[k] == prods[k + 1]);
        }
        assert(prods.drop_first()[m - 1] == prods[m]);
        lemma_wire_in_wires(linked, anc.insert(p), child, prods.drop_first(), m - 1);
    }
}

/// Processing declared dependencies grows the graph registration-shaped:
/// registry keys and ancestor sets stay put, children gain at most `jid`,
/// the job under construction keeps its children and gains only registered
/// ancestors, and the index is only extended, with `jid` as every new
/// producer.
proof fn lemma_run_deps_frame(s: StateSnap, j: JobSnap, jid: i64, deps: Seq<DepSnap>)
    ensures
        ({
            let r = run_deps(s, j, jid, deps);
            &&& extends_jobs(s.jobs, r.0.jobs, jid)
            &&& anc_bounded(j.ancestors, r.1.ancestors, s.jobs.dom())
            &&& r.1.children == j.children
            &&& extends_index(s.index, r.0.index, jid)
        }),
    decreases deps.len(),
{
    if deps.len() > 0 {
        let d = deps[0];
        let st = dep_step(s, j, jid, d);
        lemma_dep_step_frame(s, j, jid, d);
        lemma_run_deps_frame(st.0, st.1, jid, deps.drop_first());
        let r = run_deps(s, j, jid, deps);
        lemma_extends_jobs_trans(s.jobs, st.0.jobs, r.0.jobs, jid);
        lemma_extends_index_trans(s.index, st.0.index, r.0.index, jid);
        assert(st.0.jobs.dom() == s.jobs.dom());
    }
}

/// One dependency step, framed as [`lemma_run_deps_frame`] frames them all.
proof fn lemma_dep_step_frame(s: StateSnap, j: JobSnap, jid: i64, d: DepSnap)
    ensures
        ({
            let st = dep_step(s, j, jid, d);
            &&& extends_jobs(s.jobs, st.0.jobs, jid)
            &&& anc_bounded(j.ancestors, st.1.ancestors, s.jobs.dom())
            &&& st.1.children == j.children
            &&& extends_index(s.index, st.0.index, jid)
        }),
{
    let st = dep_step(s, j, jid, d);
    match d.kind {
        DependencyType::In => {
            lemma_wire_in_frame(s.jobs, j.ancestors, jid, producers_of(s, d.label));
            assert(extends_index(s.index, st.0.index, jid));
        },
        DependencyType::Out => {
            lemma_out_step_extends(s, jid, d.label);
        },
        DependencyType::InOut => {
            lemma_wire_in_frame(s.jobs, j.ancestors, jid, producers_of(s, d.label));
            let mid = in_apply(s, j, jid, d.label);
            lemma_out_step_extends(mid.0, jid, d.label);
        },
    }
}

proof fn lemma_out_step_extends(s: StateSnap, jid: i64, label: Seq<char>)
    ensures
        out_step(s, jid, label).jobs == s.jobs,
        extends_index(s.index, out_step(s, jid, label).index, jid),
{
    let ps = producers_of(s, label);
    let i1 = out_step(s, jid, label).index;
    assert forall|l: Seq<char>, k: int|
        i1.dom().contains(l) && 0 <= k < i1[l].len() && !(s.index.dom().contains(l) && k
            < s.index[l].len()) implies #[trigger] i1[l][k] == jid by {
        if l == label {
            if !ps.contains(jid) {
                assert(i1[l] == ps.push(jid));
            }
        }
    }
}

/// `a` sits in the producer list of `label` with only registered producers
/// before it, so a wiring walk of that list is sure to reach it.
spec fn producer_reachable(s: StateSnap, label: Seq<char>, a: i64) -> bool {
    exists|m: int|
        0 <= m < producers_of(s, label).len() && producers_of(s, label)[m] == a && (forall|k: int|
            0 <= k <= m ==> s.jobs.dom().contains(#[trigger] producers_of(s, label)[k]))
}

/// Processing the dependencies of the fresh job `jid` wires it to `a`
/// whenever some dependency consumes a label that `a` is reachable under.
proof fn lemma_run_deps_links(
    s: StateSnap,
    j: JobSnap,
    jid: i64,
    deps: Seq<DepSnap>,
    i: int,
    a: i64,
    label: Seq<char>,
)
    requires
        s.jobs.dom().contains(a),
        !s.jobs.dom().contains(jid),
        0 <= i < deps.len(),
        deps[i].label == label,
        deps[i].kind == DependencyType::In || deps[i].kind == DependencyType::InOut,
        producer_reachable(s, label, a),
    ensures
        run_deps(s, j, jid, deps).1.ancestors.contains(a),
        run_deps(s, j, jid, deps).0.jobs[a].children.contains(jid),
    decreases i,
{
    let d = deps[0];
    let st = dep_step(s, j, jid, d);
    let rest = run_deps(st.0, st.1, jid, deps.drop_first());
    lemma_dep_step_frame(s, j, jid, d);
    lemma_run_deps_frame(st.0, st.1, jid, deps.drop_first());
    if i == 0 {
        let ps = producers_of(s, label);
        let m = choose|m: int|
            0 <= m < ps.len() && ps[m] == a && (forall|k: int|
                0 <= k <= m ==> s.jobs.dom().contains(#[trigger] ps[k]));
        lemma_wire_in_wires(s.jobs, j.ancestors, jid, ps, m);
        let w = wire_in(s.jobs, j.ancestors, jid, ps);
        lemma_wire_in_dom(s.jobs, j.ancestors, jid, ps);
        assert(st.0.jobs == w.jobs);
        assert(st.1.ancestors == w.anc);
        assert(st.1.ancestors.contains(a));
        assert(st.0.jobs[a].children.contains(jid));
        assert(st.0.jobs[a].children.subset_of(rest.0.jobs[a].children));
        assert(st.1.ancestors.subset_of(rest.1.ancestors));
    } else {
        assert(deps.drop_first()[i - 1] == deps[i]);
        assert(producer_reachable(st.0, label, a)) by {
            let ps = producers_of(s, label);
            let m = choose|m: int|
                0 <= m < ps.len() && ps[m] == a && (forall|k: int|
                    0 <= k <= m ==> s.jobs.dom().contains(#[trigger] ps[k]));
            let ps1 = producers_of(st.0, label);
            assert(s.index.dom().contains(label));
            assert(st.0.index.dom().contains(label));
            assert(ps.len() <= ps1.len());
            assert forall|k: int| 0 <= k <= m implies st.0.jobs.dom().contains(
                #[trigger] ps1[k],
            ) by {
                assert(ps1[k] == ps[k]);
            }
            assert(ps1[m] == a);
        }
        lemma_run_deps_links(st.0, st.1, jid, deps.drop_first(), i - 1, a, label);
    }
}

/// For all jobs A and B: if A has declared `Out(label)` — the symbol index
/// names A as a producer of `label` — and B is registered afterwards with a
/// dependency that consumes `label` (`In` or `InOut`), then B's ancestor set
/// contains A and A's children set contains B once B is registered.
pub proof fn lemma_out_then_in_links(
    s: StateSnap,
    a: i64,
    b: i64,
    label: Seq<char>,
    deps: Seq<DepSnap>,
    i: int,
)
    requires
        index_closed(s),
        producers_of(s, label).contains(a),
        !s.jobs.dom().contains(b),
        0 <= i < deps.len(),
        deps[i].label == label,
        deps[i].kind == DependencyType::In || deps[i].kind == DependencyType::InOut,
    ensures
        ({
            let s2 = add_job_spec(s, b, deps);
            &&& s2.jobs.dom().contains(b)
            &&& s2.jobs[b].ancestors.contains(a)
            &&& s2.jobs.dom().contains(a)
            &&& s2.jobs[a].children.contains(b)
        }),
{
    let ps = producers_of(s, label);
    let m = choose|m: int| 0 <= m < ps.len() && ps[m] == a;
    assert(s.index.dom().contains(label));
    assert forall|k: int| 0 <= k <= m implies s.jobs.dom().contains(#[trigger] ps[k]) by {
        assert(s.jobs.dom().contains(s.index[label][k]));
    }
    assert(s.jobs.dom().contains(a));
    assert(producer_reachable(s, label, a));
    lemma_run_deps_links(s, JobSnap::empty(), b, deps, i, a, label);
    let r = run_deps(s, JobSnap::empty(), b, deps);
    lemma_run_deps_frame(s, JobSnap::empty(), b, deps);
    let s2 = add_job_spec(s, b, deps);
    assert(s2.jobs == r.0.jobs.insert(b, r.1));
    assert(s2.jobs[b] == r.1);
    assert(a != b);
    assert(s2.jobs[a] == r.0.jobs[a]);
}

/// For all jobs A and B: if B is registered while A is wholly unknown, then
/// registering A afterwards forms no edge between the two in either
/// direction — a producer registered after a consumer is never retroactively
/// linked to it.
pub proof fn lemma_no_retroactive_link(
    s: StateSnap,
    a: i64,
    b: i64,
    deps_b: Seq<DepSnap>,
    deps_a: Seq<DepSnap>,
)
    requires
        !s.jobs.dom().contains(a),
        !s.jobs.dom().contains(b),
        a != b,
    ensures
        ({
            let s1 = add_job_spec(s, b, deps_b);
            let s2 = add_job_spec(s1, a, deps_a);
            &&& (s2.jobs.dom().contains(b) ==> !s2.jobs[b].ancestors.contains(a))
            &&& (s2.jobs.dom().contains(a) ==> !s2.jobs[a].children.contains(b))
        }),
{
    let s1 = add_job_spec(s, b, deps_b);
    let s2 = add_job_spec(s1, a, deps_a);
    lemma_run_deps_frame(s, JobSnap::empty(), b, deps_b);
    if deps_b.len() == 0 {
        assert(s1 == s);
    } else {
        let r1 = run_deps(s, JobSnap::empty(), b, deps_b);
        assert(s1.jobs == r1.0.jobs.insert(b, r1.1));
        assert(!r1.1.ancestors.contains(a));
    }
    lemma_run_deps_frame(s1, JobSnap::empty(), a, deps_a);
    if deps_a.len() == 0 {
        assert(s2 == s1);
        if s2.jobs.dom().contains(b) {
            assert(deps_b.len() > 0);
        }
    } else {
        let r2 = run_deps(s1, JobSnap::empty(), a, deps_a);
        assert(s2.jobs == r2.0.jobs.insert(a, r2.1));
        assert(s2.jobs[a] == r2.1);
        assert(r2.1.children == Set::<i64>::empty());
        if s2.jobs.dom().contains(b) {
            assert(s1.jobs.dom().contains(b));
            assert(deps_b.len() > 0);
            assert(s2.jobs[b] == r2.0.jobs[b]);
            assert(r2.0.jobs[b].ancestors == s1.jobs[b].ancestors);
        }
    }
}

/// Registration touches existing jobs in one way only: a job already in the
/// registry keeps its identifier and its ancestor set, and its children set
/// gains at most the job being registered.
pub proof fn lemma_add_job_monotone(s: StateSnap, jid: i64, deps: Seq<DepSnap>)
    ensures
        ({
            let s2 = add_job_spec(s, jid, deps);
            forall|q: i64|
                s.jobs.dom().contains(q) && q != jid ==> s2.jobs.dom().contains(q) && (
                #[trigger] s2.jobs[q]).ancestors == s.jobs[q].ancestors
                    && s.jobs[q].children.subset_of(s2.jobs[q].children)
                    && s2.jobs[q].children.subset_of(s.jobs[q].children.insert(jid))
        }),
{
    if deps.len() > 0 {
        lemma_run_deps_frame(s, JobSnap::empty(), jid, deps);
    }
}

/// The four recognised event names all spell differently.
proof fn lemma_event_names()
    ensures
        "submit"@ != "depend"@,
        "submit"@ != "alloc"@,
        "submit"@ != "finish"@,
        "depend"@ != "alloc"@,
        "depend"@ != "finish"@,
        "alloc"@ != "finish"@,
{
    reveal_strlit("submit");
    reveal_strlit("depend");
    reveal_strlit("alloc");
    reveal_strlit("finish");
    assert(("submit"@).len() == 6);
    assert(("depend"@).len() == 6);
    assert(("alloc"@).len() == 5);
    assert(("finish"@).len() == 6);
    assert(("submit"@)[0] == 's');
    assert(("depend"@)[0] == 'd');
    assert(("finish"@)[0] == 'f');
}

/// `submit` on a job with no remaining ancestors returns exactly that job's
/// id; with any remaining ancestor it returns the empty set.  Either way the
/// graph is untouched.
pub proof fn lemma_submit_ready(s: StateSnap, jid: i64)
    requires
        s.jobs.dom().contains(jid),
    ensures
        job_event_spec(s, jid, "submit"@).0 == s,
        s.jobs[jid].ancestors.is_empty() ==> job_event_spec(s, jid, "submit"@).1 == Ok::<
            Set<i64>,
            StateError,
        >(Set::empty().insert(jid)),
        !s.jobs[jid].ancestors.is_empty() ==> job_event_spec(s, jid, "submit"@).1 == Ok::<
            Set<i64>,
            StateError,
        >(Set::empty()),
{
}

/// `finish` on a job whose recorded children are all present returns exactly
/// the set of its children whose ancestor set becomes empty as a result —
/// the children it was the last unresolved ancestor of.
pub proof fn lemma_finish_unblocks(s: StateSnap, jid: i64)
    requires
        s.jobs.dom().contains(jid),
        !finish_fails(s.jobs, jid),
    ensures
        ({
            let stepped = job_event_spec(s, jid, "finish"@);
            &&& stepped.1 == Ok::<Set<i64>, StateError>(finish_ready(s.jobs, jid))
            &&& forall|c: i64|
                #[trigger] finish_ready(s.jobs, jid).contains(c) <==> s.jobs[jid].children.contains(
                    c,
                ) && stepped.0.jobs[c].ancestors.is_empty()
        }),
{
    lemma_event_names();
    let stepped = job_event_spec(s, jid, "finish"@);
    assert forall|c: i64| #[trigger] finish_ready(s.jobs, jid).contains(c)
        <==> s.jobs[jid].children.contains(c) && stepped.0.jobs[c].ancestors.is_empty() by {
        if s.jobs[jid].children.contains(c) {
            assert(s.jobs.dom().contains(c));
            assert(stepped.0.jobs[c].ancestors == s.jobs[c].ancestors.remove(jid));
        }
    }
}

/// `depend` and `alloc` on a known job always return the empty set and never
/// mutate the graph.
pub proof fn lemma_depend_alloc_noop(s: StateSnap, jid: i64)
    requires
        s.jobs.dom().contains(jid),
    ensures
        job_event_spec(s, jid, "depend"@).0 == s,
        job_event_spec(s, jid, "depend"@).1 == Ok::<Set<i64>, StateError>(Set::empty()),
        job_event_spec(s, jid, "alloc"@).0 == s,
        job_event_spec(s, jid, "alloc"@).1 == Ok::<Set<i64>, StateError>(Set::empty()),
{
    lemma_event_names();
}

/// An event against an unknown job id fails with `InvalidJobID`; an
/// unrecognised event name against a known job fails with `InvalidEvent`.
/// Neither changes the graph.
pub proof fn lemma_event_errors(s: StateSnap, jid: i64, ev: Seq<char>)
    ensures
        !s.jobs.dom().contains(jid) ==> job_event_spec(s, jid, ev) == (
            s,
            Err::<Set<i64>, StateError>(StateError::InvalidJobID),
        ),
        s.jobs.dom().contains(jid) && ev != "submit"@ && ev != "depend"@ && ev != "alloc"@ && ev
            != "finish"@ ==> job_event_spec(s, jid, ev) == (
            s,
            Err::<Set<i64>, StateError>(StateError::InvalidEvent),
        ),
{
}

/// Registration keeps the graph consistent: afterwards, every producer the
/// symbol index names is still present in the job registry.
pub proof fn lemma_add_job_preserves_index_closed(s: StateSnap, jid: i64, deps: Seq<DepSnap>)
    requires
        index_closed(s),
    ensures
        index_closed(add_job_spec(s, jid, deps)),
{
    if deps.len() > 0 {
        let r = run_deps(s, JobSnap::empty(), jid, deps);
        let s2 = add_job_spec(s, jid, deps);
        lemma_run_deps_frame(s, JobSnap::empty(), jid, deps);
        assert forall|label: Seq<char>, k: int|
            s2.index.dom().contains(label) && 0 <= k < s2.index[label].len() implies s2.jobs.dom().contains(
            #[trigger] s2.index[label][k],
        ) by {
            if s.index.dom().contains(label) && k < s.index[label].len() {
                assert(s2.index[label][k] == s.index[label][k]);
                assert(s.jobs.dom().contains(s.index[label][k]));
            } else {
                assert(s2.index[label][k] == jid);
            }
        }
    }
}

/// Events keep the graph consistent too: `finish` rewires ancestor sets but
/// never removes a job or touches the symbol index.
pub proof fn lemma_job_event_preserves_index_closed(s: StateSnap, jid: i64, ev: Seq<char>)
    requires
        index_closed(s),
    ensures
        index_closed(job_event_spec(s, jid, ev).0),
{
    let s2 = job_event_spec(s, jid, ev).0;
    assert(s2.index == s.index);
    assert(s2.jobs.dom() =~= s.jobs.dom());
}

} // verus!
