use std::collections::HashSet;

use jobgraph::deps::{Dependency, DependencyType, StateError};
use jobgraph::job::Job;
use jobgraph::state::State;

fn assert_noop(actual: Result<HashSet<i64>, StateError>) {
    assert!(actual.is_ok());
    assert_eq!(actual.unwrap().len(), 0)
}

fn assert_jobs_eq(actual: Result<HashSet<i64>, StateError>, expected: &Vec<i64>) {
    assert!(actual.is_ok());
    assert_eq!(actual.unwrap(), expected.iter().cloned().collect::<HashSet<i64>>());
}

fn assert_err_eq(actual: Result<HashSet<i64>, StateError>, expected: StateError) {
    assert!(actual.is_err());
    assert_eq!(actual.unwrap_err(), expected,);
}

#[test]
fn job_chain() {
    let mut state = State::new();

    state.add_job(1, &vec![Dependency::new(DependencyType::Out, "foo".to_string())]);
    state.add_job(2, &vec![Dependency::new(DependencyType::InOut, "foo".to_string())]);
    state.add_job(3, &vec![Dependency::new(DependencyType::In, "foo".to_string())]);

    // Submit all the things!
    let out = state.job_event(1, "submit".to_string());
    assert_jobs_eq(out, &vec![1]);
    for jobid in vec![2, 3].iter() {
        let out = state.job_event(*jobid, "submit".to_string());
        assert_noop(out);
    }

    for jobid in vec![1, 2, 3].iter() {
        let out = state.job_event(*jobid, "depend".to_string());
        assert_noop(out);
        let out = state.job_event(*jobid, "alloc".to_string());
        assert_noop(out);
        let out = state.job_event(*jobid, "finish".to_string());
        if *jobid < 3 {
            assert_jobs_eq(out, &vec![jobid + 1]);
        } else {
            assert_noop(out);
        }
    }
}

#[test]
fn job_fan_out() {
    let mut state = State::new();
    state.add_job(1, &vec![Dependency::new(DependencyType::Out, "foo".to_string())]);
    for jobid in vec![2, 3, 4].iter() {
        state.add_job(
            *jobid,
            &vec![
                Dependency::new(DependencyType::In, "foo".to_string()),
                Dependency::new(DependencyType::Out, "bar".to_string()),
            ],
        );
    }
    state.add_job(5, &vec![Dependency::new(DependencyType::In, "bar".to_string())]);

    // Submit all the things!
    let out = state.job_event(1, "submit".to_string());
    assert_jobs_eq(out, &vec![1]);
    for jobid in vec![2, 3, 4, 5].iter() {
        let out = state.job_event(*jobid, "submit".to_string());
        assert_noop(out);
    }

    // Run and complete initial pre-process job
    let out = state.job_event(1, "depend".to_string());
    assert_noop(out);
    let out = state.job_event(1, "alloc".to_string());
    assert_noop(out);
    let out = state.job_event(1, "finish".to_string());
    assert_jobs_eq(out, &vec![2, 3, 4]);

    // Run and complete fan-out
    for jobid in vec![2, 3, 4].iter() {
        let out = state.job_event(*jobid, "depend".to_string());
        assert_noop(out);
        let out = state.job_event(*jobid, "alloc".to_string());
        assert_noop(out);
        let out = state.job_event(*jobid, "finish".to_string());
        if *jobid < 4 {
            assert_noop(out);
        } else {
            assert_jobs_eq(out, &vec![5]);
        }
    }

    // Run and complete postprocess job
    let out = state.job_event(5, "depend".to_string());
    assert_noop(out);
    let out = state.job_event(5, "alloc".to_string());
    assert_noop(out);
    let out = state.job_event(5, "finish".to_string());
    assert_noop(out);
}

#[test]
fn nonexistent_in() {
    //! A job with an 'in' dependency that does not match an 'out' of a
    //! currently queued/running job can be immediately scheduled.
    let mut state = State::new();
    state.add_job(1, &vec![Dependency::new(DependencyType::In, "foo".to_string())]);
    let out = state.job_event(1, "submit".to_string());
    assert_jobs_eq(out, &vec![1]);
}

#[test]
fn invalid_jobid() {
    //! Test that an event on an unknown/invalid returns an error
    let mut state = State::new();
    let out = state.job_event(1, "submit".to_string());
    assert_err_eq(out, StateError::InvalidJobID);
    state.add_job(1, &vec![Dependency::new(DependencyType::In, "foo".to_string())]);
    let out = state.job_event(1, "foobar".to_string());
    assert_err_eq(out, StateError::InvalidEvent);
}

#[test]
fn out_then_in_forms_edge() {
    // A producer registered first blocks a consumer registered later, and
    // finishing the producer unblocks exactly that consumer.
    let mut state = State::new();
    state.add_job(10, &vec![Dependency::new(DependencyType::Out, "data".to_string())]);
    state.add_job(11, &vec![Dependency::new(DependencyType::In, "data".to_string())]);
    let out = state.job_event(11, "submit".to_string());
    assert_noop(out);
    let out = state.job_event(10, "finish".to_string());
    assert_jobs_eq(out, &vec![11]);
}

#[test]
fn in_before_out_no_edge() {
    // A producer registered after a consumer is never retroactively linked.
    let mut state = State::new();
    state.add_job(1, &vec![Dependency::new(DependencyType::In, "late".to_string())]);
    state.add_job(2, &vec![Dependency::new(DependencyType::Out, "late".to_string())]);
    let out = state.job_event(1, "submit".to_string());
    assert_jobs_eq(out, &vec![1]);
    let out = state.job_event(2, "finish".to_string());
    assert_noop(out);
}

#[test]
fn empty_dependencies_never_registered() {
    // A job declared with no dependencies is silently dropped: it never
    // enters the registry, so every later event against it fails.
    let mut state = State::new();
    state.add_job(7, &vec![]);
    let out = state.job_event(7, "submit".to_string());
    assert_err_eq(out, StateError::InvalidJobID);
}

#[test]
fn inout_forms_no_self_edge() {
    // The `In` half of an `InOut` only sees producers known beforehand, so a
    // job producing and consuming the same label does not block itself.
    let mut state = State::new();
    state.add_job(1, &vec![Dependency::new(DependencyType::InOut, "loop".to_string())]);
    let out = state.job_event(1, "submit".to_string());
    assert_jobs_eq(out, &vec![1]);
}

#[test]
fn depend_and_alloc_do_not_mutate() {
    // `depend` and `alloc` return the empty set and leave the edges alone:
    // the consumer is still blocked afterwards.
    let mut state = State::new();
    state.add_job(1, &vec![Dependency::new(DependencyType::Out, "foo".to_string())]);
    state.add_job(2, &vec![Dependency::new(DependencyType::In, "foo".to_string())]);
    let out = state.job_event(1, "depend".to_string());
    assert_noop(out);
    let out = state.job_event(1, "alloc".to_string());
    assert_noop(out);
    let out = state.job_event(2, "submit".to_string());
    assert_noop(out);
    let out = state.job_event(1, "finish".to_string());
    assert_jobs_eq(out, &vec![2]);
}

#[test]
fn in_dependency_with_unregistered_producer() {
    // If the symbol index names a producer absent from the registry, the
    // `In` step reports it: the index entry was made for a job that was
    // never registered.
    let mut state = State::new();
    let phantom = Job::new(5);
    state.add_out_dependency(&phantom, &"x".to_string());
    let mut consumer = Job::new(6);
    let out = state.add_in_dependency(&mut consumer, &"x".to_string());
    assert_eq!(out, Err(StateError::InvalidJobID));
}

#[test]
fn finish_with_missing_child() {
    // A recorded child absent from the registry makes `finish` fail with
    // `MissingDescendent`, but the present children are still unwired.
    let mut state = State::new();
    state.add_job(1, &vec![Dependency::new(DependencyType::Out, "foo".to_string())]);
    // Wire an edge to a job that is never registered.
    let mut ghost_child = Job::new(2);
    let out = state.add_in_dependency(&mut ghost_child, &"foo".to_string());
    assert_eq!(out, Ok(()));
    // A real consumer of the same label.
    state.add_job(3, &vec![Dependency::new(DependencyType::In, "foo".to_string())]);
    let out = state.job_event(1, "finish".to_string());
    assert_err_eq(out, StateError::MissingDescendent);
    // Job 3 was still unblocked even though the call failed.
    let out = state.job_event(3, "submit".to_string());
    assert_jobs_eq(out, &vec![3]);
}

#[test]
fn rollback_leaves_graph_untouched() {
    // The rollback hook is a best-effort no-op: behaviour is the same after
    // calling it.
    let mut state = State::new();
    state.add_job(1, &vec![Dependency::new(DependencyType::Out, "foo".to_string())]);
    let job = Job::new(9);
    state.rollback_job_add(&job);
    let out = state.job_event(1, "submit".to_string());
    assert_jobs_eq(out, &vec![1]);
}

#[test]
fn submit_stays_ready_after_clearing() {
    // The engine tracks no per-job submission state: `submit` on a job whose
    // ancestors were already cleared still names it.
    let mut state = State::new();
    state.add_job(1, &vec![Dependency::new(DependencyType::Out, "foo".to_string())]);
    state.add_job(2, &vec![Dependency::new(DependencyType::In, "foo".to_string())]);
    let out = state.job_event(1, "finish".to_string());
    assert_jobs_eq(out, &vec![2]);
    let out = state.job_event(2, "submit".to_string());
    assert_jobs_eq(out, &vec![2]);
    let out = state.job_event(2, "submit".to_string());
    assert_jobs_eq(out, &vec![2]);
}
