use persist_sink::{Description, EmptyAppend, Frontier, Minter, MinterPhase};

fn steady_leader(as_of: u64, upper: u64) -> Minter {
    let mut m = Minter::new(true, Frontier::At(as_of));
    assert_eq!(m.on_shard_upper(Frontier::At(upper)), None);
    m
}

#[test]
fn minter_skips_bootstrap_when_shard_is_past_as_of() {
    let mut m = Minter::new(true, Frontier::At(3));
    assert_eq!(m.on_shard_upper(Frontier::At(5)), None);
    assert_eq!(m.phase, MinterPhase::Steady);
    assert_eq!(m.persist_frontier, Frontier::At(5));
}

#[test]
fn minter_bootstraps_with_empty_append() {
    let mut m = Minter::new(true, Frontier::At(3));
    let a = m.on_shard_upper(Frontier::At(0));
    assert_eq!(a, Some(EmptyAppend { expected_upper: Frontier::At(0), new_upper: Frontier::At(3) }));
    assert_eq!(m.phase, MinterPhase::Bootstrapping);
    assert_eq!(m.on_bootstrap_append(Ok(())), None);
    assert_eq!(m.phase, MinterPhase::Steady);
    assert_eq!(m.persist_frontier, Frontier::At(3));
}

#[test]
fn minter_bootstrap_conflict_rereads_upper() {
    let mut m = Minter::new(true, Frontier::At(3));
    m.on_shard_upper(Frontier::At(0));
    // Someone else moved the shard, but not far enough.
    let again = m.on_bootstrap_append(Err(Frontier::At(1)));
    assert_eq!(again, Some(EmptyAppend { expected_upper: Frontier::At(1), new_upper: Frontier::At(3) }));
    // Someone else moved it past as_of.
    assert_eq!(m.on_bootstrap_append(Err(Frontier::At(7))), None);
    assert_eq!(m.persist_frontier, Frontier::At(7));
}

#[test]
fn minter_single_insert_description() {
    let mut m = steady_leader(0, 0);
    assert_eq!(m.on_desired_progress(Frontier::At(2)), Some(Description { lower: Frontier::At(0), upper: Frontier::At(2) }));
    assert_eq!(m.capability, Frontier::At(1));
    assert_eq!(m.emitted_persist_frontier, Some(Frontier::At(0)));
}

#[test]
fn minter_no_op_tick_mints_nothing() {
    let mut m = steady_leader(0, 0);
    assert!(m.on_desired_progress(Frontier::At(2)).is_some());
    assert_eq!(m.on_desired_progress(Frontier::At(3)), None);
    assert_eq!(m.on_desired_progress(Frontier::At(9)), None);
    assert_eq!(m.on_feedback_progress(Frontier::At(0)), None);
}

#[test]
fn minter_lowers_strictly_increase() {
    let mut m = steady_leader(0, 0);
    let a = m.on_desired_progress(Frontier::At(2)).unwrap();
    assert_eq!(m.on_desired_progress(Frontier::At(5)), None);
    let b = m.on_feedback_progress(Frontier::At(2)).unwrap();
    assert_eq!(b, Description { lower: Frontier::At(2), upper: Frontier::At(5) });
    assert!(a.lower.less_than(&b.lower));
    assert_eq!(m.shared_frontier, Frontier::At(2));
}

#[test]
fn minter_never_mints_below_as_of() {
    let mut n = Minter::new(true, Frontier::At(4));
    n.on_shard_upper(Frontier::At(0));
    n.on_bootstrap_append(Ok(()));
    // Feedback from an appender that has not committed yet stays below as_of.
    assert_eq!(n.on_feedback_progress(Frontier::At(0)), None);
    let d = n.on_desired_progress(Frontier::At(6)).unwrap();
    assert_eq!(d, Description { lower: Frontier::At(4), upper: Frontier::At(6) });
}

#[test]
fn minter_shared_frontier_only_grows() {
    let mut m = steady_leader(0, 0);
    m.on_feedback_progress(Frontier::At(5));
    assert_eq!(m.shared_frontier, Frontier::At(5));
    m.on_feedback_progress(Frontier::At(3));
    assert_eq!(m.shared_frontier, Frontier::At(5));
    m.on_feedback_progress(Frontier::Empty);
    assert_eq!(m.shared_frontier, Frontier::Empty);
}

#[test]
fn minter_non_leader_is_silent() {
    let mut m = Minter::new(false, Frontier::At(0));
    assert_eq!(m.phase, MinterPhase::Steady);
    assert_eq!(m.shared_frontier, Frontier::Empty);
    assert_eq!(m.on_desired_progress(Frontier::At(2)), None);
    assert_eq!(m.on_feedback_progress(Frontier::At(1)), None);
    assert_eq!(m.shared_frontier, Frontier::Empty);
    assert_eq!(m.capability, Frontier::Empty);
}

#[test]
fn minter_last_time_drops_capability() {
    let mut m = steady_leader(0, u64::MAX);
    let d = m.on_desired_progress(Frontier::Empty).unwrap();
    assert_eq!(d, Description { lower: Frontier::At(u64::MAX), upper: Frontier::Empty });
    assert_eq!(m.capability, Frontier::Empty);
}

#[test]
fn minter_terminates_when_inputs_drain() {
    let mut m = steady_leader(0, 0);
    m.on_inputs_exhausted();
    assert_eq!(m.phase, MinterPhase::Terminated);
    assert_eq!(m.capability, Frontier::Empty);
}
