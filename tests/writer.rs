use persist_sink::{Description, Frontier, Writer, WriterError};

fn desc(lower: u64, upper: u64) -> Description {
    Description { lower: Frontier::At(lower), upper: Frontier::At(upper) }
}

/// Brings every input frontier of `w` to the given values, collecting batches.
fn advance(w: &mut Writer, descs: u64, desired: u64, persist: u64) -> Vec<(Description, Vec<(u64, u64, i64)>)> {
    let mut out = Vec::new();
    for r in w.on_persist_progress(Frontier::At(persist)) {
        out.push((r.description, r.updates));
    }
    for r in w.on_desired_progress(Frontier::At(desired)) {
        out.push((r.description, r.updates));
    }
    for r in w.on_descriptions_progress(Frontier::At(descs)) {
        out.push((r.description, r.updates));
    }
    out
}

#[test]
fn writer_single_insert_gives_one_batch() {
    let mut w = Writer::new();
    w.on_desired_data(&vec![(7, 1, 1)]).unwrap();
    w.on_description(desc(0, 2)).unwrap();
    let out = advance(&mut w, 1, 2, 0);
    assert_eq!(out, vec![(desc(0, 2), vec![(7, 1, 1)])]);
    assert!(w.in_flight.is_empty());
    // The description is written once only.
    assert!(advance(&mut w, 3, 3, 0).is_empty());
}

#[test]
fn writer_waits_for_all_three_frontiers() {
    let mut w = Writer::new();
    w.on_desired_data(&vec![(7, 1, 1)]).unwrap();
    w.on_description(desc(0, 2)).unwrap();
    // The descriptions frontier is still at the lower.
    assert!(advance(&mut w, 0, 2, 0).is_empty());
    // The desired frontier is below the upper.
    assert!(advance(&mut w, 1, 1, 0).is_empty());
    assert_eq!(w.in_flight.len(), 1);
    assert_eq!(advance(&mut w, 1, 2, 0).len(), 1);
}

#[test]
fn writer_empty_window_gives_no_batch() {
    let mut w = Writer::new();
    w.on_desired_data(&vec![(7, 5, 1)]).unwrap();
    w.on_description(desc(0, 2)).unwrap();
    assert!(advance(&mut w, 1, 2, 0).is_empty());
    assert!(w.in_flight.is_empty());
}

#[test]
fn writer_cancelling_updates_give_no_batch() {
    let mut w = Writer::new();
    w.on_desired_data(&vec![(7, 1, 1)]).unwrap();
    w.on_persist_data(&vec![(7, 1, 1)]).unwrap();
    assert_eq!(w.correction, vec![(7, 1, 1), (7, 1, -1)]);
    w.on_description(desc(0, 2)).unwrap();
    assert!(advance(&mut w, 1, 2, 0).is_empty());
    assert!(w.correction.is_empty());
}

#[test]
fn writer_insert_then_retract_in_one_batch() {
    let mut w = Writer::new();
    w.on_desired_data(&vec![(7, 1, 1)]).unwrap();
    w.on_desired_data(&vec![(7, 2, -1)]).unwrap();
    w.on_description(desc(0, 3)).unwrap();
    let out = advance(&mut w, 1, 3, 0);
    assert_eq!(out, vec![(desc(0, 3), vec![(7, 1, 1), (7, 2, -1)])]);
}

#[test]
fn writer_read_back_is_negated() {
    let mut w = Writer::new();
    w.on_persist_data(&vec![(7, 1, 1)]).unwrap();
    w.on_description(desc(0, 2)).unwrap();
    let out = advance(&mut w, 1, 2, 0);
    assert_eq!(out, vec![(desc(0, 2), vec![(7, 1, -1)])]);
}

#[test]
fn writer_advances_times_to_persist_frontier() {
    let mut w = Writer::new();
    w.on_desired_data(&vec![(3, 1, 2), (3, 4, 1)]).unwrap();
    w.on_description(desc(2, 5)).unwrap();
    let out = advance(&mut w, 3, 5, 2);
    assert_eq!(out, vec![(desc(2, 5), vec![(3, 2, 2), (3, 4, 1)])]);
}

#[test]
fn writer_refuses_repeated_or_empty_description() {
    let mut w = Writer::new();
    assert_eq!(w.on_description(desc(0, 2)), Ok(()));
    assert_eq!(w.on_description(desc(0, 2)), Err(WriterError::DescriptionOutOfOrder));
    assert_eq!(w.on_description(desc(2, 2)), Err(WriterError::EmptyDescription));
    assert_eq!(w.on_description(desc(2, 4)), Ok(()));
    assert_eq!(w.in_flight.len(), 2);
}

#[test]
fn writer_refuses_overflowing_diffs() {
    let mut w = Writer::new();
    assert_eq!(w.on_desired_data(&vec![(1, 1, i64::MAX)]), Ok(()));
    assert_eq!(w.on_persist_data(&vec![(2, 1, 1)]), Err(WriterError::CorrectionOverflow));
    assert_eq!(w.correction, vec![(1, 1, i64::MAX)]);
    let mut v = Writer::new();
    assert_eq!(v.on_persist_data(&vec![(1, 1, i64::MIN)]), Err(WriterError::CorrectionOverflow));
    assert!(v.correction.is_empty());
}

#[test]
fn writer_waits_for_read_back_before_next_description() {
    let mut w = Writer::new();
    w.on_desired_data(&vec![(1, 0, 1), (2, 3, 1), (1, 0, 1)]).unwrap();
    w.on_description(desc(0, 2)).unwrap();
    w.on_description(desc(2, 4)).unwrap();
    // The second description waits for the persist frontier to reach its lower.
    let out = advance(&mut w, 3, 4, 0);
    assert_eq!(out, vec![(desc(0, 2), vec![(1, 0, 2)])]);
    assert_eq!(w.correction, vec![(1, 0, 2), (2, 3, 1)]);
    // The first batch is read back once committed, and cancels out.
    w.on_persist_data(&vec![(1, 0, 2)]).unwrap();
    let out = advance(&mut w, 3, 4, 2);
    assert_eq!(out, vec![(desc(2, 4), vec![(2, 3, 1)])]);
    assert_eq!(w.correction, vec![(2, 3, 1)]);
}

#[test]
fn writer_output_frontier_held_at_in_flight_lower() {
    let mut w = Writer::new();
    assert_eq!(w.output_frontier(), Frontier::At(0));
    w.on_description(desc(3, 6)).unwrap();
    w.on_descriptions_progress(Frontier::At(4));
    w.on_desired_progress(Frontier::At(5));
    assert_eq!(w.output_frontier(), Frontier::At(3));
    // Once written, the description no longer holds the output back.
    w.on_persist_progress(Frontier::At(3));
    w.on_desired_progress(Frontier::At(6));
    assert!(w.in_flight.is_empty());
    assert_eq!(w.output_frontier(), Frontier::At(4));
}
