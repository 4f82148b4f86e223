use persist_sink::{Appender, AppenderError, Description, Frontier};

fn desc(lower: u64, upper: u64) -> Description {
    Description { lower: Frontier::At(lower), upper: Frontier::At(upper) }
}

#[test]
fn appender_commits_done_description_with_its_artifacts() {
    let mut a: Appender<&str> = Appender::new(true);
    a.on_description(desc(0, 2)).unwrap();
    a.on_batch(desc(0, 2), "w0");
    a.on_batch(desc(0, 2), "w3");
    assert!(a.next_commit().is_none());
    a.on_batches_progress(Frontier::At(1));
    let req = a.next_commit().unwrap();
    assert_eq!(req.description, desc(0, 2));
    assert_eq!(req.batches, vec!["w0", "w3"]);
    assert!(a.next_commit().is_none());
    assert!(!a.on_commit_result(&req.description, Ok(())));
    assert_eq!(a.capability, Frontier::At(2));
    assert!(a.artifacts.is_empty());
}

#[test]
fn appender_deletes_on_conflict() {
    let mut a: Appender<u32> = Appender::new(true);
    a.on_description(desc(0, 2)).unwrap();
    a.on_batch(desc(0, 2), 11);
    a.on_batches_progress(Frontier::At(1));
    let req = a.next_commit().unwrap();
    assert!(a.on_commit_result(&req.description, Err(Frontier::At(2))));
    assert_eq!(a.capability, Frontier::At(2));
}

#[test]
fn appender_commits_in_increasing_order_and_keeps_other_artifacts() {
    let mut a: Appender<u32> = Appender::new(true);
    a.on_description(desc(0, 2)).unwrap();
    a.on_description(desc(2, 4)).unwrap();
    a.on_description(desc(4, 6)).unwrap();
    a.on_batch(desc(2, 4), 2);
    a.on_batch(desc(0, 2), 1);
    a.on_batch(desc(4, 6), 3);
    a.on_batches_progress(Frontier::At(3));
    let first = a.next_commit().unwrap();
    assert_eq!((first.description, first.batches), (desc(0, 2), vec![1]));
    let second = a.next_commit().unwrap();
    assert_eq!((second.description, second.batches), (desc(2, 4), vec![2]));
    assert!(a.next_commit().is_none());
    assert_eq!(a.artifacts, vec![(desc(4, 6), 3)]);
    assert_eq!(a.descriptions, vec![desc(4, 6)]);
}

#[test]
fn appender_done_description_without_artifacts_commits_empty() {
    let mut a: Appender<u32> = Appender::new(true);
    a.on_description(desc(0, 2)).unwrap();
    a.on_batches_progress(Frontier::At(1));
    let req = a.next_commit().unwrap();
    assert!(req.batches.is_empty());
}

#[test]
fn appender_refuses_repeated_description() {
    let mut a: Appender<u32> = Appender::new(true);
    assert_eq!(a.on_description(desc(0, 2)), Ok(()));
    assert_eq!(a.on_description(desc(0, 2)), Err(AppenderError::DescriptionOutOfOrder));
    assert_eq!(a.on_description(desc(3, 1)), Err(AppenderError::EmptyDescription));
}

#[test]
fn appender_non_leader_stops_at_once() {
    let a: Appender<u32> = Appender::new(false);
    assert!(a.terminated);
    assert_eq!(a.capability, Frontier::Empty);
}

#[test]
fn appender_terminates_when_inputs_drain() {
    let mut a: Appender<u32> = Appender::new(true);
    a.on_inputs_exhausted();
    assert!(a.terminated);
    assert_eq!(a.capability, Frontier::Empty);
}
