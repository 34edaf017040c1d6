use bulk_rename::session::{is_yes, Action, BulkRename, Event, Phase, Reason};

fn strings(v: &[&str]) -> Vec<String> {
    v.iter().map(|s| s.to_string()).collect()
}

#[test]
fn count_mismatch_renames_nothing() {
    let (mut b, a) = BulkRename::start(strings(&["a", "b"]), strings(&["c"]));
    assert!(matches!(a, Action::Mismatch));
    assert!(matches!(b.phase, Phase::Done));
    assert!(b.todo.is_empty());
    assert!(matches!(b.step(Event::Answer(b'y')), Action::Done));
    assert!(matches!(b.step(Event::Probed(false)), Action::Done));
    assert!(b.failed.is_empty() && b.succeeded.is_empty());
}

#[test]
fn empty_batch_is_over_at_once() {
    let (b, a) = BulkRename::start(Vec::new(), Vec::new());
    assert!(matches!(a, Action::Done));
    assert!(matches!(b.phase, Phase::Done));
}

#[test]
fn declined_batch_renames_nothing() {
    let (mut b, a) = BulkRename::start(strings(&["a"]), strings(&["b"]));
    assert!(matches!(a, Action::Confirm));
    assert!(matches!(b.step(Event::Answer(b'n')), Action::Done));
    assert!(matches!(b.phase, Phase::Done));
}

#[test]
fn confirmed_batch_runs_in_order_and_reports_a_collision() {
    let (mut b, a) = BulkRename::start(strings(&["a", "b"]), strings(&["b", "c"]));
    assert!(matches!(a, Action::Confirm));
    assert_eq!(b.plan_line(0), "b -> c");
    assert_eq!(b.plan_line(1), "a -> b");
    assert!(matches!(b.step(Event::Answer(b'Y')), Action::Probe(0)));
    assert!(matches!(b.step(Event::Probed(false)), Action::Rename(0)));
    assert!(matches!(b.step(Event::Renamed(Ok(()))), Action::Inspect(0)));
    assert!(matches!(b.step(Event::Inspected(true)), Action::Probe(1)));
    assert!(matches!(b.step(Event::Probed(true)), Action::Report));
    assert_eq!(b.succeeded, vec![0]);
    assert_eq!(b.failed.len(), 1);
    assert_eq!(b.failed[0].index, 1);
    assert!(matches!(b.failed[0].reason, Reason::Exists));
    assert_eq!(b.failure_line(0), "a -> b: Destination already exists");
    assert!(matches!(b.step(Event::Acknowledged), Action::Done));
}

#[test]
fn cycle_surfaces_a_collision_for_the_second_pair() {
    let (mut b, _) = BulkRename::start(strings(&["a", "b"]), strings(&["b", "a"]));
    assert_eq!(b.plan_line(0), "a -> b");
    assert!(matches!(b.step(Event::Answer(b'y')), Action::Probe(0)));
    assert!(matches!(b.step(Event::Probed(true)), Action::Probe(1)));
    assert!(matches!(b.step(Event::Probed(true)), Action::Report));
    assert_eq!(b.failed.len(), 2);
}

#[test]
fn rename_onto_itself_is_never_a_collision() {
    let (mut b, _) = BulkRename::start(strings(&["a"]), strings(&["a"]));
    assert!(matches!(b.step(Event::Answer(b'y')), Action::Rename(0)));
    assert!(matches!(b.step(Event::Renamed(Ok(()))), Action::Inspect(0)));
    assert!(matches!(b.step(Event::Inspected(true)), Action::Done));
    assert!(b.failed.is_empty());
}

#[test]
fn io_and_info_failures_are_recorded_and_the_batch_goes_on() {
    let (mut b, _) = BulkRename::start(strings(&["a", "x"]), strings(&["b", "y"]));
    assert!(matches!(b.step(Event::Answer(b'y')), Action::Probe(0)));
    assert!(matches!(b.step(Event::Probed(false)), Action::Rename(0)));
    let a = b.step(Event::Renamed(Err("Permission denied".to_string())));
    assert!(matches!(a, Action::Probe(1)));
    assert!(matches!(b.step(Event::Probed(false)), Action::Rename(1)));
    assert!(matches!(b.step(Event::Renamed(Ok(()))), Action::Inspect(1)));
    assert!(matches!(b.step(Event::Inspected(false)), Action::Report));
    assert_eq!(b.failure_line(0), "a -> b: Permission denied");
    assert_eq!(b.failure_line(1), "x -> y: Failed to retrieve file info");
    assert!(b.succeeded.is_empty());
}

#[test]
fn unexpected_event_asks_again() {
    let (mut b, _) = BulkRename::start(strings(&["a"]), strings(&["b"]));
    assert!(matches!(b.step(Event::Probed(true)), Action::Confirm));
    assert!(matches!(b.phase, Phase::Confirming));
}

#[test]
fn only_y_confirms() {
    assert!(is_yes(b'y'));
    assert!(is_yes(b'Y'));
    assert!(!is_yes(b'n'));
    assert!(!is_yes(b'\n'));
}
