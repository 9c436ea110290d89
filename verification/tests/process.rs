use rinit::process::{reap_step, ChildExit, ProcessTable, ReapStep, WaitOutcome};

#[test]
fn exit_status_is_recorded() {
    assert_eq!(
        reap_step(WaitOutcome::Exited { pid: 7, status: 3 }),
        ReapStep::Record(ChildExit { pid: 7, status: 3, was_signaled: false })
    );
}

#[test]
fn death_by_signal_is_128_plus_the_signal() {
    assert_eq!(
        reap_step(WaitOutcome::Signaled { pid: 8, signal: 9 }),
        ReapStep::Record(ChildExit { pid: 8, status: 137, was_signaled: true })
    );
}

#[test]
fn other_wait_outcomes() {
    assert_eq!(reap_step(WaitOutcome::Other), ReapStep::Continue);
    assert_eq!(reap_step(WaitOutcome::StillRunning), ReapStep::Done);
    assert_eq!(reap_step(WaitOutcome::NoChildren), ReapStep::Done);
    assert_eq!(reap_step(WaitOutcome::Failed), ReapStep::Fail);
}

#[test]
fn process_table_records_and_forgets() {
    let mut t = ProcessTable::new();
    assert!(t.is_empty());
    t.insert(10, "a.service".to_string());
    t.insert(11, "b.service".to_string());
    t.insert(10, "c.service".to_string());
    assert_eq!(t.len(), 2);
    assert_eq!(t.get(10).map(|s| s.as_str()), Some("c.service"));
    assert_eq!(t.get(12), None);
    let mut pids = t.pids();
    pids.sort();
    assert_eq!(pids, vec![10, 11]);
    assert_eq!(t.remove(10), Some("c.service".to_string()));
    assert_eq!(t.remove(10), None);
    assert_eq!(t.len(), 1);
    assert_eq!(t.get(11).map(|s| s.as_str()), Some("b.service"));
}
