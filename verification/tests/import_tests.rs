use fbv::index::{
    after_insert, settle, store_step, worker_count, FileOutcome, HashLookup, ImportEvent, ImportProgress, ImportTally,
    StoreStep,
};

fn counts(t: &ImportTally) -> (usize, usize, usize, usize) {
    (t.imported, t.failed, t.known, t.skipped)
}

#[test]
fn settle_counts_each_outcome_once() {
    let mut t = ImportTally::new();
    let (ev, q) = settle(&mut t, "a.brd".to_string(), FileOutcome::Unchanged);
    assert!(matches!(ev, ImportEvent::Skipped { ref path } if path == "a.brd"));
    assert!(q.is_none());
    assert_eq!(counts(&t), (0, 0, 0, 1));

    let (ev, q) = settle(&mut t, "b.brd".to_string(), FileOutcome::Inserted(7));
    assert!(matches!(ev, ImportEvent::Imported { ref path, board_id: 7 } if path == "b.brd"));
    assert!(q.is_none());
    assert_eq!(counts(&t), (1, 0, 0, 1));

    let (ev, q) = settle(&mut t, "c.brd".to_string(), FileOutcome::Duplicate(7));
    assert!(matches!(ev, ImportEvent::AlreadyKnown { ref path, board_id: 7 } if path == "c.brd"));
    assert!(q.is_none());
    assert_eq!(counts(&t), (1, 0, 1, 1));

    let ev = t.finished();
    assert!(matches!(ev, ImportEvent::Finished { imported: 1, failed: 0, known: 1, skipped: 1 }));
}

#[test]
fn settle_quarantines_parse_and_insert_failures_only() {
    let mut t = ImportTally::new();
    let (ev, q) = settle(&mut t, "x.fz".to_string(), FileOutcome::ParseFailed("unrecognized format".to_string()));
    assert!(matches!(ev, ImportEvent::Failed { ref reason, .. } if reason == "unrecognized format"));
    assert_eq!(q.as_deref(), Some("unrecognized format"));

    let (ev, q) = settle(&mut t, "y.brd".to_string(), FileOutcome::InsertFailed("disk full".to_string()));
    assert!(matches!(ev, ImportEvent::Failed { ref path, ref reason } if path == "y.brd" && reason == "disk full"));
    assert_eq!(q.as_deref(), Some("db error: disk full"));

    let (ev, q) = settle(&mut t, "z.brd".to_string(), FileOutcome::LookupFailed("locked".to_string()));
    assert!(matches!(ev, ImportEvent::Failed { ref reason, .. } if reason == "locked"));
    assert!(q.is_none());
    assert_eq!(counts(&t), (0, 3, 0, 0));
}

#[test]
fn worker_count_rule() {
    assert_eq!(worker_count(None), 2);
    assert_eq!(worker_count(Some(1)), 1);
    assert_eq!(worker_count(Some(2)), 1);
    assert_eq!(worker_count(Some(4)), 3);
    assert_eq!(worker_count(Some(9)), 8);
    assert_eq!(worker_count(Some(64)), 8);
}

#[test]
fn progress_counts_outcomes_and_shows_last_name() {
    let mut p = ImportProgress::new();
    p.record(&ImportEvent::Discovered(3));
    assert_eq!((p.total, p.done), (3, 0));
    p.record(&ImportEvent::Skipped { path: "/lib/a.brd".to_string() });
    assert_eq!((p.done, p.changed, p.last.as_str()), (1, false, ""));
    p.record(&ImportEvent::Imported { path: "/lib/b/820-00840.brd".to_string(), board_id: 4 });
    assert_eq!((p.done, p.changed, p.last.as_str()), (2, true, "820-00840.brd"));
    p.changed = false;
    p.record(&ImportEvent::Failed { path: "/lib/c.fz".to_string(), reason: "x".to_string() });
    assert_eq!((p.done, p.changed, p.last.as_str()), (3, true, "c.fz"));
    p.record(&ImportEvent::Finished { imported: 1, failed: 1, known: 0, skipped: 1 });
    assert!(p.finished);
}

#[test]
fn store_step_follows_the_lookup() {
    match store_step(HashLookup::Found(4), Some("820-00165".to_string())) {
        StoreStep::Attach { board, oem_code } => {
            assert_eq!(board, 4);
            assert_eq!(oem_code.as_deref(), Some("820-00165"));
        }
        _ => panic!("a known board takes the file"),
    }
    match store_step(HashLookup::Found(9), None) {
        StoreStep::Attach { board, oem_code } => {
            assert_eq!(board, 9);
            assert!(oem_code.is_none());
        }
        _ => panic!("a known board takes the file"),
    }
    assert!(matches!(store_step(HashLookup::Absent, Some("x".to_string())), StoreStep::Insert));
    match store_step(HashLookup::Failed("locked".to_string()), None) {
        StoreStep::Done(FileOutcome::LookupFailed(m)) => assert_eq!(m, "locked"),
        _ => panic!("a failed lookup ends the file"),
    }
}

#[test]
fn after_insert_caches_only_new_boards() {
    let (o, keep) = after_insert(Ok(12));
    assert!(matches!(o, FileOutcome::Inserted(12)));
    assert!(keep);
    let (o, keep) = after_insert(Err("disk full".to_string()));
    assert!(matches!(o, FileOutcome::InsertFailed(ref m) if m == "disk full"));
    assert!(!keep);
}
