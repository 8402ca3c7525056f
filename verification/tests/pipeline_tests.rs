use filewatcher::debounce::flush_lines;
use filewatcher::debounce::format_changed_line;
use filewatcher::debounce::Debouncer;
use filewatcher::debounce::DebouncerAction;
use filewatcher::debounce::DebouncerEvent;
use filewatcher::events::filter_event_paths;
use filewatcher::events::event_relevant;
use filewatcher::events::EventClass;
use filewatcher::snapshot::classify_entry;
use filewatcher::snapshot::diff_snapshots;
use filewatcher::snapshot::ScanAction;
use filewatcher::snapshot::Snapshot;

fn sorted(mut v: Vec<String>) -> Vec<String> {
    v.sort();
    v
}

#[test]
fn burst_of_distinct_paths_flushes_once_with_all() {
    let mut d = Debouncer::new();
    let paths = ["a.php", "b.php", "c.php", "b.php"];
    for p in paths {
        match d.step(DebouncerEvent::Path(p.to_string())) {
            DebouncerAction::Continue => {}
            _ => panic!("no flush may happen mid-burst"),
        }
    }
    match d.step(DebouncerEvent::Timeout) {
        DebouncerAction::Flushed(out) => {
            assert_eq!(sorted(out), vec!["a.php", "b.php", "c.php"]);
        }
        _ => panic!("a timeout after a burst must flush"),
    }
    // The flush drained everything: the next timeout has nothing left.
    match d.step(DebouncerEvent::Timeout) {
        DebouncerAction::Flushed(out) => assert!(out.is_empty()),
        _ => panic!("a timeout must flush"),
    }
}

#[test]
fn duplicate_submissions_coalesce() {
    let mut d = Debouncer::new();
    d.submit("x.php".to_string());
    d.submit("x.php".to_string());
    d.submit("x.php".to_string());
    let out = d.flush();
    assert_eq!(out, vec!["x.php"]);
}

#[test]
fn shutdown_flushes_pending_changes() {
    let mut d = Debouncer::new();
    d.submit("late.php".to_string());
    match d.step(DebouncerEvent::Closed) {
        DebouncerAction::Exit(out) => {
            assert_eq!(out, vec!["late.php"]);
        }
        _ => panic!("a closed intake must flush and exit"),
    }
}

#[test]
fn changed_line_format() {
    let line = format_changed_line("app/a.php");
    assert_eq!(line, "changed: app/a.php");
    let lines = flush_lines(&vec!["a.php".to_string(), "b.php".to_string()]);
    assert_eq!(lines, vec!["changed: a.php", "changed: b.php"]);
}

#[test]
fn polling_detects_create_modify_delete_and_ignores_touch() {
    let mut prev = Snapshot::new();
    prev.record("root/a.php".to_string(), 100);
    prev.record("root/gone.php".to_string(), 50);

    let mut next = Snapshot::new();
    // Same timestamp: unchanged even if content differs.
    next.record("root/a.php".to_string(), 100);
    // New file.
    next.record("root/b.php".to_string(), 200);

    let diff = sorted(diff_snapshots(&prev, &next));
    assert_eq!(diff, vec!["root/b.php", "root/gone.php"]);

    let mut touched = Snapshot::new();
    touched.record("root/a.php".to_string(), 101);
    touched.record("root/gone.php".to_string(), 50);
    let diff2 = diff_snapshots(&prev, &touched);
    assert_eq!(diff2, vec!["root/a.php"]);
}

#[test]
fn snapshot_record_replaces() {
    let mut s = Snapshot::new();
    s.record("a.php".to_string(), 1);
    s.record("a.php".to_string(), 2);
    assert_eq!(s.get("a.php"), Some(2));
    assert_eq!(s.get("b.php"), None);
}

#[test]
fn event_kinds_relevance() {
    assert!(event_relevant(&EventClass::Create));
    assert!(event_relevant(&EventClass::Write));
    assert!(event_relevant(&EventClass::Remove));
    assert!(event_relevant(&EventClass::Other));
    assert!(!event_relevant(&EventClass::MetadataOnly));
    assert!(!event_relevant(&EventClass::Access));
}

#[test]
fn extension_filtering_scenario() {
    // Root holds a.php; the filter is "php". A new b.txt produces no
    // output; a new b.php produces exactly one changed line for it.
    let exts = vec![".php".to_string()];
    let mut d = Debouncer::new();

    let txt = filter_event_paths(
        &EventClass::Create,
        &vec!["root/b.txt".to_string()],
        &exts,
    );
    assert!(txt.is_empty());

    let php = filter_event_paths(
        &EventClass::Create,
        &vec!["root/b.php".to_string()],
        &exts,
    );
    for p in php {
        d.submit(p);
    }
    let lines = flush_lines(&d.flush());
    assert_eq!(lines, vec!["changed: root/b.php"]);
}

#[test]
fn ignored_directories_scenario_event_mode() {
    // Writes under .git and vendor never produce output.
    let exts = vec![".php".to_string()];
    let out = filter_event_paths(
        &EventClass::Write,
        &vec![
            "root/.git/config.php".to_string(),
            "root/vendor/lib.php".to_string(),
        ],
        &exts,
    );
    assert!(out.is_empty());
}

#[test]
fn ignored_directories_scenario_polling_mode() {
    // The tree walk prunes ignored directories without descending, so
    // their files never enter a snapshot.
    let exts = vec![".php".to_string()];
    assert!(matches!(
        classify_entry("root/.git", true, &exts),
        ScanAction::Skip
    ));
    assert!(matches!(
        classify_entry("root/vendor", true, &exts),
        ScanAction::Skip
    ));
    assert!(matches!(
        classify_entry("root/app", true, &exts),
        ScanAction::Descend
    ));
    assert!(matches!(
        classify_entry("root/app.php", false, &exts),
        ScanAction::Record
    ));
    assert!(matches!(
        classify_entry("root/readme.txt", false, &exts),
        ScanAction::Skip
    ));
}

#[test]
fn dot_named_file_suppressed_in_both_modes() {
    // A hidden file directly in a watched directory is ignored by the
    // tree walk and by the event filter alike.
    let exts = vec![".php".to_string()];
    assert!(matches!(
        classify_entry("root/.hidden.php", false, &exts),
        ScanAction::Skip
    ));
    let out = filter_event_paths(
        &EventClass::Create,
        &vec!["root/.hidden.php".to_string()],
        &exts,
    );
    assert!(out.is_empty());
}

#[test]
fn metadata_and_access_events_are_dropped() {
    let exts = vec![".php".to_string()];
    let meta = filter_event_paths(
        &EventClass::MetadataOnly,
        &vec!["root/a.php".to_string()],
        &exts,
    );
    assert!(meta.is_empty());
    let access = filter_event_paths(
        &EventClass::Access,
        &vec!["root/a.php".to_string()],
        &exts,
    );
    assert!(access.is_empty());
}
