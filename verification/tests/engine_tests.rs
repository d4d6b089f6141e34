use tidybee_agent::coordinator::{apply_event, warm, ChangeEvent, Coordinator, Phase};
use tidybee_agent::descriptor::{EntryKind, FileDescriptor, Filter, TypeFilter};
use tidybee_agent::lister::{ListerError, Scanner};
use tidybee_agent::store::Store;
use tidybee_agent::watcher::{Debouncer, RawKind};

fn fd(path: &str, kind: EntryKind, size: u64, modified_at: u64, extension: Option<&str>) -> FileDescriptor {
    FileDescriptor {
        path: path.to_string(),
        kind,
        size,
        modified_at,
        extension: extension.map(String::from),
    }
}

#[test]
fn store_upsert_get_remove() {
    let mut store = Store::new();
    store.init();
    store.upsert(fd("/t/a.pdf", EntryKind::Regular, 10, 1, Some("pdf")));
    let got = store.get(&"/t/a.pdf".to_string()).expect("present");
    assert_eq!(got.size, 10);
    assert_eq!(got.kind, EntryKind::Regular);
    assert_eq!(got.extension.as_deref(), Some("pdf"));
    store.upsert(fd("/t/a.pdf", EntryKind::Regular, 15, 2, Some("pdf")));
    assert_eq!(store.len(), 1);
    let got = store.get(&"/t/a.pdf".to_string()).expect("present");
    assert_eq!(got.size, 15);
    assert_eq!(got.modified_at, 2);
    store.remove(&"/t/a.pdf".to_string());
    assert!(store.get(&"/t/a.pdf".to_string()).is_none());
    assert_eq!(store.len(), 0);
}

#[test]
fn store_list_keeps_insertion_order() {
    let mut store = Store::new();
    store.upsert(fd("/t/a", EntryKind::Regular, 1, 1, None));
    store.upsert(fd("/t/b", EntryKind::Directory, 0, 1, None));
    let all = store.list();
    assert_eq!(all.len(), 2);
    assert_eq!(all[0].path, "/t/a");
    assert_eq!(all[1].path, "/t/b");
}

#[test]
fn created_modified_removed_leaves_path_absent() {
    let mut store = Store::new();
    let p = "/t/x".to_string();
    apply_event(
        &mut store,
        &ChangeEvent::Created { path: p.clone(), observed_at: 1 },
        Some(fd("/t/x", EntryKind::Regular, 4, 1, None)),
    );
    apply_event(
        &mut store,
        &ChangeEvent::Modified { path: p.clone(), observed_at: 2 },
        Some(fd("/t/x", EntryKind::Regular, 9, 2, None)),
    );
    apply_event(&mut store, &ChangeEvent::Removed { path: p.clone(), observed_at: 3 }, None);
    assert!(store.get(&p).is_none());
}

#[test]
fn modified_for_unknown_path_acts_like_created() {
    let mut via_modified = Store::new();
    let mut via_created = Store::new();
    let reread = fd("/t/y", EntryKind::Regular, 7, 5, None);
    apply_event(
        &mut via_modified,
        &ChangeEvent::Modified { path: "/t/y".to_string(), observed_at: 5 },
        Some(reread.duplicate()),
    );
    apply_event(
        &mut via_created,
        &ChangeEvent::Created { path: "/t/y".to_string(), observed_at: 5 },
        Some(reread),
    );
    let a = via_modified.get(&"/t/y".to_string()).expect("present");
    let b = via_created.get(&"/t/y".to_string()).expect("present");
    assert_eq!(a.size, b.size);
    assert_eq!(a.modified_at, b.modified_at);
    assert_eq!(a.kind, b.kind);
}

#[test]
fn renamed_moves_the_descriptor() {
    let mut store = Store::new();
    store.upsert(fd("/t/old", EntryKind::Regular, 3, 1, None));
    apply_event(
        &mut store,
        &ChangeEvent::Renamed {
            from: "/t/old".to_string(),
            to: "/t/new".to_string(),
            observed_at: 2,
        },
        Some(fd("/t/new", EntryKind::Regular, 3, 2, None)),
    );
    assert!(store.get(&"/t/old".to_string()).is_none());
    assert_eq!(store.get(&"/t/new".to_string()).expect("present").size, 3);
}

#[test]
fn scan_counts_files_and_subdirectories() {
    // A tree with two regular files and one subdirectory: the scan finds
    // exactly three descriptors.
    let mut scanner = Scanner::new("/r".to_string(), Filter::keep_all());
    let root_dir = scanner.next_dir().expect("root first");
    assert_eq!(root_dir, "/r");
    scanner.record_listing(&vec![
        fd("/r/a.pdf", EntryKind::Regular, 10, 1, Some("pdf")),
        fd("/r/sub", EntryKind::Directory, 0, 1, None),
    ]);
    let sub = scanner.next_dir().expect("subdirectory queued");
    assert_eq!(sub, "/r/sub");
    scanner.record_listing(&vec![fd("/r/sub/b.txt", EntryKind::Regular, 2, 1, Some("txt"))]);
    assert!(scanner.next_dir().is_none());
    let found = scanner.finish().ok().expect("scan succeeds");
    assert_eq!(found.len(), 3);
    assert_eq!(found[0].path, "/r/a.pdf");
    assert_eq!(found[1].path, "/r/sub");
    assert_eq!(found[2].path, "/r/sub/b.txt");
}

#[test]
fn scan_does_not_reenter_a_visited_directory() {
    // A link cycle: the subdirectory lists the root again. The root is
    // never handed out twice.
    let mut scanner = Scanner::new("/r".to_string(), Filter::keep_all());
    let first = scanner.next_dir().expect("root first");
    assert_eq!(first, "/r");
    scanner.record_listing(&vec![fd("/r/sub", EntryKind::Directory, 0, 1, None)]);
    let sub = scanner.next_dir().expect("subdirectory");
    assert_eq!(sub, "/r/sub");
    scanner.record_listing(&vec![fd("/r", EntryKind::Directory, 0, 1, None)]);
    assert!(scanner.next_dir().is_none());
    let found = scanner.finish().ok().expect("scan succeeds");
    assert_eq!(found.len(), 2);
}

#[test]
fn scan_filters_by_extension_and_type() {
    let filter = Filter {
        type_filter: TypeFilter::Regular,
        extensions: Some(vec!["pdf".to_string()]),
    };
    let mut scanner = Scanner::new("/r".to_string(), filter);
    scanner.next_dir().expect("root");
    scanner.record_listing(&vec![
        fd("/r/a.pdf", EntryKind::Regular, 10, 1, Some("pdf")),
        fd("/r/b.txt", EntryKind::Regular, 5, 1, Some("txt")),
        fd("/r/sub", EntryKind::Directory, 0, 1, None),
    ]);
    // The subdirectory is still descended into even though it is filtered
    // out of the results.
    let sub = scanner.next_dir().expect("subdirectory still scanned");
    assert_eq!(sub, "/r/sub");
    scanner.record_listing(&vec![fd("/r/sub/c.pdf", EntryKind::Regular, 1, 1, Some("pdf"))]);
    let found = scanner.finish().ok().expect("scan succeeds");
    let paths: Vec<&str> = found.iter().map(|d| d.path.as_str()).collect();
    assert_eq!(paths, vec!["/r/a.pdf", "/r/sub/c.pdf"]);
}

#[test]
fn unreadable_entry_is_skipped_but_root_failure_aborts() {
    let mut scanner = Scanner::new("/r".to_string(), Filter::keep_all());
    scanner.next_dir().expect("root");
    scanner.record_listing(&vec![
        fd("/r/sub", EntryKind::Directory, 0, 1, None),
        fd("/r/a", EntryKind::Regular, 1, 1, None),
    ]);
    let sub = scanner.next_dir().expect("subdirectory");
    scanner.record_failure(&sub);
    let found = scanner.finish().ok().expect("one bad subdirectory does not abort");
    assert_eq!(found.len(), 2);

    let mut failing = Scanner::new("/gone".to_string(), Filter::keep_all());
    let root = failing.next_dir().expect("root");
    failing.record_failure(&root);
    match failing.finish() {
        Err(ListerError::RootUnavailable(p)) => assert_eq!(p, "/gone"),
        _ => panic!("expected RootUnavailable"),
    }
}

#[test]
fn warming_equals_the_scan_snapshot() {
    let snapshot = vec![
        fd("/r/a.pdf", EntryKind::Regular, 10, 1, Some("pdf")),
        fd("/r/sub", EntryKind::Directory, 0, 1, None),
        fd("/r/sub/b.txt", EntryKind::Regular, 2, 1, Some("txt")),
    ];
    let mut store = Store::new();
    store.init();
    warm(&mut store, &snapshot);
    let listed = store.list();
    assert_eq!(listed.len(), snapshot.len());
    for (got, want) in listed.iter().zip(snapshot.iter()) {
        assert_eq!(got.path, want.path);
        assert_eq!(got.size, want.size);
        assert_eq!(got.kind, want.kind);
    }
}

#[test]
fn two_writes_in_window_collapse_to_one_modified() {
    let mut deb = Debouncer::new(100);
    assert!(deb.offer("/t/a".to_string(), RawKind::Write, 10).is_none());
    assert!(deb.offer("/t/a".to_string(), RawKind::Write, 50).is_none());
    let out = deb.drain_due(200);
    assert_eq!(out.len(), 1);
    match &out[0] {
        ChangeEvent::Modified { path, observed_at } => {
            assert_eq!(path, "/t/a");
            assert_eq!(*observed_at, 10);
        }
        _ => panic!("expected one Modified"),
    }
    assert!(deb.drain_due(1000).is_empty());
}

#[test]
fn create_then_write_stays_one_created() {
    let mut deb = Debouncer::new(100);
    assert!(deb.offer("/t/new".to_string(), RawKind::Create, 10).is_none());
    assert!(deb.offer("/t/new".to_string(), RawKind::Write, 60).is_none());
    let out = deb.drain_due(200);
    assert_eq!(out.len(), 1);
    assert!(matches!(&out[0], ChangeEvent::Created { observed_at: 10, .. }));
}

#[test]
fn create_then_remove_in_window_becomes_removed() {
    let mut deb = Debouncer::new(100);
    deb.offer("/t/tmp".to_string(), RawKind::Create, 10);
    deb.offer("/t/tmp".to_string(), RawKind::Remove, 20);
    let out = deb.drain_due(500);
    assert_eq!(out.len(), 1);
    assert!(matches!(&out[0], ChangeEvent::Removed { .. }));
}

#[test]
fn write_after_window_flushes_the_stale_event() {
    let mut deb = Debouncer::new(100);
    assert!(deb.offer("/t/a".to_string(), RawKind::Write, 10).is_none());
    let flushed = deb.offer("/t/a".to_string(), RawKind::Write, 500).expect("stale entry flushed");
    assert!(matches!(flushed, ChangeEvent::Modified { observed_at: 10, .. }));
    let out = deb.drain_due(700);
    assert_eq!(out.len(), 1);
    assert!(matches!(&out[0], ChangeEvent::Modified { observed_at: 500, .. }));
}

#[test]
fn distinct_paths_do_not_coalesce() {
    let mut deb = Debouncer::new(100);
    deb.offer("/t/a".to_string(), RawKind::Write, 10);
    deb.offer("/t/b".to_string(), RawKind::Write, 20);
    let out = deb.drain_due(500);
    assert_eq!(out.len(), 2);
}

#[test]
fn events_during_warming_are_buffered_in_order() {
    let mut coord = Coordinator::new();
    assert_eq!(coord.phase(), Phase::Warming);
    assert!(coord
        .accept(ChangeEvent::Created { path: "/t/a".to_string(), observed_at: 1 })
        .is_none());
    assert!(coord
        .accept(ChangeEvent::Removed { path: "/t/b".to_string(), observed_at: 2 })
        .is_none());
    let buffered = coord.finish_warming();
    assert_eq!(coord.phase(), Phase::Live);
    assert_eq!(buffered.len(), 2);
    assert!(matches!(&buffered[0], ChangeEvent::Created { observed_at: 1, .. }));
    assert!(matches!(&buffered[1], ChangeEvent::Removed { observed_at: 2, .. }));
    let now = coord.accept(ChangeEvent::Modified { path: "/t/a".to_string(), observed_at: 3 });
    assert!(matches!(now, Some(ChangeEvent::Modified { .. })));
}

#[test]
fn end_to_end_scan_update_delete() {
    // A root with one 10-byte file before startup; after warming the store
    // has it. An append grows it to 15 bytes; after the debounced event is
    // applied the store sees 15. A deletion removes it.
    let mut scanner = Scanner::new("/tmp/t".to_string(), Filter::keep_all());
    let root = scanner.next_dir().expect("root");
    assert_eq!(root, "/tmp/t");
    scanner.record_listing(&vec![fd("/tmp/t/a.pdf", EntryKind::Regular, 10, 100, Some("pdf"))]);
    assert!(scanner.next_dir().is_none());
    let snapshot = scanner.finish().ok().expect("scan succeeds");

    let mut store = Store::new();
    store.init();
    let mut coord = Coordinator::new();
    warm(&mut store, &snapshot);
    for buffered in coord.finish_warming() {
        apply_event(&mut store, &buffered, None);
    }
    let path = "/tmp/t/a.pdf".to_string();
    let got = store.get(&path).expect("warmed");
    assert_eq!(got.size, 10);
    assert_eq!(got.kind, EntryKind::Regular);

    // Two raw writes within the debounce window: one Modified event.
    let mut deb = Debouncer::new(50);
    assert!(deb.offer(path.clone(), RawKind::Write, 200).is_none());
    assert!(deb.offer(path.clone(), RawKind::Write, 230).is_none());
    let events = deb.drain_due(300);
    assert_eq!(events.len(), 1);
    for ev in events {
        if let Some(to_apply) = coord.accept(ev) {
            apply_event(
                &mut store,
                &to_apply,
                Some(fd("/tmp/t/a.pdf", EntryKind::Regular, 15, 230, Some("pdf"))),
            );
        }
    }
    let got = store.get(&path).expect("still indexed");
    assert_eq!(got.size, 15);

    deb.offer(path.clone(), RawKind::Remove, 400);
    for ev in deb.drain_due(500) {
        if let Some(to_apply) = coord.accept(ev) {
            apply_event(&mut store, &to_apply, None);
        }
    }
    assert!(store.get(&path).is_none());
}
