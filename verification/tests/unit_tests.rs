use indexer_walker::db::{
    u64_from_be_bytes, u64_to_be_bytes, FilePathRecord, InMemoryStore,
};
use indexer_walker::error::{IndexerError, NonCriticalIndexerError};
use indexer_walker::glob::GlobSetMatcher;
use indexer_walker::iso::{IsoFilePathFactory, IsolatedPath};
use indexer_walker::meta::{DiskMetadata, FilePathMetadata};
use indexer_walker::p2p::{
    get_instance, get_library_instances, hook_event_to_p2p_event, mdns_directive, port_for_config,
    EventLoopStep, HookEvent, MaybePort, MdnsDirective, P2PDiscoveryState, P2PEvent, PeerEntry,
    PeerMetadata,
};
use indexer_walker::path::SegPath;
use indexer_walker::rules::{IndexerRule, IndexerRuler, RulePerKind};
use indexer_walker::task::{WalkDirTask, WalkerStage};
use indexer_walker::walker::{
    build_walking_entries, collect_metadata, segregate_creates_and_updates, ToWalkEntry,
    WalkingEntry,
};
use std::sync::Arc;

fn seg(path: &str) -> SegPath {
    SegPath::from_segments(path.split('/').map(|s| s.to_string()).collect())
}

fn fmeta(inode: u64, size: u64, modified_at_ms: i64, hidden: bool) -> FilePathMetadata {
    FilePathMetadata { inode, size_in_bytes: size, created_at_ms: 0, modified_at_ms, hidden }
}

fn walking(rel: &str, is_dir: bool, m: FilePathMetadata) -> WalkingEntry {
    WalkingEntry {
        iso_file_path: IsolatedPath { location_id: 0, rel: seg(rel), is_dir },
        metadata: m,
    }
}

fn record_for(rel: &str, is_dir: bool, m: FilePathMetadata) -> FilePathRecord {
    FilePathRecord {
        pub_id: 42,
        object_id: Some(7),
        iso: IsolatedPath { location_id: 0, rel: seg(rel), is_dir },
        inode_bytes: Some(u64_to_be_bytes(m.inode)),
        date_modified_ms: Some(m.modified_at_ms),
        hidden: Some(m.hidden),
        size_bytes: Some(u64_to_be_bytes(m.size_in_bytes)),
        cas_id: None,
    }
}

#[test]
fn be_bytes_round_trip() {
    let bytes = u64_to_be_bytes(0x0102030405060708);
    assert_eq!(bytes, vec![1, 2, 3, 4, 5, 6, 7, 8]);
    assert_eq!(u64_from_be_bytes(&bytes), 0x0102030405060708);
    assert_eq!(u64_from_be_bytes(&u64_to_be_bytes(u64::MAX)), u64::MAX);
    assert_eq!(u64_from_be_bytes(&u64_to_be_bytes(0)), 0);
}

#[test]
fn path_display_and_prefixes() {
    let p = seg("a/b/c");
    assert_eq!(p.join_display(), "a/b/c");
    assert_eq!(p.prefix(2).join_display(), "a/b");
    assert!(seg("a/b").is_strict_prefix_of(&p));
    assert!(!seg("a/x").is_strict_prefix_of(&p));
    assert!(!p.is_strict_prefix_of(&p));
    assert!(p.eq_path(&seg("a/b/c")));
    assert!(!p.eq_path(&seg("a/b")));
}

#[test]
fn glob_matcher_matches_and_rejects() {
    let m = GlobSetMatcher::new(vec!["*.png".to_string()]).unwrap();
    assert!(m.is_match("photos/photo1.png"));
    assert!(!m.is_match("photos/text.txt"));
    assert!(GlobSetMatcher::new(vec!["[invalid".to_string()]).is_err());
}

#[test]
fn iso_factory_builds_relative_identities() {
    let factory = IsoFilePathFactory { location_id: 3, root: seg("home/user") };
    let built = factory.build(&seg("home/user/docs/a.txt"), false).unwrap();
    assert_eq!(built.location_id, 3);
    assert_eq!(built.rel.join_display(), "docs/a.txt");
    assert!(!built.is_dir);
    let same = factory.build(&seg("home/user"), true).unwrap();
    assert_eq!(same.rel.segments.len(), 0);
    assert!(factory.build(&seg("elsewhere/a.txt"), false).is_err());
}

#[test]
fn apply_all_answers_per_registered_rule() {
    let ruler = IndexerRuler::new(vec![
        IndexerRule {
            name: "images".to_string(),
            is_default: false,
            rules: vec![RulePerKind::AcceptFilesByGlob(
                GlobSetMatcher::new(vec!["*.png".to_string()]).unwrap(),
            )],
        },
        IndexerRule {
            name: "no tmp".to_string(),
            is_default: false,
            rules: vec![RulePerKind::RejectFilesByGlob(
                GlobSetMatcher::new(vec!["*.tmp".to_string()]).unwrap(),
            )],
        },
        IndexerRule {
            name: "git repos".to_string(),
            is_default: false,
            rules: vec![RulePerKind::AcceptIfChildrenDirectoriesArePresent(vec![
                ".git".to_string(),
            ])],
        },
    ]);
    let r = ruler.apply_all(&"shot.png".to_string(), false, &Vec::new());
    assert_eq!(r.accept_glob, Some(vec![true]));
    assert_eq!(r.reject_glob, Some(vec![true]));
    assert_eq!(r.accept_children, None);
    assert_eq!(r.reject_children, None);

    let r = ruler.apply_all(&"junk.tmp".to_string(), false, &Vec::new());
    assert_eq!(r.accept_glob, Some(vec![false]));
    assert_eq!(r.reject_glob, Some(vec![false]));

    let r = ruler.apply_all(&"repo".to_string(), true, &vec![".git".to_string()]);
    assert_eq!(r.accept_children, Some(vec![true]));
    let r = ruler.apply_all(&"plain".to_string(), true, &vec!["src".to_string()]);
    assert_eq!(r.accept_children, Some(vec![false]));
}

#[test]
fn reject_glob_outranks_accept_glob() {
    // one path matched by both an accept and a reject rule is rejected
    let ruler = IndexerRuler::new(vec![
        IndexerRule {
            name: "accept pngs".to_string(),
            is_default: false,
            rules: vec![RulePerKind::AcceptFilesByGlob(
                GlobSetMatcher::new(vec!["*.png".to_string()]).unwrap(),
            )],
        },
        IndexerRule {
            name: "reject cache".to_string(),
            is_default: false,
            rules: vec![RulePerKind::RejectFilesByGlob(
                GlobSetMatcher::new(vec!["cache/*".to_string()]).unwrap(),
            )],
        },
    ]);
    let r = ruler.apply_all(&"cache/pic.png".to_string(), false, &Vec::new());
    assert_eq!(r.accept_glob, Some(vec![true]));
    assert_eq!(r.reject_glob, Some(vec![false]));
    assert!(indexer_walker::walker::rejected_by_reject_glob(&r));
}

#[test]
fn segregate_splits_creates_and_updates() {
    let unchanged = walking("same.txt", false, fmeta(1, 10, 1000, false));
    let touched = walking("touched.txt", false, fmeta(2, 10, 5000, false));
    let fresh = walking("fresh.txt", false, fmeta(3, 7, 1000, false));
    let existing = vec![
        record_for("same.txt", false, fmeta(1, 10, 1000, false)),
        record_for("touched.txt", false, fmeta(2, 10, 1000, false)),
    ];
    let (to_create, to_update, total) =
        segregate_creates_and_updates(vec![unchanged, touched, fresh], &existing);
    assert_eq!(to_create.len(), 1);
    assert_eq!(to_create[0].iso_file_path.rel.join_display(), "fresh.txt");
    assert!(to_create[0].maybe_object_id.is_none());
    assert_eq!(to_update.len(), 1);
    assert_eq!(to_update[0].iso_file_path.rel.join_display(), "touched.txt");
    assert_eq!(to_update[0].pub_id, 42);
    assert_eq!(to_update[0].maybe_object_id, Some(7));
    assert_eq!(total, 27);
}

#[test]
fn modified_time_tolerance_is_one_millisecond() {
    let within = walking("f.txt", false, fmeta(1, 10, 1001, false));
    let beyond = walking("f.txt", false, fmeta(1, 10, 1002, false));
    let existing = vec![record_for("f.txt", false, fmeta(1, 10, 1000, false))];
    let (_, updates, _) = segregate_creates_and_updates(vec![within], &existing);
    assert!(updates.is_empty());
    let (_, updates, _) = segregate_creates_and_updates(vec![beyond], &existing);
    assert_eq!(updates.len(), 1);
}

#[test]
fn hidden_flag_flip_forces_update() {
    let flipped = walking("f.txt", false, fmeta(1, 10, 1000, true));
    let existing = vec![record_for("f.txt", false, fmeta(1, 10, 1000, false))];
    let (_, updates, _) = segregate_creates_and_updates(vec![flipped], &existing);
    assert_eq!(updates.len(), 1);
}

#[test]
fn directory_size_change_alone_is_ignored() {
    let grown = walking("dir", true, fmeta(1, 4096, 1000, false));
    let existing = vec![record_for("dir", true, fmeta(1, 64, 1000, false))];
    let (creates, updates, _) = segregate_creates_and_updates(vec![grown], &existing);
    assert!(creates.is_empty());
    assert!(updates.is_empty());
}

#[test]
fn directory_size_change_suppresses_other_updates() {
    // even with a touched modification time, a directory whose observed
    // size disagrees with the stored one is left alone
    let touched = walking("dir", true, fmeta(1, 4096, 9000, false));
    let existing = vec![record_for("dir", true, fmeta(1, 64, 1000, false))];
    let (_, updates, _) = segregate_creates_and_updates(vec![touched], &existing);
    assert!(updates.is_empty());
}

#[test]
fn total_size_counts_every_entry() {
    let a = walking("a", false, fmeta(1, 100, 0, false));
    let b = walking("b", false, fmeta(2, 23, 0, false));
    let existing = vec![record_for("a", false, fmeta(1, 100, 0, false))];
    let (_, _, total) = segregate_creates_and_updates(vec![a, b], &existing);
    assert_eq!(total, 123);
}

#[test]
fn collect_metadata_records_stat_failures() {
    let paths = vec![seg("root/ok"), seg("root/bad")];
    let good = DiskMetadata {
        is_dir: false,
        is_symlink: false,
        inode: 1,
        size_in_bytes: 5,
        created_at_ms: 0,
        modified_at_ms: 0,
        hidden: false,
    };
    let stats = vec![Ok(good), Err("permission denied".to_string())];
    let mut errors = Vec::new();
    let pairs = collect_metadata(paths, stats, &mut errors);
    assert_eq!(pairs.len(), 1);
    assert_eq!(pairs[0].0.join_display(), "root/ok");
    assert_eq!(
        errors,
        vec![NonCriticalIndexerError::Metadata("permission denied".to_string())]
    );
}

#[test]
fn iso_build_failure_is_recorded_and_skipped() {
    let factory = IsoFilePathFactory { location_id: 0, root: seg("root") };
    let good = DiskMetadata {
        is_dir: false,
        is_symlink: false,
        inode: 1,
        size_in_bytes: 5,
        created_at_ms: 0,
        modified_at_ms: 0,
        hidden: false,
    };
    let mut errors = Vec::new();
    let (entries, keys) = build_walking_entries(
        vec![(seg("root/in.txt"), good), (seg("outside/out.txt"), good)],
        &factory,
        &mut errors,
    );
    assert_eq!(entries.len(), 1);
    assert_eq!(keys.len(), 1);
    assert_eq!(
        errors,
        vec![NonCriticalIndexerError::IsoFilePath("outside/out.txt".to_string())]
    );
}

fn start_task(dir: &str) -> WalkDirTask {
    WalkDirTask::new(
        ToWalkEntry::from_path(seg(dir)),
        Arc::new(seg(dir)),
        Arc::new(IndexerRuler::default()),
        IsoFilePathFactory { location_id: 0, root: seg(dir) },
        false,
    )
    .unwrap()
}

#[test]
fn open_failure_is_fatal() {
    let task = start_task("root");
    let err = task.fail_to_open("no such directory".to_string());
    assert_eq!(err, IndexerError::FileIO("no such directory".to_string()));
}

#[test]
fn directory_entry_errors_are_non_fatal() {
    let mut task = start_task("root");
    task.begin_walking();
    task.push_found_path(seg("root/a.txt"));
    task.push_directory_entry_error("unreadable entry".to_string());
    assert_eq!(
        task.errors,
        vec![NonCriticalIndexerError::FailedDirectoryEntry("unreadable entry".to_string())]
    );
}

#[test]
fn removal_fetch_failure_degrades_to_empty_set() {
    let mut task = start_task("root");
    task.begin_walking();
    task.finish_walking();
    task.collect_metadata_results(Vec::new());
    task.check_indexer_rules(Vec::new());
    task.process_rules();
    task.gather_file_paths_to_remove(Err("replica offline".to_string()));
    assert_eq!(
        task.errors,
        vec![NonCriticalIndexerError::FetchFilePathsToRemove("replica offline".to_string())]
    );
    let out = task.finalize(Ok(Vec::new())).unwrap();
    assert!(out.to_remove.is_empty());
}

#[test]
fn existing_lookup_failure_aborts_the_task() {
    let mut task = start_task("root");
    task.begin_walking();
    task.finish_walking();
    task.collect_metadata_results(Vec::new());
    task.check_indexer_rules(Vec::new());
    task.process_rules();
    task.gather_file_paths_to_remove(Ok(Vec::new()));
    match task.finalize(Err("primary offline".to_string())) {
        Err(err) => assert_eq!(err, IndexerError::Database("primary offline".to_string())),
        Ok(_) => panic!("a failed existing-records lookup must abort the walk"),
    }
}

#[test]
fn unbuildable_queued_directory_is_dropped_from_recursion() {
    // a queued subdirectory outside the factory's location cannot become
    // a child task: the failure is recorded, recursion goes on without it
    let mut task = start_task("root");
    task.has_dispatcher = true;
    task.stage = WalkerStage::Finalize {
        walking_entries: Vec::new(),
        accepted_ancestors: Vec::new(),
        to_remove_entries: Vec::new(),
        maybe_to_keep_walking: Some(vec![
            ToWalkEntry::from_path(seg("root/sub")),
            ToWalkEntry::from_path(seg("elsewhere/sub")),
        ]),
    };
    let out = task.finalize(Ok(Vec::new())).unwrap();
    assert_eq!(out.child_tasks.len(), 1);
    assert_eq!(
        out.errors,
        vec![NonCriticalIndexerError::DispatchKeepWalking("elsewhere/sub".to_string())]
    );
}

#[test]
fn removal_candidates_are_scoped_and_filtered() {
    let mut store = InMemoryStore::new();
    store.push_record(record_for("docs/kept.txt", false, fmeta(1, 1, 0, false)));
    store.push_record(record_for("docs/stale.txt", false, fmeta(2, 1, 0, false)));
    store.push_record(record_for("docs/deeper/other.txt", false, fmeta(3, 1, 0, false)));
    store.push_record(record_for("unrelated.txt", false, fmeta(4, 1, 0, false)));
    let parent = IsolatedPath { location_id: 0, rel: seg("docs"), is_dir: true };
    let keys = vec![IsolatedPath { location_id: 0, rel: seg("docs/kept.txt"), is_dir: false }];
    let candidates = store.fetch_file_paths_to_remove(&parent, &keys);
    assert_eq!(candidates.len(), 1);
    assert_eq!(candidates[0].pub_id, 42);
}

#[test]
fn remaining_error_variants_carry_their_messages() {
    // the rule engine and the metadata conversion cannot fail inside the
    // library, but their error variants remain part of the surfaced
    // taxonomy
    let e = NonCriticalIndexerError::IndexerRule("engine failure".to_string());
    assert_eq!(e, NonCriticalIndexerError::IndexerRule("engine failure".to_string()));
    let e = NonCriticalIndexerError::FilePathMetadata("bad timestamp".to_string());
    assert_ne!(e, NonCriticalIndexerError::FilePathMetadata("other".to_string()));
}

#[test]
fn hook_events_map_to_frontend_events() {
    let md = PeerMetadata {
        name: "laptop".to_string(),
        operating_system: None,
        device_model: None,
        version: None,
    };
    match hook_event_to_p2p_event(HookEvent::PeerAvailable {
        identity: "peer-a".to_string(),
        metadata: md,
    }) {
        EventLoopStep::Emit(P2PEvent::DiscoveredPeer { identity, .. }) => {
            assert_eq!(identity, "peer-a")
        },
        _ => panic!("expected a discovered-peer event"),
    }
    match hook_event_to_p2p_event(HookEvent::PeerUnavailable { identity: "peer-a".to_string() }) {
        EventLoopStep::Emit(P2PEvent::ExpiredPeer { identity }) => assert_eq!(identity, "peer-a"),
        _ => panic!("expected an expired-peer event"),
    }
    match hook_event_to_p2p_event(HookEvent::PeerConnectedWith {
        identity: "peer-a".to_string(),
        first_connection: false,
    }) {
        EventLoopStep::Skip => {},
        _ => panic!("a repeat connection is not surfaced"),
    }
    match hook_event_to_p2p_event(HookEvent::PeerDisconnectedWith {
        identity: "peer-a".to_string(),
        last_connection: true,
    }) {
        EventLoopStep::Emit(P2PEvent::DisconnectedPeer { identity }) => {
            assert_eq!(identity, "peer-a")
        },
        _ => panic!("expected a disconnected-peer event"),
    }
    match hook_event_to_p2p_event(HookEvent::Shutdown) {
        EventLoopStep::Stop => {},
        _ => panic!("shutdown stops the pump"),
    }
}

#[test]
fn port_config_maps_onto_listener_settings() {
    assert_eq!(port_for_config(MaybePort::Undefined), None);
    assert_eq!(port_for_config(MaybePort::Null), Some(0));
    assert_eq!(port_for_config(MaybePort::Value(7373)), Some(7373));
}

#[test]
fn discovery_state_drives_the_responder() {
    assert_eq!(mdns_directive(P2PDiscoveryState::Everyone, false), MdnsDirective::Spawn);
    assert_eq!(mdns_directive(P2PDiscoveryState::Everyone, true), MdnsDirective::Keep);
    assert_eq!(mdns_directive(P2PDiscoveryState::ContactsOnly, false), MdnsDirective::Spawn);
    assert_eq!(mdns_directive(P2PDiscoveryState::Disabled, true), MdnsDirective::Shutdown);
    assert_eq!(mdns_directive(P2PDiscoveryState::Disabled, false), MdnsDirective::Keep);
}

#[test]
fn library_instances_are_filtered_by_metadata_key() {
    let peers = vec![
        PeerEntry {
            identity: "peer-a".to_string(),
            metadata_keys: vec!["lib-1".to_string(), "lib-2".to_string()],
        },
        PeerEntry { identity: "peer-b".to_string(), metadata_keys: vec!["lib-2".to_string()] },
    ];
    let found = get_library_instances(&peers, &"lib-1".to_string());
    assert_eq!(found, vec!["peer-a".to_string()]);
    let idx = get_instance(&peers, &"lib-2".to_string(), &"peer-b".to_string());
    assert_eq!(idx, Some(1));
    let missing = get_instance(&peers, &"lib-1".to_string(), &"peer-b".to_string());
    assert_eq!(missing, None);
}
