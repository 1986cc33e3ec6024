use std::collections::HashSet;

use indexer_walker::db::InMemoryStore;
use indexer_walker::drive::{walk_snapshot, FsEntryInfo, FsSnapshot};
use indexer_walker::glob::GlobSetMatcher;
use indexer_walker::meta::DiskMetadata;
use indexer_walker::path::SegPath;
use indexer_walker::rules::{IndexerRule, IndexerRuler, RulePerKind};

fn seg(path: &str) -> SegPath {
    SegPath::from_segments(path.split('/').map(|s| s.to_string()).collect())
}

fn meta(is_dir: bool) -> DiskMetadata {
    DiskMetadata {
        is_dir,
        is_symlink: false,
        inode: 0,
        size_in_bytes: 0,
        created_at_ms: 0,
        modified_at_ms: 0,
        hidden: false,
    }
}

// root
// |__ rust_project
// |   |__ .git
// |        |__ <empty>
// |   |__ Cargo.toml
// |   |__ src
// |   |   |__ main.rs
// |   |__ target
// |       |__ debug
// |           |__ main
// |__ inner
// |   |__ node_project
// |       |__ .git
// |            |__ <empty>
// |       |__ package.json
// |       |__ src
// |       |   |__ App.tsx
// |       |__ node_modules
// |           |__ react
// |               |__ package.json
// |__ photos
//     |__ photo1.png
//     |__ photo2.jpg
//     |__ photo3.jpeg
//     |__ text.txt
fn prepare_location() -> FsSnapshot {
    let dirs = [
        "rust_project",
        "rust_project/.git",
        "rust_project/src",
        "rust_project/target",
        "rust_project/target/debug",
        "inner",
        "inner/node_project",
        "inner/node_project/.git",
        "inner/node_project/src",
        "inner/node_project/node_modules",
        "inner/node_project/node_modules/react",
        "photos",
    ];
    let files = [
        "rust_project/Cargo.toml",
        "rust_project/src/main.rs",
        "rust_project/target/debug/main",
        "inner/node_project/package.json",
        "inner/node_project/src/App.tsx",
        "inner/node_project/node_modules/react/package.json",
        "photos/photo1.png",
        "photos/photo2.jpg",
        "photos/photo3.jpeg",
        "photos/text.txt",
    ];
    let mut entries = Vec::new();
    for d in dirs {
        entries.push(FsEntryInfo { path: seg(&format!("root/{}", d)), metadata: meta(true) });
    }
    for f in files {
        entries.push(FsEntryInfo { path: seg(&format!("root/{}", f)), metadata: meta(false) });
    }
    FsSnapshot { entries }
}

fn new_indexer_rule(name: &str, default: bool, rules: Vec<RulePerKind>) -> IndexerRule {
    IndexerRule { name: name.to_string(), is_default: default, rules }
}

fn accept_glob(patterns: &[&str]) -> RulePerKind {
    RulePerKind::AcceptFilesByGlob(
        GlobSetMatcher::new(patterns.iter().map(|p| p.to_string()).collect()).unwrap(),
    )
}

fn reject_glob(patterns: &[&str]) -> RulePerKind {
    RulePerKind::RejectFilesByGlob(
        GlobSetMatcher::new(patterns.iter().map(|p| p.to_string()).collect()).unwrap(),
    )
}

fn accept_if_children(names: &[&str]) -> RulePerKind {
    RulePerKind::AcceptIfChildrenDirectoriesArePresent(
        names.iter().map(|n| n.to_string()).collect(),
    )
}

fn rel_of(p: &SegPath) -> String {
    p.segments[1..].join("/")
}

fn run_test(indexer_ruler: IndexerRuler, expected: HashSet<String>) {
    let snapshot = prepare_location();
    let store = InMemoryStore::new();
    let outputs = walk_snapshot(&snapshot, seg("root"), indexer_ruler, 0, &store, true);
    let mut actual: HashSet<String> = HashSet::new();
    let mut ancestors: HashSet<String> = HashSet::new();
    for out in &outputs {
        assert!(out.errors.is_empty(), "errors: {:?}", out.errors);
        for e in &out.to_create {
            actual.insert(e.iso_file_path.rel.segments.join("/"));
        }
        for a in &out.accepted_ancestors {
            ancestors.insert(rel_of(a));
        }
    }
    for a in ancestors {
        actual.insert(a);
    }
    assert_eq!(actual, expected);
}

fn to_set(items: &[&str]) -> HashSet<String> {
    items.iter().map(|s| s.to_string()).collect()
}

#[test]
fn test_walk_without_rules() {
    run_test(
        IndexerRuler::default(),
        to_set(&[
            "rust_project",
            "rust_project/.git",
            "rust_project/Cargo.toml",
            "rust_project/src",
            "rust_project/src/main.rs",
            "rust_project/target",
            "rust_project/target/debug",
            "rust_project/target/debug/main",
            "inner",
            "inner/node_project",
            "inner/node_project/.git",
            "inner/node_project/package.json",
            "inner/node_project/src",
            "inner/node_project/src/App.tsx",
            "inner/node_project/node_modules",
            "inner/node_project/node_modules/react",
            "inner/node_project/node_modules/react/package.json",
            "photos",
            "photos/photo1.png",
            "photos/photo2.jpg",
            "photos/photo3.jpeg",
            "photos/text.txt",
        ]),
    );
}

#[test]
fn test_only_photos() {
    run_test(
        IndexerRuler::new(vec![new_indexer_rule(
            "only photos",
            false,
            vec![accept_glob(&["{*.png,*.jpg,*.jpeg}"])],
        )]),
        to_set(&["photos", "photos/photo1.png", "photos/photo2.jpg", "photos/photo3.jpeg"]),
    );
}

#[test]
fn test_git_repos() {
    run_test(
        IndexerRuler::new(vec![new_indexer_rule(
            "git repos",
            false,
            vec![accept_if_children(&[".git"])],
        )]),
        to_set(&[
            "rust_project",
            "rust_project/.git",
            "rust_project/Cargo.toml",
            "rust_project/src",
            "rust_project/src/main.rs",
            "rust_project/target",
            "rust_project/target/debug",
            "rust_project/target/debug/main",
            "inner",
            "inner/node_project",
            "inner/node_project/.git",
            "inner/node_project/package.json",
            "inner/node_project/src",
            "inner/node_project/src/App.tsx",
            "inner/node_project/node_modules",
            "inner/node_project/node_modules/react",
            "inner/node_project/node_modules/react/package.json",
        ]),
    );
}

#[test]
fn git_repos_without_deps_or_build_dirs() {
    run_test(
        IndexerRuler::new(vec![
            new_indexer_rule("git repos", false, vec![accept_if_children(&[".git"])]),
            new_indexer_rule(
                "reject node_modules",
                false,
                vec![reject_glob(&["{**/node_modules/*,**/node_modules}"])],
            ),
            new_indexer_rule(
                "reject rust build dir",
                false,
                vec![reject_glob(&["{**/target/*,**/target}"])],
            ),
        ]),
        to_set(&[
            "rust_project",
            "rust_project/.git",
            "rust_project/Cargo.toml",
            "rust_project/src",
            "rust_project/src/main.rs",
            "inner",
            "inner/node_project",
            "inner/node_project/.git",
            "inner/node_project/package.json",
            "inner/node_project/src",
            "inner/node_project/src/App.tsx",
        ]),
    );
}

#[test]
fn rewalk_of_unchanged_tree_is_empty() {
    let snapshot = prepare_location();
    let store = InMemoryStore::new();
    let outputs = walk_snapshot(&snapshot, seg("root"), IndexerRuler::default(), 0, &store, true);

    let mut populated = InMemoryStore::new();
    let mut n_created = 0usize;
    for out in &outputs {
        for e in &out.to_create {
            populated.push_record(e.to_record());
            n_created += 1;
        }
        assert!(out.to_update.is_empty());
        assert!(out.to_remove.is_empty());
    }
    assert_eq!(n_created, 22);

    let again =
        walk_snapshot(&snapshot, seg("root"), IndexerRuler::default(), 0, &populated, true);
    for out in &again {
        assert!(out.errors.is_empty(), "errors: {:?}", out.errors);
        assert!(out.to_create.is_empty(), "unexpected creates in {:?}", out.directory.segments);
        assert!(out.to_update.is_empty(), "unexpected updates in {:?}", out.directory.segments);
        assert!(out.to_remove.is_empty(), "unexpected removals in {:?}", out.directory.segments);
    }
}

#[test]
fn ancestors_registered_exactly_once() {
    let entries = vec![
        FsEntryInfo { path: seg("root/a"), metadata: meta(true) },
        FsEntryInfo { path: seg("root/a/b"), metadata: meta(true) },
        FsEntryInfo { path: seg("root/a/b/c"), metadata: meta(false) },
        FsEntryInfo { path: seg("root/a/b/d"), metadata: meta(false) },
    ];
    let snapshot = FsSnapshot { entries };
    let store = InMemoryStore::new();
    let outputs = walk_snapshot(&snapshot, seg("root"), IndexerRuler::default(), 0, &store, true);
    let deep = outputs
        .iter()
        .find(|o| o.directory.segments.join("/") == "root/a/b")
        .expect("the a/b scope was walked");
    let ancestors: Vec<String> = deep.accepted_ancestors.iter().map(rel_of).collect();
    assert_eq!(ancestors.iter().filter(|a| a.as_str() == "a").count(), 1);
    assert_eq!(ancestors.iter().filter(|a| a.as_str() == "a/b").count(), 1);
    assert_eq!(ancestors.len(), 2);
}

#[test]
fn symlinks_are_discarded() {
    let entries = vec![
        FsEntryInfo { path: seg("root/real.txt"), metadata: meta(false) },
        FsEntryInfo {
            path: seg("root/link.txt"),
            metadata: DiskMetadata { is_symlink: true, ..meta(false) },
        },
    ];
    let snapshot = FsSnapshot { entries };
    let store = InMemoryStore::new();
    let outputs = walk_snapshot(&snapshot, seg("root"), IndexerRuler::default(), 0, &store, true);
    let mut created: Vec<String> = Vec::new();
    for out in &outputs {
        for e in &out.to_create {
            created.push(e.iso_file_path.rel.segments.join("/"));
        }
    }
    assert_eq!(created, vec!["real.txt".to_string()]);
}

#[test]
fn empty_directories_are_included() {
    let entries = vec![
        FsEntryInfo { path: seg("root/empty"), metadata: meta(true) },
        FsEntryInfo { path: seg("root/full"), metadata: meta(true) },
        FsEntryInfo { path: seg("root/full/file"), metadata: meta(false) },
    ];
    let snapshot = FsSnapshot { entries };
    let store = InMemoryStore::new();
    let outputs = walk_snapshot(&snapshot, seg("root"), IndexerRuler::default(), 0, &store, true);
    let mut created: HashSet<String> = HashSet::new();
    for out in &outputs {
        for e in &out.to_create {
            created.insert(e.iso_file_path.rel.segments.join("/"));
        }
    }
    assert_eq!(created, to_set(&["empty", "full", "full/file"]));
}

#[test]
fn non_recursive_walk_stays_in_one_scope() {
    let snapshot = prepare_location();
    let store = InMemoryStore::new();
    let outputs = walk_snapshot(&snapshot, seg("root"), IndexerRuler::default(), 0, &store, false);
    assert_eq!(outputs.len(), 1);
    let mut created: HashSet<String> = HashSet::new();
    for e in &outputs[0].to_create {
        created.insert(e.iso_file_path.rel.segments.join("/"));
    }
    assert_eq!(created, to_set(&["rust_project", "inner", "photos"]));
}

#[test]
fn sibling_without_marker_is_traversed_but_excluded() {
    // under the children-presence rule, photos has no .git child: it is
    // excluded from the accepted set, yet its own scope is still walked
    let snapshot = prepare_location();
    let store = InMemoryStore::new();
    let ruler = IndexerRuler::new(vec![new_indexer_rule(
        "git repos",
        false,
        vec![accept_if_children(&[".git"])],
    )]);
    let outputs = walk_snapshot(&snapshot, seg("root"), ruler, 0, &store, true);
    assert!(outputs.iter().any(|o| o.directory.segments.join("/") == "root/photos"));
    for out in &outputs {
        for e in &out.to_create {
            let rel = e.iso_file_path.rel.segments.join("/");
            assert!(!rel.starts_with("photos"), "unexpected create: {}", rel);
        }
    }
}
