//! The indexer's decisions, and its passes over a real directory tree
//! against the in-memory store.

use wadachi::config::{IndexerConfig, IndexerRoot, WadachiConfig};
use wadachi::env::Timestamp;
use wadachi::indexer::{
    admissible, apply_event_path, deepest_root_for, index_walks, watch_error_is_degradable, EventOutcome,
    IgnoreSet, IndexSummary, PathKind, RootMtimeGate, Span, Walk, WalkChild, WatchError,
};
use wadachi::store::{DirStore, MemDirStore};

fn ignore() -> IgnoreSet {
    IgnoreSet::new(vec!["node_modules".to_owned(), "target".to_owned()], false)
}

#[test]
fn ignore_set_skips_named_and_hidden() {
    let ig = ignore();
    assert!(ig.skips("node_modules"));
    assert!(ig.skips(".git"));
    assert!(!ig.skips("src"));
    let permissive = IgnoreSet::new(vec!["target".to_owned()], true);
    assert!(!permissive.skips(".config"));
    assert!(permissive.skips("target"));
}

#[test]
fn admissible_enforces_depth_ignore_and_root() {
    let root = IndexerRoot::new("/r", 2);
    let ig = ignore();
    assert!(admissible(&root, &ig, "/r/a"));
    assert!(admissible(&root, &ig, "/r/a/b"));
    assert!(!admissible(&root, &ig, "/r"));
    assert!(!admissible(&root, &ig, "/r/a/b/c"));
    assert!(!admissible(&root, &ig, "/r/target/x"));
    assert!(!admissible(&root, &ig, "/elsewhere/a"));
}

#[test]
fn deepest_root_wins_for_overlapping_roots() {
    let roots = vec![IndexerRoot::new("/home/u", 2), IndexerRoot::new("/home/u/code", 6)];
    let hit = deepest_root_for(&roots, "/home/u/code/gh/org/repo").unwrap();
    assert_eq!(hit.path, "/home/u/code");
}

#[test]
fn mtime_gate_interval_and_unwalked() {
    let mut gate = RootMtimeGate::new(Span::from_secs(900));
    let root = "/nonexistent-gate-root";
    let now = Timestamp::new(1_780_000_000, 0);
    assert!(gate.stale(root, now, None));
    gate.mark_walked(root, now);
    assert!(gate.stale(root, Timestamp::new(now.secs + 1, 0), None));
    assert!(gate.stale(root, Timestamp::new(now.secs + 901, 0), None));
}

#[test]
fn permission_denied_degrades_instead_of_killing_the_daemon() {
    assert!(watch_error_is_degradable(&WatchError::PermissionDenied));
}

#[test]
fn other_io_errors_still_fail_fast() {
    assert!(!watch_error_is_degradable(&WatchError::OtherIo));
    assert!(!watch_error_is_degradable(&WatchError::Other));
}

#[test]
fn watch_descriptor_exhaustion_is_not_degradable() {
    assert!(!watch_error_is_degradable(&WatchError::MaxFilesWatch));
}

#[test]
fn summary_display_names_the_degradation_and_stays_quiet_otherwise() {
    let clean = IndexSummary { roots_walked: 2, indexed: 9, pruned: 1, watch_degraded: Vec::new() };
    let text = clean.render();
    assert!(!text.contains("watch"), "a healthy pass must not mention watches: {text}");
    assert_eq!(text, "indexed 9 dirs across 2 roots (1 pruned)");

    let degraded = IndexSummary { roots_walked: 2, indexed: 9, pruned: 1, watch_degraded: vec!["/home/drzzln".to_owned()] };
    let rendered = degraded.render();
    assert!(rendered.contains("live watch unavailable"), "degradation must be visible, not silent: {rendered}");
    assert!(rendered.contains("re-walk"), "and must say why it is still correct: {rendered}");
}

/// A directory tree held in memory: every entry's path and whether it is
/// a directory.
struct Tree {
    entries: Vec<(String, bool)>,
}

impl Tree {
    /// The fixture: `a/b/c/`, `node_modules/x/`, `.hidden/y/` and a file
    /// `file.txt` under `/t`.
    fn fixture() -> Tree {
        let mut entries = vec![("/t".to_owned(), true)];
        for d in ["a", "a/b", "a/b/c", "node_modules", "node_modules/x", ".hidden", ".hidden/y"] {
            entries.push((format!("/t/{d}"), true));
        }
        entries.push(("/t/file.txt".to_owned(), false));
        Tree { entries }
    }

    fn children(&self, dir: &str) -> Option<Vec<WalkChild>> {
        if !self.is_dir(dir) {
            return None;
        }
        Some(
            self.entries
                .iter()
                .filter(|(p, _)| p.rsplit_once('/').map(|(parent, _)| parent) == Some(dir))
                .map(|(p, d)| WalkChild {
                    name: p.rsplit_once('/').unwrap().1.to_owned(),
                    path: p.clone(),
                    is_dir: *d,
                })
                .collect(),
        )
    }

    fn is_dir(&self, p: &str) -> bool {
        self.entries.iter().any(|(q, d)| q == p && *d)
    }

    fn kind(&self, p: &str) -> PathKind {
        match self.entries.iter().find(|(q, _)| q == p) {
            Some((_, true)) => PathKind::Dir,
            Some((_, false)) => PathKind::NotDir,
            None => PathKind::Missing,
        }
    }

    fn remove_all(&mut self, p: &str) {
        let sub = format!("{p}/");
        self.entries.retain(|(q, _)| q != p && !q.starts_with(&sub));
    }

    fn walk(&self, root: &str, max_depth: usize, ignore: &IgnoreSet) -> Vec<String> {
        let mut walk = Walk::new(root, max_depth);
        while let Some((dir, depth)) = walk.next_dir() {
            let Some(children) = self.children(&dir) else { continue };
            walk.take_children(depth, children, ignore);
        }
        walk.into_found()
    }
}

fn cfg_for(root: &str, max_depth: usize) -> IndexerConfig {
    IndexerConfig {
        enabled: true,
        roots: vec![IndexerRoot::new(root, max_depth)],
        ignore_names: vec!["node_modules".to_owned(), "target".to_owned()],
        index_hidden: false,
        debounce_ms: 50,
        rewalk_interval_secs: 60,
        concurrency: 4,
    }
}

fn index_once(store: &mut MemDirStore, cfg: &IndexerConfig, tree: &Tree) -> IndexSummary {
    let ig = IgnoreSet::from_config(cfg);
    let walks: Vec<(IndexerRoot, Vec<String>)> =
        cfg.roots.iter().map(|r| (r.clone(), tree.walk(&r.path, r.max_depth, &ig))).collect();
    index_walks(store, &walks, &|p: &str| tree.is_dir(p)).unwrap()
}

#[test]
fn walk_respects_ignore_set_and_max_depth() {
    let tree = Tree::fixture();
    let mut found = tree.walk("/t", 2, &ignore());
    found.sort();
    assert_eq!(found, vec!["/t/a".to_owned(), "/t/a/b".to_owned()]);

    let permissive = IgnoreSet::new(vec!["node_modules".to_owned()], true);
    let mut found = tree.walk("/t", 1, &permissive);
    found.sort();
    assert_eq!(found, vec!["/t/.hidden".to_owned(), "/t/a".to_owned()]);
}

#[test]
fn upserts_land_in_discovered_not_visits() {
    let tree = Tree::fixture();
    let cfg = cfg_for("/t", 3);
    let mut store = MemDirStore::new();
    let summary = index_once(&mut store, &cfg, &tree);
    assert_eq!(summary.roots_walked, 1);
    assert_eq!(summary.indexed, 3, "a, a/b, a/b/c");
    assert_eq!(summary.pruned, 0);
    let entries = store.entries().unwrap();
    assert_eq!(entries.len(), 3);
    for e in &entries {
        assert!(e.discovered_only, "{} must be discovered, not visited", e.path);
        assert!(e.visits.is_empty(), "indexer must never write a visit row");
    }
}

#[test]
fn rewalk_prunes_deleted_dirs() {
    let mut tree = Tree::fixture();
    let cfg = cfg_for("/t", 3);
    let mut store = MemDirStore::new();
    index_once(&mut store, &cfg, &tree);
    assert_eq!(store.entries().unwrap().len(), 3);
    tree.remove_all("/t/a");
    let summary = index_once(&mut store, &cfg, &tree);
    assert_eq!(summary.indexed, 0);
    assert_eq!(summary.pruned, 3, "a, a/b, a/b/c rows are all dead");
    assert!(store.entries().unwrap().is_empty());
}

#[test]
fn watcher_event_core_routes_create_and_remove() {
    let mut tree = Tree::fixture();
    let cfg = cfg_for("/t", 3);
    let mut store = MemDirStore::new();
    let ig = IgnoreSet::from_config(&cfg);

    let created = "/t/a/new";
    tree.entries.push((created.to_owned(), true));
    let outcome = apply_event_path(&mut store, &cfg.roots, &ig, created, tree.kind(created)).unwrap();
    assert_eq!(outcome, EventOutcome::Upserted);
    assert_eq!(store.entries().unwrap().len(), 1);

    let file = "/t/file.txt";
    let outcome = apply_event_path(&mut store, &cfg.roots, &ig, file, tree.kind(file)).unwrap();
    assert_eq!(outcome, EventOutcome::Skipped);

    let ignored = "/t/node_modules/x";
    let outcome = apply_event_path(&mut store, &cfg.roots, &ig, ignored, tree.kind(ignored)).unwrap();
    assert_eq!(outcome, EventOutcome::Skipped);

    tree.remove_all(created);
    let outcome = apply_event_path(&mut store, &cfg.roots, &ig, created, tree.kind(created)).unwrap();
    assert_eq!(outcome, EventOutcome::Removed);
    assert!(store.entries().unwrap().is_empty());
}

#[test]
fn config_defaults_and_serde_round_trip() {
    let bare = WadachiConfig::bare();
    assert!(!bare.indexer.enabled);
    assert!(bare.indexer.roots.is_empty());
    assert!(bare.indexer.ignore_names.is_empty());

    let home = dirs::home_dir().map(|h| h.to_string_lossy().into_owned());
    let cfg = WadachiConfig::prescribed_from(WadachiConfig::discovered_from(Vec::new(), 1), home);
    assert!(cfg.indexer.enabled);
    assert!(!cfg.indexer.index_hidden);
    assert_eq!(cfg.indexer.debounce_ms, 500);
    assert_eq!(cfg.indexer.rewalk_interval_secs, 900);
    assert!(cfg.indexer.concurrency >= 1);
    for name in [".git", "node_modules", "target", ".direnv", ".cache", "Library", ".Trash"] {
        assert!(cfg.indexer.ignore_names.iter().any(|n| n == name), "prescribed ignore set must contain {name}");
    }
    if let Some(home) = dirs::home_dir() {
        let code = home.join("code").to_string_lossy().into_owned();
        assert!(cfg.indexer.roots.contains(&IndexerRoot::new(&code, 6)), "~/code must be a default root (deep)");
        assert!(
            cfg.indexer.roots.contains(&IndexerRoot::new(&home.to_string_lossy(), 2)),
            "$HOME must be a default root (shallow)"
        );
    }
}
