//! The stores, the stored-row reader, paths, configuration, and the other
//! small decisions, on concrete values.

use wadachi::binary64::Binary64;
use wadachi::config::{db_path_in, join, ConfigTier, WadachiConfig, PRESCRIBED_CLEANUP_DAYS_BITS};
use wadachi::env::{timestamp_from_epoch_offset, whole_seconds_between, Timestamp};
use wadachi::facade::{record, runtime_db_path_from};
use wadachi::indexer::{
    after_receipt, effective_debounce_ms, effective_rewalk_interval, gate_check_due, note_watch_outcome, stale_roots,
    DaemonAction, IndexSummary, PendingEvents, WatchReceipt, RootMtimeGate, Span, WatchError, MAX_PENDING_EVENTS,
};
use wadachi::config::IndexerRoot;
use wadachi::matching::{MatchKind, MatchProfile};
use wadachi::path::{path_is_same_or_under, subtree_range};
use wadachi::spec::{FrecencyRankingSpec, INDEXED_EPSILON_BITS};
use wadachi::store::{entries_from_rows, DirStore, MemDirStore};

#[test]
fn a_recorded_visit_is_read_back() {
    let mut store = MemDirStore::new();
    store.record_at("/b", Timestamp::new(10, 0));
    store.record_at("/a", Timestamp::new(20, 0));
    store.record_at("/b", Timestamp::new(30, 0));
    let es = store.entries().unwrap();
    assert_eq!(es.len(), 2);
    assert_eq!(es[0].path, "/a");
    assert_eq!(es[0].visits, vec![Timestamp::new(20, 0)]);
    assert_eq!(es[1].path, "/b");
    assert_eq!(es[1].visits, vec![Timestamp::new(10, 0), Timestamp::new(30, 0)]);
    assert!(es.iter().all(|e| !e.discovered_only));
}

#[test]
fn recording_through_the_facade_appends_one_visit() {
    let mut store = MemDirStore::new();
    record(&mut store, "/x").unwrap();
    record(&mut store, "/x").unwrap();
    let es = store.entries().unwrap();
    assert_eq!(es.len(), 1);
    assert_eq!(es[0].visits.len(), 2);
}

#[test]
fn discovery_is_idempotent_and_never_a_visit() {
    let mut store = MemDirStore::new();
    store.record_discovered("/d").unwrap();
    store.record_discovered("/d").unwrap();
    store.record_at("/v", Timestamp::new(1, 0));
    store.record_discovered("/v").unwrap();
    let es = store.entries().unwrap();
    assert_eq!(es.len(), 2, "a visited path is not listed again as discovered");
    assert_eq!(es[0].path, "/v");
    assert!(!es[0].discovered_only);
    assert_eq!(es[1].path, "/d");
    assert!(es[1].discovered_only && es[1].visits.is_empty());
}

#[test]
fn removal_takes_the_subtree_and_leaves_visits() {
    let mut store = MemDirStore::new();
    for p in ["/a", "/a/b", "/a/b/c", "/ab", "/z"] {
        store.record_discovered(p).unwrap();
    }
    store.record_at("/a/b", Timestamp::new(5, 0));
    assert_eq!(store.discovered_under("/a").unwrap(), vec!["/a", "/a/b", "/a/b/c"]);
    store.remove_discovered("/a").unwrap();
    store.remove_discovered("/a").unwrap();
    assert!(store.discovered_under("/a").unwrap().is_empty());
    let es = store.entries().unwrap();
    let paths: Vec<&str> = es.iter().map(|e| e.path.as_str()).collect();
    assert_eq!(paths, vec!["/a/b", "/ab", "/z"]);
    assert_eq!(es[0].visits, vec![Timestamp::new(5, 0)]);
}

#[test]
fn stored_rows_group_by_path_in_byte_order() {
    let rows = vec![
        ("/b".to_owned(), 30),
        ("/a".to_owned(), 20),
        ("/b".to_owned(), 10),
        ("/c".to_owned(), i64::MAX),
    ];
    let es = entries_from_rows(rows, vec!["/a/".to_owned(), "/d".to_owned(), "/d".to_owned()]);
    let paths: Vec<&str> = es.iter().map(|e| e.path.as_str()).collect();
    assert_eq!(paths, vec!["/a", "/b", "/d", "/d"], "an out-of-range instant makes no visit; `/a/` is the visited `/a`");
    assert_eq!(es[1].visits, vec![Timestamp::new(30, 0), Timestamp::new(10, 0)]);
    assert!(es[2].discovered_only && es[3].discovered_only);
}

#[test]
fn same_or_under_respects_component_boundaries() {
    assert!(path_is_same_or_under("/a/b", "/a/b"));
    assert!(path_is_same_or_under("/a/b/c", "/a/b"));
    assert!(!path_is_same_or_under("/a/bc", "/a/b"));
    assert!(!path_is_same_or_under("/a", "/a/b"));
    assert!(path_is_same_or_under("/a", "/"));
    assert!(path_is_same_or_under("/a/b", "/a/"));
    assert!(!path_is_same_or_under("/ab", "/a"));
}

#[test]
fn binary64_constants_hold_their_values() {
    assert_eq!(f64::from_bits(PRESCRIBED_CLEANUP_DAYS_BITS), 180.0);
    assert_eq!(f64::from_bits(INDEXED_EPSILON_BITS), 0.001);
    let spec = FrecencyRankingSpec::zoxide_parity();
    assert_eq!(f64::from_bits(spec.half_life_days.bits), 30.0);
    assert!(Binary64::from_bits(0) == Binary64::from_bits(0x8000_0000_0000_0000), "the zeros are equal");
    assert!(Binary64::from_bits(f64::NAN.to_bits()) != Binary64::from_bits(f64::NAN.to_bits()), "NaN equals nothing");
}

#[test]
fn every_instance_is_found_by_its_name() {
    for spec in FrecencyRankingSpec::all() {
        let found = FrecencyRankingSpec::by_name(&spec.name).unwrap();
        assert_eq!(found.name, spec.name);
        assert_eq!(found.phases, spec.phases);
    }
    assert!(FrecencyRankingSpec::by_name("nope").is_none());
    assert_eq!(FrecencyRankingSpec::by_name_or_default(Some("nope")).name, "skimtab-parity");
}

#[test]
fn config_paths_and_tiers() {
    assert_eq!(join("/home/u", "code"), "/home/u/code");
    assert_eq!(join("/home/u/", "code"), "/home/u/code");
    assert_eq!(join("", "code"), "code");
    assert_eq!(db_path_in(Some("/data".to_owned())), "/data/wadachi/dirs.db");
    assert_eq!(db_path_in(None), "./wadachi/dirs.db");
    assert_eq!(runtime_db_path_from(Some("/tmp/x.db".to_owned())), "/tmp/x.db");
    assert!(runtime_db_path_from(None).ends_with("/wadachi/dirs.db"));
    assert_eq!(ConfigTier::from_name(Some("bare")), ConfigTier::Bare);
    assert_eq!(ConfigTier::from_name(Some("discovered")), ConfigTier::Discovered);
    assert_eq!(ConfigTier::from_name(Some("other")), ConfigTier::Default);
    assert_eq!(ConfigTier::from_name(None), ConfigTier::Default);

    let d = WadachiConfig::discovered_from(vec!["/home/u/code/gh/org".to_owned()], 3);
    assert_eq!(d.indexer.roots, vec![IndexerRoot::new("/home/u/code/gh/org", 4)]);
    assert_eq!(d.indexer.concurrency, 3);
    let p = WadachiConfig::prescribed_from(d, Some("/home/u".to_owned()));
    assert_eq!(
        p.indexer.roots,
        vec![
            IndexerRoot::new("/home/u/code/gh/org", 4),
            IndexerRoot::new("/home/u/code", 6),
            IndexerRoot::new("/home/u", 2)
        ]
    );
    assert_eq!(p.indexer.concurrency, 8);
    assert_eq!(p.max_entries, 50_000);
    let over = p.with_overrides(Some("/x.db".to_owned()), Some("zoxide-parity".to_owned()));
    assert_eq!(over.db_path, "/x.db");
    assert_eq!(over.spec().name, "zoxide-parity");
    let bare = WadachiConfig::for_tier(ConfigTier::Bare, vec!["/w".to_owned()], 4);
    assert!(bare.indexer.roots.is_empty());
    assert_eq!(bare.spec().name, "skimtab-parity");
}

#[test]
fn daemon_settings_are_clamped() {
    let mut cfg = WadachiConfig::bare().indexer;
    assert_eq!(effective_debounce_ms(&cfg), 50);
    assert_eq!(effective_rewalk_interval(&cfg).secs, 60);
    cfg.debounce_ms = 60_000;
    cfg.rewalk_interval_secs = 900;
    assert_eq!(effective_debounce_ms(&cfg), 10_000);
    assert_eq!(effective_rewalk_interval(&cfg).secs, 900);
}

#[test]
fn a_denied_watch_degrades_and_names_the_root() {
    let mut summary = IndexSummary::new();
    assert!(note_watch_outcome(&mut summary, "/r1", Ok(())).is_ok());
    assert!(note_watch_outcome(&mut summary, "/r2", Err(WatchError::PermissionDenied)).is_ok());
    assert_eq!(summary.watch_degraded, vec!["/r2".to_owned()]);
    assert_eq!(note_watch_outcome(&mut summary, "/r3", Err(WatchError::MaxFilesWatch)), Err(WatchError::MaxFilesWatch));
    assert_eq!(summary.watch_degraded.len(), 1);
    assert!(summary.render().ends_with("[live watch unavailable on 1 root(s); updates arrive on the re-walk interval]"));
}

#[test]
fn the_gate_picks_stale_roots() {
    let mut gate = RootMtimeGate::new(Span::from_secs(100));
    let roots = vec![IndexerRoot::new("/a", 2), IndexerRoot::new("/b", 2), IndexerRoot::new("/c/", 2)];
    gate.mark_walked("/a", Timestamp::new(1000, 0));
    gate.mark_walked("/c", Timestamp::new(1000, 0));
    let now = Timestamp::new(1050, 0);
    let mtimes = vec![Some(Timestamp::new(900, 0)), None, Some(Timestamp::new(1001, 0))];
    let stale = stale_roots(&gate, &roots, now, &mtimes);
    let paths: Vec<&str> = stale.iter().map(|r| r.path.as_str()).collect();
    assert_eq!(paths, vec!["/b", "/c/"], "never walked, then changed since its walk");
    assert!(gate.stale("/a", Timestamp::new(1100, 0), Some(Timestamp::new(900, 0))), "the bound elapsed");
    assert!(gate.stale("/a", Timestamp::new(999, 0), Some(Timestamp::new(900, 0))), "the clock went back");
    assert!(!gate.stale("/a/", Timestamp::new(1099, 999_999_999), Some(Timestamp::new(1000, 0))));
}

#[test]
fn pending_events_dedupe_as_paths_compare() {
    let mut pending = PendingEvents::new();
    assert!(!pending.absorb(vec!["/b".to_owned(), "/a".to_owned(), "/b/".to_owned(), "/a//".to_owned()]));
    assert_eq!(pending.len(), 2);
    assert_eq!(pending.take(), vec!["/a".to_owned(), "/b".to_owned()]);
    assert_eq!(pending.len(), 0);
    let many: Vec<String> = (0..MAX_PENDING_EVENTS).map(|i| format!("/p{i}")).collect();
    assert!(pending.absorb(many), "a full batch is due at once");
}

#[test]
fn visit_ages_truncate_toward_zero() {
    let t = |s: i64, n: u32| Timestamp::new(s, n);
    assert_eq!(whole_seconds_between(&t(100, 500_000_000), &t(98, 900_000_000)), 1);
    assert_eq!(whole_seconds_between(&t(98, 900_000_000), &t(100, 500_000_000)), -1);
    assert_eq!(whole_seconds_between(&t(86_400 * 4, 0), &t(0, 0)), 345_600);
}

#[test]
fn stored_seconds_at_the_ends_of_chrono_range() {
    let lo: i64 = -8_334_601_228_800;
    let hi: i64 = 8_210_266_876_799;
    let rows = vec![
        ("/lo".to_owned(), lo),
        ("/lo".to_owned(), lo - 1),
        ("/hi".to_owned(), hi),
        ("/hi".to_owned(), hi + 1),
    ];
    let es = entries_from_rows(rows, vec![]);
    assert_eq!(es.len(), 2);
    assert_eq!(es[0].path, "/hi");
    assert_eq!(es[0].visits, vec![Timestamp::new(hi, 0)]);
    assert_eq!(es[1].path, "/lo");
    assert_eq!(es[1].visits, vec![Timestamp::new(lo, 0)]);
}

#[test]
fn clock_readings_before_and_after_the_epoch() {
    assert_eq!(timestamp_from_epoch_offset(true, 5, 250_000_000), Timestamp::new(5, 250_000_000));
    assert_eq!(timestamp_from_epoch_offset(false, 1, 500_000_000), Timestamp::new(-2, 500_000_000));
    assert_eq!(timestamp_from_epoch_offset(false, 3, 0), Timestamp::new(-3, 0));
    assert_eq!(timestamp_from_epoch_offset(true, u64::MAX, 0), Timestamp::new(i64::MAX, 0));
}

#[test]
fn removing_the_root_prunes_everything_under_it() {
    let mut store = MemDirStore::new();
    store.record_discovered("/a").unwrap();
    store.record_discovered("/a/b").unwrap();
    store.record_at("/a", Timestamp::new(1, 0));
    store.remove_discovered("/").unwrap();
    let es = store.entries().unwrap();
    assert_eq!(es.len(), 1);
    assert_eq!(es[0].path, "/a");
    assert!(!es[0].discovered_only);
}

#[test]
fn classification_of_lowered_names() {
    let names = |xs: &[&str]| xs.iter().map(|x| x.chars().collect::<Vec<char>>()).collect::<Vec<Vec<char>>>();
    let chars = |x: &str| x.chars().collect::<Vec<char>>();
    let ns = names(&["code", "github", "wadachi"]);
    let path = chars("/code/github/wadachi");
    assert_eq!(MatchProfile::classify_lowered(&chars("wadachi"), &ns, &path), Some(MatchKind::BasenameExact));
    assert_eq!(MatchProfile::classify_lowered(&chars("wad"), &ns, &path), Some(MatchKind::BasenamePrefix));
    assert_eq!(MatchProfile::classify_lowered(&chars("git"), &ns, &path), Some(MatchKind::ComponentPrefix));
    assert_eq!(MatchProfile::classify_lowered(&chars("wdc"), &ns, &path), Some(MatchKind::BasenameSubsequence));
    assert_eq!(MatchProfile::classify_lowered(&chars("hub/wa"), &ns, &path), Some(MatchKind::BasenamePrefix));
    assert_eq!(MatchProfile::classify_lowered(&chars("adach"), &ns, &path), Some(MatchKind::BasenameSubsequence));
    assert_eq!(MatchProfile::classify_lowered(&chars("e/g"), &ns, &path), Some(MatchKind::ComponentPrefix));
    assert_eq!(MatchProfile::classify_lowered(&chars("hub/x"), &ns, &path), None);
    assert_eq!(MatchProfile::classify_lowered(&chars("ithu"), &ns, &path), Some(MatchKind::SubstringAnywhere));
    assert_eq!(MatchProfile::classify_lowered(&chars("x"), &ns, &path), None);
    assert_eq!(MatchProfile::classify_lowered(&chars("//"), &ns, &path), Some(MatchKind::BasenameExact));
    assert_eq!(MatchProfile::classify_lowered(&chars("a"), &names(&[]), &chars("/")), None);
    assert_eq!(MatchProfile::classify_raw("WAD", "/Code/Wadachi"), Some(MatchKind::BasenamePrefix));
}

#[test]
fn the_daemon_applies_a_batch_when_quiet_or_full() {
    let mut pending = PendingEvents::new();
    let first = after_receipt(&mut pending, WatchReceipt::Event(vec!["/b".to_owned(), "/a".to_owned(), "/b/".to_owned()]));
    assert_eq!(first, DaemonAction::Wait);
    assert_eq!(pending.len(), 2);
    assert_eq!(after_receipt(&mut pending, WatchReceipt::BackendError), DaemonAction::Wait);
    assert_eq!(pending.len(), 2);
    assert_eq!(after_receipt(&mut pending, WatchReceipt::Event(vec!["/a/".to_owned()])), DaemonAction::Wait);
    assert_eq!(pending.len(), 2, "a pending path keeps its first spelling");
    assert_eq!(after_receipt(&mut pending, WatchReceipt::Quiet), DaemonAction::Flush);
    assert_eq!(pending.take(), vec!["/a".to_owned(), "/b".to_owned()]);
    let many: Vec<String> = (0..MAX_PENDING_EVENTS).map(|i| format!("/d{i}")).collect();
    assert_eq!(after_receipt(&mut pending, WatchReceipt::Event(many)), DaemonAction::Flush);
    assert_eq!(after_receipt(&mut pending, WatchReceipt::Disconnected), DaemonAction::Stop);
    assert!(!gate_check_due(29));
    assert!(gate_check_due(30));
}

#[test]
fn subtree_ranges_bound_the_paths_beneath() {
    assert_eq!(subtree_range("/a/b"), ("/a/b/".to_owned(), "/a/b0".to_owned()));
    assert_eq!(subtree_range("/"), ("/".to_owned(), "0".to_owned()));
    assert_eq!(subtree_range("/a/"), ("/a/".to_owned(), "/a0".to_owned()));
    let (lo, hi) = subtree_range("/a/b");
    for (p, inside) in [("/a/b/c", true), ("/a/b/", true), ("/a/bc", false), ("/a/b0", false), ("/a/b", false)] {
        assert_eq!(lo.as_str() <= p && p < hi.as_str(), inside, "{p}");
    }
}
