//! The ranking matrix: every shipped instance, the matcher, and the
//! pipeline's phases, run end to end with the binary64 arithmetic done here.

use chrono::NaiveDate;
use wadachi::binary64::Binary64;
use wadachi::config::IndexerRoot;
use wadachi::env::{FrecencyEnvironment, MockEnvironment, RealEnvironment, Timestamp, whole_seconds_between};
use wadachi::indexer::{index_walks, IgnoreSet, Walk, WalkChild};
use wadachi::interp::{Ranker, SpecError, Step};
use wadachi::matching::{MatchKind, MatchProfile};
use wadachi::spec::{CombineKind, DecayKind, DirEntry, FrecencyRankingSpec, RankPhase, RankedDir};
use wadachi::store::{DirStore, MemDirStore};

fn value(b: Binary64) -> f64 {
    f64::from_bits(b.bits)
}

fn encode(x: f64) -> Binary64 {
    Binary64::from_bits(x.to_bits())
}

fn decay(kind: DecayKind, age_days: f64, half_life_days: f64) -> f64 {
    let age = age_days.max(0.0);
    match kind {
        DecayKind::HyperbolicDays => 1.0 / (1.0 + age),
        DecayKind::ExpHalfLife => {
            let hl = if half_life_days <= 0.0 { 1.0 } else { half_life_days };
            2.0_f64.powf(-age / hl)
        }
        DecayKind::ZoxideLogBuckets => {
            if age < 1.0 / 24.0 {
                4.0
            } else if age < 1.0 {
                2.0
            } else if age < 7.0 {
                0.5
            } else {
                0.25
            }
        }
    }
}

fn combine_score(spec: &FrecencyRankingSpec, decayed: &[f64], freq: f64, latest: f64) -> f64 {
    match spec.combine {
        CombineKind::RecencySumPlusFreq => {
            let recency: f64 = decayed.iter().sum();
            value(spec.recency_weight) * recency + value(spec.freq_weight) * freq
        }
        CombineKind::FreqTimesLatestDecay => value(spec.recency_weight) * freq * latest,
    }
}

fn age_days(now: Timestamp, then: Timestamp) -> f64 {
    whole_seconds_between(&now, &then) as f64 / 86_400.0
}

fn apply_matched(
    spec: &FrecencyRankingSpec,
    entries: Vec<DirEntry>,
    needle: &str,
    env: &impl FrecencyEnvironment,
) -> Result<Vec<RankedDir>, SpecError> {
    let now = env.now();
    let mut rk = Ranker::new(spec, entries, needle)?;
    loop {
        match rk.advance() {
            Step::Applied => {}
            Step::ComputeAge => {
                let ages = (0..rk.len())
                    .map(|i| rk.acc(i).visits.iter().map(|t| encode(age_days(now, *t))).collect())
                    .collect();
                rk.set_all_ages(ages);
            }
            Step::ApplyDecay => {
                let hl = value(spec.half_life_days);
                let d = (0..rk.len())
                    .map(|i| rk.acc(i).ages.iter().map(|a| encode(decay(spec.decay, value(*a), hl))).collect())
                    .collect();
                rk.set_all_decayed(d);
            }
            Step::Combine => {
                let s = (0..rk.len())
                    .map(|i| {
                        let acc = rk.acc(i);
                        let w: Vec<f64> = acc.decayed.iter().map(|x| value(*x)).collect();
                        encode(combine_score(spec, &w, acc.freq as f64, value(rk.latest_decay(i))))
                    })
                    .collect();
                rk.set_all_scores(s);
            }
            Step::ScaleByMatch(ws) => {
                let s = (0..rk.len()).map(|i| encode(value(rk.acc(i).score) * value(ws[i]))).collect();
                rk.set_all_scores(s);
            }
            Step::Finished(out) => return Ok(out),
        }
    }
}

fn apply(spec: &FrecencyRankingSpec, entries: Vec<DirEntry>, env: &MockEnvironment) -> Result<Vec<RankedDir>, SpecError> {
    apply_matched(spec, entries, "", env)
}

fn at_day(d: u32) -> Timestamp {
    let t = NaiveDate::from_ymd_opt(2026, 6, d).unwrap().and_hms_opt(0, 0, 0).unwrap().and_utc();
    Timestamp::new(t.timestamp(), 0)
}

fn days_before(t: Timestamp, days: i64) -> Timestamp {
    Timestamp::new(t.secs - days * 86_400, t.nanos)
}

fn entry(path: &str, visits: Vec<Timestamp>, discovered_only: bool) -> DirEntry {
    DirEntry { path: path.to_owned(), visits, discovered_only }
}

#[test]
fn every_instance_ranks_recent_above_old() {
    let now = at_day(15);
    let env = MockEnvironment::at(now);
    let recent = days_before(now, 1);
    let old = days_before(now, 120);
    let mut failures = Vec::new();
    for spec in FrecencyRankingSpec::all() {
        let entries = vec![entry("/old", vec![old], false), entry("/recent", vec![recent], false)];
        let ranked = apply(&spec, entries, &env).unwrap();
        if ranked.first().map(|r| r.path.as_str()) != Some("/recent") {
            failures.push(spec.name.clone());
        }
    }
    assert!(failures.is_empty(), "instances ranked old over recent: {failures:?}");
}

#[test]
fn skimtab_parity_is_behavior_preserving() {
    let now = at_day(10);
    let env = MockEnvironment::at(now);
    let spec = FrecencyRankingSpec::skimtab_parity();
    let entries = vec![entry("/x", vec![now, days_before(now, 4)], false)];
    let ranked = apply(&spec, entries, &env).unwrap();
    let expected = 1.0 / (1.0 + 0.0) + 1.0 / (1.0 + 4.0);
    assert!((value(ranked[0].score) - expected).abs() < 1e-9, "got {}", value(ranked[0].score));
}

#[test]
fn discovered_only_is_floored_and_below_recent_visits() {
    let now = at_day(10);
    let env = MockEnvironment::at(now);
    let spec = FrecencyRankingSpec::skimtab_parity();
    let entries = vec![entry("/indexed", vec![], true), entry("/recent", vec![days_before(now, 100)], false)];
    let ranked = apply(&spec, entries, &env).unwrap();
    let indexed = ranked.iter().find(|r| r.path == "/indexed").unwrap();
    let recent = ranked.iter().find(|r| r.path == "/recent").unwrap();
    assert_eq!(indexed.score.bits, spec.indexed_epsilon.bits);
    assert!(
        value(recent.score) > value(indexed.score),
        "recent {} vs floor {}",
        value(recent.score),
        value(indexed.score)
    );
}

#[test]
fn topk_truncates() {
    let now = at_day(10);
    let env = MockEnvironment::at(now);
    let mut spec = FrecencyRankingSpec::skimtab_parity();
    spec.phases = vec![
        RankPhase::LoadEntries,
        RankPhase::ComputeAge,
        RankPhase::ApplyDecay,
        RankPhase::Combine,
        RankPhase::FloorIndexed,
        RankPhase::SortDesc,
        RankPhase::TopK { n: 2 },
    ];
    let entries = (0..10).map(|i| entry(&format!("/d{i}"), vec![days_before(now, i)], false)).collect();
    let ranked = apply(&spec, entries, &env).unwrap();
    assert_eq!(ranked.len(), 2);
}

#[test]
fn malformed_pipeline_errors_not_panics() {
    let mut spec = FrecencyRankingSpec::skimtab_parity();
    spec.phases = vec![RankPhase::Combine];
    let err = Ranker::new(&spec, vec![], "").err().unwrap();
    match err {
        SpecError::Interp { phase, .. } => assert_eq!(phase, "Combine"),
    }
    let env = MockEnvironment::at(at_day(10));
    let err = apply(&spec, vec![], &env).err().unwrap();
    match err {
        SpecError::Interp { phase, .. } => assert_eq!(phase, "Combine"),
    }
}

#[test]
fn rank_phase_matrix_is_total() {
    fn needs_needle(p: RankPhase) -> bool {
        match p {
            RankPhase::MatchNeedle | RankPhase::CollapseDescendants { .. } => true,
            RankPhase::LoadEntries
            | RankPhase::ComputeAge
            | RankPhase::ApplyDecay
            | RankPhase::Combine
            | RankPhase::FloorIndexed
            | RankPhase::SortDesc
            | RankPhase::TopK { .. } => false,
        }
    }
    assert!(needs_needle(RankPhase::MatchNeedle));
    assert!(!needs_needle(RankPhase::SortDesc));
    let now = at_day(10);
    let env = MockEnvironment::at(now);
    let mut spec = FrecencyRankingSpec::skimtab_parity();
    spec.phases = FrecencyRankingSpec::canonical_phases();
    let entries = vec![entry("/a", vec![now], false), entry("/a/b", vec![now], false)];
    let ranked = apply(&spec, entries, &env).unwrap();
    assert_eq!(ranked.len(), 2, "empty needle must not collapse or filter");
}

#[test]
fn match_kind_matrix_is_total() {
    let rows: &[(MatchKind, &str, &str)] = &[
        (MatchKind::BasenameExact, "nix", "/code/pleme-io/nix"),
        (MatchKind::BasenamePrefix, "wad", "/code/pleme-io/wadachi"),
        (MatchKind::BasenameSubsequence, "wdc", "/code/pleme-io/wadachi"),
        (MatchKind::ComponentPrefix, "wad", "/code/wadachi/spec/src"),
        (MatchKind::SubstringAnywhere, "mmu", "/code/akeyless-community/gifs"),
    ];
    assert_eq!(rows.len(), MatchKind::ALL.len(), "a MatchKind was added/removed without updating the matrix");
    for (expected, needle, path) in rows {
        let got = MatchProfile::classify_raw(needle, path);
        assert_eq!(got, Some(*expected), "{needle:?} vs {path:?}");
    }
    let mut sorted = MatchKind::ALL.to_vec();
    sorted.sort_unstable();
    assert_eq!(sorted, MatchKind::ALL, "MatchKind Ord must be worst → best");
}

#[test]
fn anchored_matching_rejects_mid_word_ancestor_coincidences() {
    let noise = "/Users/x/code/github/akeyless-community/Akeyless-Cursor-Plugin/resources/gifs";
    let real = "/Users/x/code/github/pleme-io/nix";
    let anchored = MatchProfile::anchored();
    assert_eq!(anchored.classify("ni", noise), None, "mid-word ancestor coincidence must not match");
    assert_eq!(anchored.classify("ni", real), Some(MatchKind::BasenamePrefix));
    let community = "/Users/x/code/github/akeyless-community";
    assert_eq!(anchored.classify("ni", community), Some(MatchKind::BasenameSubsequence));
    assert!(
        value(anchored.weight(MatchKind::BasenamePrefix))
            > 3.0 * value(anchored.weight(MatchKind::BasenameSubsequence))
    );
    assert_eq!(MatchProfile::substring_legacy().classify("ni", noise), Some(MatchKind::SubstringAnywhere));
}

#[test]
fn descendants_collapse_under_a_kept_ancestor() {
    let now = at_day(10);
    let env = MockEnvironment::at(now);
    let spec = FrecencyRankingSpec::skimtab_parity();
    let paths = [
        "/code/pleme-io/wadachi",
        "/code/pleme-io/wadachi/wadachi-spec",
        "/code/pleme-io/wadachi/wadachi-spec/specs",
        "/code/pleme-io/wadachi/wadachi-spec/src",
        "/code/pleme-io/wadachi/wadachi/src",
    ];
    let entries = paths.iter().map(|p| entry(p, vec![now], false)).collect();
    let ranked = apply_matched(&spec, entries, "wad", &env).unwrap();
    assert_eq!(
        ranked.iter().map(|r| r.path.as_str()).collect::<Vec<_>>(),
        vec!["/code/pleme-io/wadachi"],
        "one repo must not flood the result set with its own subtree"
    );
}

#[test]
fn a_lived_in_dir_outranks_a_never_visited_namesake() {
    let now = at_day(10);
    let env = MockEnvironment::at(now);
    let spec = FrecencyRankingSpec::skimtab_parity();
    let entries = vec![
        entry("/code/akeylesslabs/main/vendor/github.com/wadey", vec![], true),
        entry("/code/pleme-io/wadachi", vec![days_before(now, 1)], false),
    ];
    let ranked = apply_matched(&spec, entries, "wad", &env).unwrap();
    assert_eq!(ranked[0].path, "/code/pleme-io/wadachi");
}

#[test]
fn slash_needle_matches_ancestor_then_basename() {
    let anchored = MatchProfile::anchored();
    let p = "/Users/x/code/github/pleme-io/wadachi";
    assert_eq!(anchored.classify("pleme-io/wad", p), Some(MatchKind::BasenamePrefix));
    assert_eq!(anchored.classify("akeylesslabs/wad", p), None);
    assert_eq!(anchored.classify("wadachi/pleme-io", p), None);
}

#[test]
fn matching_is_case_insensitive_and_empty_is_identity() {
    let anchored = MatchProfile::anchored();
    let p = "/Users/x/Code/Pleme-IO/WaDaChi";
    assert_eq!(anchored.classify("wadachi", p), Some(MatchKind::BasenameExact));
    assert_eq!(anchored.classify("WAD", p), Some(MatchKind::BasenamePrefix));
    assert_eq!(anchored.classify("", p), Some(MatchKind::BasenameExact));
}

#[test]
fn published_apply_is_behavior_preserving() {
    let now = at_day(10);
    let env = MockEnvironment::at(now);
    let spec = FrecencyRankingSpec::skimtab_parity();
    let entries = vec![entry("/x", vec![now, days_before(now, 4)], false)];
    let ranked = apply(&spec, entries, &env).unwrap();
    let expected = 1.0 / (1.0 + 0.0) + 1.0 / (1.0 + 4.0);
    assert!((value(ranked[0].score) - expected).abs() < 1e-9, "got {}", value(ranked[0].score));
}

#[test]
fn no_instance_returns_a_non_match() {
    let now = at_day(10);
    let env = MockEnvironment::at(now);
    for spec in FrecencyRankingSpec::all() {
        let entries = vec![entry("/code/pleme-io/nix", vec![now], false)];
        let ranked = apply_matched(&spec, entries, "zzzznope", &env).unwrap();
        assert!(ranked.is_empty(), "{} returned a non-match", spec.name);
    }
}

/// The fixture tree under `/t`: directories `a/b/c`, `node_modules/x`,
/// `.hidden/y`, and the file `file.txt`; each entry with whether it is a
/// directory.
fn fixture() -> Vec<(String, bool)> {
    let mut entries = vec![("/t".to_owned(), true)];
    for d in ["a", "a/b", "a/b/c", "node_modules", "node_modules/x", ".hidden", ".hidden/y"] {
        entries.push((format!("/t/{d}"), true));
    }
    entries.push(("/t/file.txt".to_owned(), false));
    entries
}

fn walk_tree(tree: &[(String, bool)], root: &str, max_depth: usize, ignore: &IgnoreSet) -> Vec<String> {
    let mut walk = Walk::new(root, max_depth);
    while let Some((dir, depth)) = walk.next_dir() {
        let children = tree
            .iter()
            .filter(|(p, _)| p.rsplit_once('/').map(|(parent, _)| parent) == Some(dir.as_str()))
            .map(|(p, d)| WalkChild { name: p.rsplit_once('/').unwrap().1.to_owned(), path: p.clone(), is_dir: *d })
            .collect();
        walk.take_children(depth, children, ignore);
    }
    walk.into_found()
}

#[test]
fn ranked_query_surfaces_indexed_dir_floored_below_real_visits() {
    let tree = fixture();
    let ignore = IgnoreSet::new(vec!["node_modules".to_owned(), "target".to_owned()], false);
    let spec = FrecencyRankingSpec::skimtab_parity();

    let env = RealEnvironment;
    let mut store = MemDirStore::new();
    store.record("/real/visited").unwrap();
    let live = walk_tree(&tree, "/t", 3, &ignore);
    let walks = vec![(IndexerRoot::new("/t", 3), live)];
    index_walks(&mut store, &walks, &|p: &str| tree.iter().any(|(q, d)| q == p && *d)).unwrap();

    let ranked: Vec<RankedDir> =
        apply_matched(&spec, store.entries().unwrap(), "", &env).unwrap().into_iter().take(50).collect();
    assert_eq!(ranked.len(), 4);
    assert_eq!(ranked[0].path, "/real/visited", "a real visit must outrank every indexed-only dir");
    for r in &ranked[1..] {
        assert!((value(r.score) - value(spec.indexed_epsilon)).abs() < f64::EPSILON);
        assert!(value(r.score) < value(ranked[0].score));
    }
    let hit = apply_matched(&spec, store.entries().unwrap(), "a/b/c", &env).unwrap();
    assert_eq!(hit[0].path, "/t/a/b/c");
}

#[test]
fn ranking_ignores_the_order_candidates_arrive_in() {
    let now = at_day(10);
    let env = MockEnvironment::at(now);
    let spec = FrecencyRankingSpec::zoxide_parity();
    let make = |order: &[usize]| -> Vec<DirEntry> {
        let all = [
            entry("/code/b", vec![days_before(now, 2)], false),
            entry("/code/a", vec![days_before(now, 2)], false),
            entry("/code/aa", vec![now, days_before(now, 9)], false),
            entry("/idx", vec![], true),
        ];
        order.iter().map(|i| all[*i].clone()).collect()
    };
    let first: Vec<String> = apply(&spec, make(&[0, 1, 2, 3]), &env).unwrap().into_iter().map(|r| r.path).collect();
    let second: Vec<String> = apply(&spec, make(&[3, 2, 1, 0]), &env).unwrap().into_iter().map(|r| r.path).collect();
    assert_eq!(first, second);
    assert_eq!(first, vec!["/code/aa", "/code/a", "/code/b", "/idx"], "ties fall to the shorter, then the smaller path");
}

#[test]
fn the_wall_clock_is_read_for_a_visit() {
    let mut store = MemDirStore::new();
    store.record("/x").unwrap();
    let es = store.entries().unwrap();
    assert_eq!(es[0].visits.len(), 1);
    assert!(es[0].visits[0].secs > 1_700_000_000);
    assert!(es[0].visits[0].nanos < 1_000_000_000);
}

#[test]
fn latest_decay_takes_the_first_smallest_age_as_floats_compare() {
    let spec = FrecencyRankingSpec::zoxide_parity();
    let e = entry("/a", vec![Timestamp::new(1, 0), Timestamp::new(2, 0), Timestamp::new(3, 0)], false);
    let mut rk = Ranker::new(&spec, vec![e], "").unwrap();
    assert!(matches!(rk.advance(), Step::Applied));
    assert_eq!(rk.len(), 1);
    let decayed = vec![vec![encode(0.25), encode(0.5), encode(0.75)]];
    rk.set_all_ages(vec![vec![encode(f64::NAN), encode(1.0), encode(0.5)]]);
    rk.set_all_decayed(decayed.clone());
    assert_eq!(value(rk.latest_decay(0)), 0.25, "a NaN age compares equal, so the first is kept");
    rk.set_all_ages(vec![vec![encode(5.0), encode(f64::NAN), encode(1.0)]]);
    rk.set_all_decayed(decayed.clone());
    assert_eq!(value(rk.latest_decay(0)), 0.75);
    rk.set_all_ages(vec![vec![encode(0.0), encode(-0.0), encode(2.0)]]);
    rk.set_all_decayed(decayed);
    assert_eq!(value(rk.latest_decay(0)), 0.25, "the two zeros tie; the first is kept");
}
