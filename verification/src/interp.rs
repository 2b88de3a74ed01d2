//! The ranking interpreter: walks a [`FrecencyRankingSpec`]'s phases over a
//! working set of candidates.
//!
//! The numeric phases (`ComputeAge`, `ApplyDecay`, `Combine`, and the scaling
//! half of `MatchNeedle`) compute with binary64 arithmetic; the interpreter
//! hands them to its caller as [`Step`]s and receives the results through
//! the setters. Every other phase — seeding, the discovered-only floor,
//! needle filtering, descendant collapse, sorting and truncation — runs here.

use vstd::prelude::*;
use crate::binary64::Binary64;
use crate::env::Timestamp;
use crate::matching::{spec_classify, MatchProfile};
use crate::path::{
    components, components_lt, lemma_components_lt_order, parts_before, parts_prefix, parts_view,
    path_components, Component, Part,
};
use crate::spec::{DirEntry, FrecencyRankingSpec, RankPhase, RankedDir};

verus! {

/// A typed interpreter failure.
#[derive(Debug, PartialEq, Eq)]
pub enum SpecError {
    /// A phase ran against a working set that `LoadEntries` never seeded.
    Interp {
        /// The phase that failed.
        phase: String,
        /// Why it failed.
        reason: String,
    },
}

/// The name of a phase, as error reports spell it.
pub open spec fn spec_phase_name(p: RankPhase) -> Seq<char> {
    match p {
        RankPhase::LoadEntries => "LoadEntries"@,
        RankPhase::ComputeAge => "ComputeAge"@,
        RankPhase::ApplyDecay => "ApplyDecay"@,
        RankPhase::Combine => "Combine"@,
        RankPhase::FloorIndexed => "FloorIndexed"@,
        RankPhase::MatchNeedle => "MatchNeedle"@,
        RankPhase::CollapseDescendants { .. } => "CollapseDescendants"@,
        RankPhase::SortDesc => "SortDesc"@,
        RankPhase::TopK { .. } => "TopK"@,
    }
}

/// Why a phase before any `LoadEntries` fails.
pub open spec fn spec_before_load_reason() -> Seq<char> {
    "phase ran before `LoadEntries` seeded the working set"@
}

/// Why a pipeline without `LoadEntries` fails.
pub open spec fn spec_no_load_reason() -> Seq<char> {
    "spec had no LoadEntries phase — nothing to rank"@
}

/// The name of a phase.
pub fn phase_name(p: &RankPhase) -> (r: String)
    ensures
        r@ == spec_phase_name(*p),
{
    match p {
        RankPhase::LoadEntries => "LoadEntries".to_owned(),
        RankPhase::ComputeAge => "ComputeAge".to_owned(),
        RankPhase::ApplyDecay => "ApplyDecay".to_owned(),
        RankPhase::Combine => "Combine".to_owned(),
        RankPhase::FloorIndexed => "FloorIndexed".to_owned(),
        RankPhase::MatchNeedle => "MatchNeedle".to_owned(),
        RankPhase::CollapseDescendants { .. } => "CollapseDescendants".to_owned(),
        RankPhase::SortDesc => "SortDesc".to_owned(),
        RankPhase::TopK { .. } => "TopK".to_owned(),
    }
}

/// The error a pipeline of these phases ends in, if any. Only the first
/// phase decides: a pipeline seeds its working set in its first phase or
/// fails there.
pub open spec fn spec_pipeline_error(phases: Seq<RankPhase>) -> Option<(Seq<char>, Seq<char>)> {
    if phases.len() == 0 {
        Some(("LoadEntries"@, spec_no_load_reason()))
    } else if phases[0] != RankPhase::LoadEntries {
        Some((spec_phase_name(phases[0]), spec_before_load_reason()))
    } else {
        None
    }
}

/// Per-candidate state threaded through the phases.
pub struct Acc {
    /// The candidate's path.
    pub path: String,
    /// Never actually visited.
    pub discovered_only: bool,
    /// Number of visits.
    pub freq: usize,
    /// Visit instants.
    pub visits: Vec<Timestamp>,
    /// Age of each visit, in days (set by `ComputeAge`).
    pub ages: Vec<Binary64>,
    /// Decayed weight of each visit (set by `ApplyDecay`).
    pub decayed: Vec<Binary64>,
    /// Current score.
    pub score: Binary64,
}

/// The mathematical content of an [`Acc`].
pub struct AccView {
    pub path: Seq<char>,
    pub discovered_only: bool,
    pub freq: nat,
    pub visits: Seq<Timestamp>,
    pub ages: Seq<Binary64>,
    pub decayed: Seq<Binary64>,
    pub score: Binary64,
}

impl View for Acc {
    type V = AccView;

    open spec fn view(&self) -> AccView {
        AccView {
            path: self.path@,
            discovered_only: self.discovered_only,
            freq: self.freq as nat,
            visits: self.visits@,
            ages: self.ages@,
            decayed: self.decayed@,
            score: self.score,
        }
    }
}

/// The views of a sequence of accumulators.
pub open spec fn accs_view(v: Seq<Acc>) -> Seq<AccView> {
    Seq::new(v.len(), |i: int| v[i]@)
}

/// The accumulator `LoadEntries` seeds from one entry.
pub open spec fn spec_seed_one(e: DirEntry) -> AccView {
    AccView {
        path: e.path@,
        discovered_only: e.discovered_only,
        freq: e.visits@.len(),
        visits: e.visits@,
        ages: Seq::empty(),
        decayed: Seq::empty(),
        score: Binary64 { bits: 0 },
    }
}

/// The working set `LoadEntries` seeds: one fresh accumulator per entry, in order.
pub open spec fn spec_seed(entries: Seq<DirEntry>) -> Seq<AccView> {
    Seq::new(entries.len(), |i: int| spec_seed_one(entries[i]))
}

/// `FloorIndexed`: discovered-only candidates get exactly the floor score.
pub open spec fn spec_floor(w: Seq<AccView>, eps: Binary64) -> Seq<AccView> {
    Seq::new(w.len(), |i: int| if w[i].discovered_only { AccView { score: eps, ..w[i] } } else { w[i] })
}

/// The elements of `s` whose flag in `keep` is set, in order.
pub open spec fn select<T>(s: Seq<T>, keep: Seq<bool>) -> Seq<T>
    decreases s.len(),
{
    if s.len() == 0 || keep.len() == 0 {
        Seq::empty()
    } else {
        let rest = select(s.drop_last(), keep.drop_last());
        if keep.last() {
            rest.push(s.last())
        } else {
            rest
        }
    }
}

/// Which candidates the needle matches (at or above the profile's floor).
pub open spec fn spec_match_keeps(w: Seq<AccView>, profile: MatchProfile, needle: Seq<char>) -> Seq<bool> {
    Seq::new(w.len(), |i: int| spec_classify(profile.require_at_least, needle, w[i].path) is Some)
}

/// The weight each matched candidate's score is scaled by.
pub open spec fn spec_match_weights(w: Seq<AccView>, profile: MatchProfile, needle: Seq<char>) -> Seq<Binary64> {
    select(
        Seq::new(w.len(), |i: int| match spec_classify(profile.require_at_least, needle, w[i].path) {
            Some(k) => profile.spec_weight(k),
            None => Binary64 { bits: 0 },
        }),
        spec_match_keeps(w, profile, needle),
    )
}

/// The first root at index `from` or later whose components are a prefix of `c`.
pub open spec fn spec_root_from(roots: Seq<(Seq<Component>, nat)>, c: Seq<Component>, from: int) -> Option<int>
    decreases roots.len() - from,
{
    if from < 0 || from >= roots.len() {
        None
    } else if roots[from].0.is_prefix_of(c) {
        Some(from)
    } else {
        spec_root_from(roots, c, from + 1)
    }
}

/// The first kept root whose components are a prefix of `c`.
pub open spec fn spec_find_root(roots: Seq<(Seq<Component>, nat)>, c: Seq<Component>) -> Option<int> {
    spec_root_from(roots, c, 0)
}

/// `CollapseDescendants`, walking the paths in order: a path beneath an
/// already-kept root is kept while that root has kept fewer than `keep`
/// descendants; a path beneath no root is kept and becomes a root.
/// Returns the roots with their descendant counts, and the keep flags.
pub open spec fn spec_collapse(paths: Seq<Seq<char>>, keep: nat) -> (Seq<(Seq<Component>, nat)>, Seq<bool>)
    decreases paths.len(),
{
    if paths.len() == 0 {
        (Seq::empty(), Seq::empty())
    } else {
        let (roots, keeps) = spec_collapse(paths.drop_last(), keep);
        let c = path_components(paths.last());
        match spec_find_root(roots, c) {
            Some(k) => if roots[k].1 >= keep {
                (roots, keeps.push(false))
            } else {
                (roots.update(k, (roots[k].0, roots[k].1 + 1)), keeps.push(true))
            },
            None => (roots.push((c, 0nat)), keeps.push(true)),
        }
    }
}

/// With no match left, no root at or after `from` is a prefix of `c`.
proof fn lemma_root_from_none(roots: Seq<(Seq<Component>, nat)>, c: Seq<Component>, from: int, k: int)
    requires
        0 <= from <= k < roots.len(),
        spec_root_from(roots, c, from) is None,
    ensures
        !roots[k].0.is_prefix_of(c),
    decreases k - from,
{
    if from < k {
        lemma_root_from_none(roots, c, from + 1, k);
    }
}

/// Collapsing with no descendants allowed: a kept path is one of the roots
/// afterwards.
proof fn lemma_collapse_zero_kept_is_root(paths: Seq<Seq<char>>, i: int)
    requires
        0 <= i < paths.len(),
        spec_collapse(paths, 0).1[i],
    ensures
        exists|k: int| 0 <= k < spec_collapse(paths, 0).0.len() && #[trigger] spec_collapse(paths, 0).0[k].0 == path_components(paths[i]),
    decreases paths.len(),
{
    lemma_collapse_len(paths.drop_last(), 0);
    let (roots, keeps) = spec_collapse(paths.drop_last(), 0);
    let c = path_components(paths.last());
    if i == paths.len() - 1 {
        match spec_find_root(roots, c) {
            Some(k) => {},
            None => {
                assert(spec_collapse(paths, 0).0[roots.len() as int].0 == c);
            },
        }
    } else {
        assert(spec_collapse(paths, 0).1[i] == keeps[i]);
        assert(paths.drop_last()[i] == paths[i]);
        lemma_collapse_zero_kept_is_root(paths.drop_last(), i);
        let k = choose|k: int| 0 <= k < roots.len() && #[trigger] roots[k].0 == path_components(paths[i]);
        match spec_find_root(roots, c) {
            Some(j) => {
                assert(spec_collapse(paths, 0).0[k].0 == path_components(paths[i]));
            },
            None => {
                assert(spec_collapse(paths, 0).0[k].0 == path_components(paths[i]));
            },
        }
    }
}

/// `CollapseDescendants { keep: 0 }` keeps no path beneath an earlier kept
/// one: of two kept paths, the earlier's components are never a prefix of
/// the later's.
pub proof fn lemma_collapse_keeps_no_descendant(paths: Seq<Seq<char>>, i: int, j: int)
    requires
        0 <= i < j < paths.len(),
        spec_collapse(paths, 0).1[i],
        spec_collapse(paths, 0).1[j],
    ensures
        !path_components(paths[i]).is_prefix_of(path_components(paths[j])),
    decreases paths.len(),
{
    lemma_collapse_len(paths.drop_last(), 0);
    let (roots, keeps) = spec_collapse(paths.drop_last(), 0);
    let c = path_components(paths.last());
    assert(paths.drop_last()[i] == paths[i]);
    if j == paths.len() - 1 {
        assert(spec_collapse(paths, 0).1[i] == keeps[i]);
        lemma_collapse_zero_kept_is_root(paths.drop_last(), i);
        let k = choose|k: int| 0 <= k < roots.len() && #[trigger] roots[k].0 == path_components(paths[i]);
        match spec_find_root(roots, c) {
            Some(m) => {
                assert(!spec_collapse(paths, 0).1[j]);
            },
            None => {
                lemma_root_from_none(roots, c, 0, k);
            },
        }
    } else {
        assert(spec_collapse(paths, 0).1[i] == keeps[i]);
        assert(spec_collapse(paths, 0).1[j] == keeps[j]);
        assert(paths.drop_last()[j] == paths[j]);
        lemma_collapse_keeps_no_descendant(paths.drop_last(), i, j);
    }
}

/// `spec_find_root` only names a root whose components are a prefix of `c`.
proof fn lemma_root_from_some(roots: Seq<(Seq<Component>, nat)>, c: Seq<Component>, from: int)
    ensures
        spec_root_from(roots, c, from) matches Some(k) ==> 0 <= k < roots.len() && roots[k].0.is_prefix_of(c),
    decreases roots.len() - from,
{
    if 0 <= from < roots.len() && !roots[from].0.is_prefix_of(c) {
        lemma_root_from_some(roots, c, from + 1);
    }
}

/// Every root of the collapse fold is the components of a path it kept.
proof fn lemma_collapse_roots_kept(paths: Seq<Seq<char>>, keep: nat, k: int)
    requires
        0 <= k < spec_collapse(paths, keep).0.len(),
    ensures
        exists|i: int| 0 <= i < paths.len() && spec_collapse(paths, keep).1[i]
            && #[trigger] path_components(paths[i]) == spec_collapse(paths, keep).0[k].0,
    decreases paths.len(),
{
    lemma_collapse_len(paths, keep);
    if paths.len() > 0 {
        lemma_collapse_len(paths.drop_last(), keep);
        let (roots, keeps) = spec_collapse(paths.drop_last(), keep);
        let c = path_components(paths.last());
        let n = paths.len() - 1;
        lemma_root_from_some(roots, c, 0);
        assert(k < roots.len() ==> spec_collapse(paths, keep).0[k].0 == roots[k].0) by {
            match spec_find_root(roots, c) {
                Some(m) => {
                    if roots[m].1 < keep {
                        assert(roots.update(m, (roots[m].0, roots[m].1 + 1))[k].0 == roots[k].0);
                    }
                },
                None => {
                    if k < roots.len() {
                        assert(roots.push((c, 0nat))[k] == roots[k]);
                    }
                },
            }
        }
        if k < roots.len() {
            lemma_collapse_roots_kept(paths.drop_last(), keep, k);
            let i = choose|i: int| 0 <= i < paths.drop_last().len() && keeps[i]
                && #[trigger] path_components(paths.drop_last()[i]) == roots[k].0;
            assert(paths[i] == paths.drop_last()[i]);
            assert(spec_collapse(paths, keep).1[i] == keeps[i]);
            assert(spec_collapse(paths, keep).0[k].0 == roots[k].0);
            assert(path_components(paths[i]) == spec_collapse(paths, keep).0[k].0);
        } else {
            assert(spec_find_root(roots, c) is None) by {
                if spec_find_root(roots, c) is Some {
                    let m = spec_find_root(roots, c).unwrap();
                    if roots[m].1 < keep {
                        assert(roots.update(m, (roots[m].0, roots[m].1 + 1)).len() == roots.len());
                    }
                }
            }
            assert(spec_collapse(paths, keep).1[n]);
            assert(path_components(paths[n]) == spec_collapse(paths, keep).0[k].0);
        }
    }
}

/// `CollapseDescendants` drops only descendants: a candidate whose
/// components extend those of no earlier kept candidate is always kept,
/// whatever the number of descendants allowed.
pub proof fn lemma_collapse_keeps_undominated(paths: Seq<Seq<char>>, keep: nat, j: int)
    requires
        0 <= j < paths.len(),
        forall|i: int| 0 <= i < j && #[trigger] spec_collapse(paths, keep).1[i]
            ==> !path_components(paths[i]).is_prefix_of(path_components(paths[j])),
    ensures
        spec_collapse(paths, keep).1[j],
    decreases paths.len(),
{
    lemma_collapse_len(paths.drop_last(), keep);
    let (roots, keeps) = spec_collapse(paths.drop_last(), keep);
    let c = path_components(paths.last());
    if j == paths.len() - 1 {
        lemma_root_from_some(roots, c, 0);
        if spec_find_root(roots, c) is Some {
            let k = spec_find_root(roots, c).unwrap();
            lemma_collapse_roots_kept(paths.drop_last(), keep, k);
            let i = choose|i: int| 0 <= i < paths.drop_last().len() && keeps[i]
                && #[trigger] path_components(paths.drop_last()[i]) == roots[k].0;
            assert(paths[i] == paths.drop_last()[i]);
            assert(spec_collapse(paths, keep).1[i] == keeps[i]);
            assert(false);
        }
    } else {
        assert(paths.drop_last()[j] == paths[j]);
        assert forall|i: int| 0 <= i < j && #[trigger] keeps[i]
            implies !path_components(paths.drop_last()[i]).is_prefix_of(path_components(paths.drop_last()[j])) by {
            assert(paths.drop_last()[i] == paths[i]);
            assert(spec_collapse(paths, keep).1[i] == keeps[i]);
        }
        lemma_collapse_keeps_undominated(paths.drop_last(), keep, j);
        assert(spec_collapse(paths, keep).1[j] == keeps[j]);
    }
}

/// `LoadEntries` seeds one candidate per entry, in order, each with the
/// entry's path, flag and visits, its visit count the number of those
/// visits, and nothing computed yet.
pub proof fn lemma_seed_counts_visits(entries: Seq<DirEntry>)
    ensures
        spec_seed(entries).len() == entries.len(),
        forall|i: int| 0 <= i < entries.len() ==> {
            &&& (#[trigger] spec_seed(entries)[i]).freq == entries[i].visits@.len()
            &&& spec_seed(entries)[i].path == entries[i].path@
            &&& spec_seed(entries)[i].visits == entries[i].visits@
            &&& spec_seed(entries)[i].discovered_only == entries[i].discovered_only
            &&& spec_seed(entries)[i].ages.len() == 0
            &&& spec_seed(entries)[i].decayed.len() == 0
        },
{
}

/// Every element `select` keeps is an element of the input whose flag is set.
pub proof fn lemma_select_from<T>(s: Seq<T>, keep: Seq<bool>, m: int)
    requires
        s.len() == keep.len(),
        0 <= m < select(s, keep).len(),
    ensures
        exists|i: int| 0 <= i < s.len() && keep[i] && #[trigger] s[i] == select(s, keep)[m],
    decreases s.len(),
{
    let rest = select(s.drop_last(), keep.drop_last());
    if keep.last() && m == rest.len() {
        assert(s[s.len() - 1] == select(s, keep)[m]);
    } else {
        lemma_select_from(s.drop_last(), keep.drop_last(), m);
        let i = choose|i: int| 0 <= i < s.drop_last().len() && keep.drop_last()[i] && #[trigger] s.drop_last()[i] == rest[m];
        assert(s[i] == select(s, keep)[m]);
    }
}

/// After `MatchNeedle`, every candidate left matches the needle at or above
/// the profile's floor: no non-match is ever returned.
pub proof fn lemma_match_keeps_only_matches(w: Seq<AccView>, profile: MatchProfile, needle: Seq<char>, m: int)
    requires
        0 <= m < select(w, spec_match_keeps(w, profile, needle)).len(),
    ensures
        spec_classify(profile.require_at_least, needle, select(w, spec_match_keeps(w, profile, needle))[m].path) is Some,
{
    lemma_select_from(w, spec_match_keeps(w, profile, needle), m);
}

/// The paths of a working set.
pub open spec fn spec_paths(w: Seq<AccView>) -> Seq<Seq<char>> {
    Seq::new(w.len(), |i: int| w[i].path)
}

/// What the caller is asked to do next.
pub enum Step {
    /// A phase ran inside the interpreter; call [`Ranker::advance`] again.
    Applied,
    /// Set every candidate's `ages` from its visits and the current time.
    ComputeAge,
    /// Set every candidate's `decayed` from its `ages`.
    ApplyDecay,
    /// Set every candidate's `score` from its decayed weights, visit count
    /// and [`Ranker::latest_decay`].
    Combine,
    /// Multiply candidate `i`'s score by the `i`-th weight.
    ScaleByMatch(Vec<Binary64>),
    /// The pipeline ended with this ranking.
    Finished(Vec<RankedDir>),
}


/// A copy of an accumulator.
fn copy_acc(a: &Acc) -> (r: Acc)
    ensures
        r@ == a@,
{
    let visits = a.visits.clone();
    assert(visits@ =~= a.visits@);
    let ages = a.ages.clone();
    assert(ages@ =~= a.ages@);
    let decayed = a.decayed.clone();
    assert(decayed@ =~= a.decayed@);
    Acc {
        path: a.path.clone(),
        discovered_only: a.discovered_only,
        freq: a.freq,
        visits,
        ages,
        decayed,
        score: a.score,
    }
}

/// A fresh accumulator for one entry.
fn seed_one(e: &DirEntry) -> (r: Acc)
    ensures
        r@ == spec_seed_one(*e),
{
    let visits = e.visits.clone();
    assert(visits@ =~= e.visits@);
    Acc {
        path: e.path.clone(),
        discovered_only: e.discovered_only,
        freq: e.visits.len(),
        visits,
        ages: Vec::new(),
        decayed: Vec::new(),
        score: Binary64 { bits: 0 },
    }
}

/// The working set seeded from `entries`.
fn seed(entries: &Vec<DirEntry>) -> (r: Vec<Acc>)
    ensures
        accs_view(r@) == spec_seed(entries@),
{
    let mut out: Vec<Acc> = Vec::new();
    let mut i: usize = 0;
    while i < entries.len()
        invariant
            i <= entries@.len(),
            out@.len() == i,
            accs_view(out@) == spec_seed(entries@.take(i as int)),
        decreases entries@.len() - i,
    {
        let a = seed_one(&entries[i]);
        let ghost before = out@;
        out.push(a);
        assert(out@ == before.push(a));
        assert forall|k: int| 0 <= k < out@.len() implies #[trigger] accs_view(out@)[k] == spec_seed(entries@.take(i + 1))[k] by {
            if k < i {
                assert(accs_view(before)[k] == spec_seed(entries@.take(i as int))[k]);
            }
        }
        assert(accs_view(out@) =~= spec_seed(entries@.take(i + 1)));
        i = i + 1;
    }
    assert(entries@.take(entries@.len() as int) =~= entries@);
    out
}


/// `FloorIndexed` over an owned working set.
fn floor_all(w: Vec<Acc>, eps: Binary64) -> (r: Vec<Acc>)
    ensures
        accs_view(r@) == spec_floor(accs_view(w@), eps),
{
    let ghost gw = accs_view(w@);
    let mut out: Vec<Acc> = Vec::new();
    for a in it: w
        invariant
            it.seq().len() == gw.len(),
            forall|k: int| 0 <= k < gw.len() ==> #[trigger] it.seq()[k]@ == gw[k],
            out@.len() == it.index(),
            forall|k: int| 0 <= k < out@.len() ==> #[trigger] out@[k]@ == spec_floor(gw, eps)[k],
    {
        let ghost idx = out@.len() as int;
        assert(a@ == gw[idx]);
        let mut a = a;
        if a.discovered_only {
            a.score = eps;
        }
        out.push(a);
    }
    assert(accs_view(out@) =~= spec_floor(gw, eps));
    out
}


/// The needle-matching filter over an owned working set: the matched
/// candidates, in order, and the weight each is to be scaled by.
fn match_filter(w: Vec<Acc>, profile: &MatchProfile, needle: &str) -> (r: (Vec<Acc>, Vec<Binary64>))
    ensures
        accs_view(r.0@) == select(accs_view(w@), spec_match_keeps(accs_view(w@), *profile, needle@)),
        r.1@ == spec_match_weights(accs_view(w@), *profile, needle@),
{
    let ghost gw = accs_view(w@);
    let ghost keeps = spec_match_keeps(gw, *profile, needle@);
    let ghost wts = Seq::new(gw.len(), |i: int| match spec_classify(profile.require_at_least, needle@, gw[i].path) {
        Some(k) => profile.spec_weight(k),
        None => Binary64 { bits: 0 },
    });
    let mut out: Vec<Acc> = Vec::new();
    let mut weights: Vec<Binary64> = Vec::new();
    assert(gw.take(0) =~= Seq::<AccView>::empty());
    for a in it: w
        invariant
            it.seq().len() == gw.len(),
            forall|k: int| 0 <= k < gw.len() ==> #[trigger] it.seq()[k]@ == gw[k],
            keeps == spec_match_keeps(gw, *profile, needle@),
            wts.len() == gw.len(),
            forall|k: int| 0 <= k < gw.len() ==> #[trigger] wts[k] == match spec_classify(profile.require_at_least, needle@, gw[k].path) {
                Some(kd) => profile.spec_weight(kd),
                None => Binary64 { bits: 0 },
            },
            it.index() <= gw.len(),
            accs_view(out@) == select(gw.take(it.index() as int), keeps.take(it.index() as int)),
            weights@ == select(wts.take(it.index() as int), keeps.take(it.index() as int)),
    {
        let ghost idx = it.index() as int;
        assert(a@ == gw[idx]);
        assert(gw.take(idx + 1).drop_last() =~= gw.take(idx));
        assert(keeps.take(idx + 1).drop_last() =~= keeps.take(idx));
        assert(wts.take(idx + 1).drop_last() =~= wts.take(idx));
        let ghost before = out@;
        match profile.classify(needle, a.path.as_str()) {
            Some(kind) => {
                let wt = profile.weight(kind);
                out.push(a);
                weights.push(wt);
                assert(accs_view(out@) =~= accs_view(before).push(a@));
            },
            None => {},
        }
    }
    assert(gw.take(gw.len() as int) =~= gw);
    assert(keeps.take(gw.len() as int) =~= keeps);
    assert(wts.take(gw.len() as int) =~= wts);
    (out, weights)
}

/// The view of the collapse roots.
pub open spec fn roots_view(parts: Seq<Vec<Part>>, counts: Seq<usize>) -> Seq<(Seq<Component>, nat)> {
    Seq::new(parts.len(), |k: int| (parts_view(parts[k]@), counts[k] as nat))
}

/// The collapse fold yields one flag per path.
proof fn lemma_collapse_len(paths: Seq<Seq<char>>, keep: nat)
    ensures
        spec_collapse(paths, keep).1.len() == paths.len(),
    decreases paths.len(),
{
    if paths.len() > 0 {
        lemma_collapse_len(paths.drop_last(), keep);
    }
}

/// The first root whose components are a prefix of `comps`.
fn find_root(root_parts: &Vec<Vec<Part>>, root_counts: &Vec<usize>, comps: &Vec<Part>) -> (r: Option<usize>)
    requires
        root_parts@.len() == root_counts@.len(),
    ensures
        match r {
            Some(j) => j < root_parts@.len() && spec_find_root(roots_view(root_parts@, root_counts@), parts_view(comps@)) == Some(j as int),
            None => spec_find_root(roots_view(root_parts@, root_counts@), parts_view(comps@)) is None,
        },
{
    let ghost groots = roots_view(root_parts@, root_counts@);
    let mut k: usize = 0;
    while k < root_parts.len()
        invariant
            k <= root_parts@.len(),
            root_parts@.len() == root_counts@.len(),
            groots == roots_view(root_parts@, root_counts@),
            spec_find_root(groots, parts_view(comps@)) == spec_root_from(groots, parts_view(comps@), k as int),
        decreases root_parts@.len() - k,
    {
        if parts_prefix(&root_parts[k], comps) {
            return Some(k);
        }
        k = k + 1;
    }
    None
}

/// `CollapseDescendants` over an owned working set.
fn collapse(w: Vec<Acc>, keep: usize) -> (r: Vec<Acc>)
    ensures
        accs_view(r@) == select(accs_view(w@), spec_collapse(spec_paths(accs_view(w@)), keep as nat).1),
{
    let ghost gw = accs_view(w@);
    let ghost paths = spec_paths(gw);
    let mut root_parts: Vec<Vec<Part>> = Vec::new();
    let mut root_counts: Vec<usize> = Vec::new();
    let mut out: Vec<Acc> = Vec::new();
    assert(gw.take(0) =~= Seq::<AccView>::empty());
    assert(paths.take(0) =~= Seq::<Seq<char>>::empty());
    for a in it: w
        invariant
            it.seq().len() == gw.len(),
            forall|k: int| 0 <= k < gw.len() ==> #[trigger] it.seq()[k]@ == gw[k],
            paths == spec_paths(gw),
            it.index() <= gw.len(),
            root_parts@.len() == root_counts@.len(),
            roots_view(root_parts@, root_counts@) == spec_collapse(paths.take(it.index() as int), keep as nat).0,
            accs_view(out@) == select(gw.take(it.index() as int), spec_collapse(paths.take(it.index() as int), keep as nat).1),
    {
        let ghost idx = it.index() as int;
        assert(a@ == gw[idx]);
        let ghost groots = roots_view(root_parts@, root_counts@);
        let ghost prev = spec_collapse(paths.take(idx), keep as nat);
        proof { lemma_collapse_len(paths.take(idx), keep as nat); }
        assert(paths.take(idx + 1).drop_last() =~= paths.take(idx));
        assert(gw.take(idx + 1).drop_last() =~= gw.take(idx));
        assert(paths.take(idx + 1).last() == a@.path);
        let comps = components(a.path.as_str());
        let found = find_root(&root_parts, &root_counts, &comps);
        let ghost before = out@;
        let ghost next = spec_collapse(paths.take(idx + 1), keep as nat);
        proof { lemma_collapse_len(paths.take(idx + 1), keep as nat); }
        assert(groots == prev.0);
        match found {
            Some(j) => {
                assert(spec_find_root(groots, parts_view(comps@)) == Some(j as int));
                if root_counts[j] < keep {
                    let c = root_counts[j] + 1;
                    root_counts.set(j, c);
                    out.push(a);
                    assert(roots_view(root_parts@, root_counts@) =~= groots.update(j as int, (groots[j as int].0, groots[j as int].1 + 1)));
                    assert(accs_view(out@) =~= accs_view(before).push(a@));
                    assert(next.1 == prev.1.push(true));
                    assert(next.1.drop_last() =~= prev.1);
                } else {
                    assert(next.1 == prev.1.push(false));
                    assert(next.1.drop_last() =~= prev.1);
                }
            },
            None => {
                assert(spec_find_root(groots, parts_view(comps@)) is None);
                root_parts.push(comps);
                root_counts.push(0);
                out.push(a);
                assert(roots_view(root_parts@, root_counts@) =~= groots.push((path_components(a@.path), 0nat)));
                assert(accs_view(out@) =~= accs_view(before).push(a@));
                assert(next.1 == prev.1.push(true));
                assert(next.1.drop_last() =~= prev.1);
            },
        }
    }
    assert(gw.take(gw.len() as int) =~= gw);
    assert(paths.take(gw.len() as int) =~= paths);
    out
}


/// Length of the UTF-8 encoding of a character sequence, as `str::len`
/// reports it.
pub open spec fn byte_len(s: Seq<char>) -> usize {
    vstd::utf8::encode_utf8(s).len() as usize
}

/// `a` ranks before `b`: higher score (by the binary64 order key), then the
/// shorter path (in bytes), then the smaller path (component-wise).
pub open spec fn acc_before(a: AccView, b: AccView) -> bool {
    let ka = a.score.spec_order_key();
    let kb = b.score.spec_order_key();
    ||| ka > kb
    ||| ka == kb && byte_len(a.path) < byte_len(b.path)
    ||| ka == kb && byte_len(a.path) == byte_len(b.path)
        && components_lt(path_components(a.path), path_components(b.path))
}

/// Candidate `i` of `w` ranks before candidate `j`; full ties keep their
/// arrival order.
pub open spec fn ranks_before(w: Seq<AccView>, i: int, j: int) -> bool {
    acc_before(w[i], w[j]) || (!acc_before(w[j], w[i]) && i < j)
}

/// `p` lists each index below `n` exactly once.
pub open spec fn is_permutation(p: Seq<int>, n: nat) -> bool {
    &&& p.len() == n
    &&& forall|k: int| 0 <= k < p.len() ==> 0 <= #[trigger] p[k] < n
    &&& forall|k: int, l: int| 0 <= k < l < p.len() ==> p[k] != p[l]
}

/// `p` lists indices of `w` in rank order.
pub open spec fn sorted_by_rank(w: Seq<AccView>, p: Seq<int>) -> bool {
    forall|k: int, l: int| 0 <= k < l < p.len() ==> ranks_before(w, #[trigger] p[k], #[trigger] p[l])
}

/// `SortDesc`: `r` is `w` reordered by a permutation that lists it in rank order.
pub open spec fn spec_sorted(w: Seq<AccView>, r: Seq<AccView>) -> bool {
    exists|p: Seq<int>| is_permutation(p, w.len()) && sorted_by_rank(w, p)
        && r == Seq::new(p.len(), |k: int| w[p[k]])
}

/// `acc_before` is a strict weak order whose ties share score key, byte
/// length and components.
proof fn lemma_acc_before_order(a: AccView, b: AccView, c: AccView)
    ensures
        !acc_before(a, a),
        acc_before(a, b) ==> !acc_before(b, a),
        acc_before(a, b) && acc_before(b, c) ==> acc_before(a, c),
        acc_before(a, b) && !acc_before(b, c) && !acc_before(c, b) ==> acc_before(a, c),
        !acc_before(a, b) && !acc_before(b, a) && acc_before(b, c) ==> acc_before(a, c),
        !acc_before(a, b) && !acc_before(b, a) && !acc_before(b, c) && !acc_before(c, b)
            ==> !acc_before(a, c) && !acc_before(c, a),
{
    lemma_components_lt_order(path_components(a.path), path_components(b.path), path_components(c.path));
    lemma_components_lt_order(path_components(b.path), path_components(c.path), path_components(a.path));
    lemma_components_lt_order(path_components(c.path), path_components(a.path), path_components(b.path));
    lemma_components_lt_order(path_components(a.path), path_components(c.path), path_components(b.path));
    lemma_components_lt_order(path_components(b.path), path_components(a.path), path_components(c.path));
    lemma_components_lt_order(path_components(c.path), path_components(b.path), path_components(a.path));
}

/// `ranks_before` is a strict total order on distinct indices.
proof fn lemma_ranks_before_order(w: Seq<AccView>, i: int, j: int, k: int)
    ensures
        i != j ==> ranks_before(w, i, j) || ranks_before(w, j, i),
        ranks_before(w, i, j) ==> !ranks_before(w, j, i),
        ranks_before(w, i, j) && ranks_before(w, j, k) ==> ranks_before(w, i, k),
{
    lemma_acc_before_order(w[i], w[j], w[k]);
    lemma_acc_before_order(w[j], w[i], w[k]);
    lemma_acc_before_order(w[i], w[k], w[j]);
    lemma_acc_before_order(w[k], w[j], w[i]);
    lemma_acc_before_order(w[j], w[k], w[i]);
    lemma_acc_before_order(w[k], w[i], w[j]);
}

/// An injective list of indices below `n`, `n` long, names every index
/// below `n`.
proof fn lemma_permutation_onto(p: Seq<int>, n: nat, i: int)
    requires
        is_permutation(p, n),
        0 <= i < n,
    ensures
        exists|l: int| 0 <= l < n && p[l] == i,
{
    let range = Set::new(|j: int| 0 <= j < n);
    assert(range =~= vstd::set_lib::set_int_range(0, n as int));
    vstd::set_lib::lemma_int_range(0, n as int);
    assert(p.no_duplicates());
    p.unique_seq_to_set();
    if !p.contains(i) {
        assert(p.to_set().subset_of(range.remove(i)));
        vstd::set_lib::lemma_len_subset(p.to_set(), range.remove(i));
    }
}

/// Two orderings of the same candidates that are both in rank order agree,
/// at every position, up to ties: the candidate at position `k` of the first
/// never ranks strictly before the one at position `k` of the second.
proof fn lemma_orderings_tie(w: Seq<AccView>, c1: Seq<int>, c2: Seq<int>, k: int)
    requires
        is_permutation(c1, w.len()),
        is_permutation(c2, w.len()),
        forall|a: int, b: int| 0 <= a < b < w.len() ==> !acc_before(w[#[trigger] c1[b]], w[#[trigger] c1[a]]),
        forall|a: int, b: int| 0 <= a < b < w.len() ==> !acc_before(w[#[trigger] c2[b]], w[#[trigger] c2[a]]),
        0 <= k < w.len(),
    ensures
        !acc_before(w[c1[k]], w[c2[k]]),
{
    let n = w.len();
    let x1 = w[c1[k]];
    let x2 = w[c2[k]];
    if acc_before(x1, x2) {
        let h1 = c1.take(k + 1);
        let s1 = h1.to_set();
        let t = Set::new(|i: int| 0 <= i < n && acc_before(w[i], x2));
        let u = c2.take(k).to_set();
        assert(c1.take(k + 1).no_duplicates());
        c1.take(k + 1).unique_seq_to_set();
        c2.take(k).lemma_cardinality_of_set();
        vstd::seq_lib::seq_to_set_is_finite(c2.take(k));
        assert forall|i: int| s1.contains(i) implies t.contains(i) by {
            let l = choose|l: int| 0 <= l < h1.len() && #[trigger] h1[l] == i;
            assert(c1[l] == i);
            let y = w[c1[l]];
            if l < k {
                assert(!acc_before(w[c1[k]], w[c1[l]]));
            }
            lemma_acc_before_order(y, x1, x2);
        }
        assert forall|i: int| t.contains(i) implies u.contains(i) by {
            lemma_permutation_onto(c2, n, i);
            let l = choose|l: int| 0 <= l < n && c2[l] == i;
            if l > k {
                assert(!acc_before(w[c2[l]], w[c2[k]]));
            } else if l == k {
                lemma_acc_before_order(x2, x2, x2);
            } else {
                assert(c2.take(k)[l] == i);
            }
        }
        vstd::set_lib::lemma_len_subset(t, u);
        vstd::set_lib::lemma_len_subset(s1, t);
    }
}

/// Sorting does not depend on the order the candidates arrive in: sorting
/// any reordering of the same candidates yields, at every position, a
/// candidate tied with the one the first sort put there (same score key,
/// byte length and components). Only such ties keep their arrival order.
pub proof fn lemma_sort_ignores_arrival_order(w: Seq<AccView>, q: Seq<int>, r1: Seq<AccView>, r2: Seq<AccView>)
    requires
        is_permutation(q, w.len()),
        spec_sorted(w, r1),
        spec_sorted(Seq::new(q.len(), |k: int| w[q[k]]), r2),
    ensures
        r1.len() == r2.len(),
        forall|k: int| 0 <= k < r1.len() ==> !acc_before(#[trigger] r1[k], r2[k]) && !acc_before(r2[k], r1[k]),
{
    let n = w.len();
    let w2 = Seq::new(q.len(), |k: int| w[q[k]]);
    let p1 = choose|p: Seq<int>| is_permutation(p, w.len()) && sorted_by_rank(w, p)
        && r1 == Seq::new(p.len(), |k: int| w[p[k]]);
    let p2 = choose|p: Seq<int>| is_permutation(p, w2.len()) && sorted_by_rank(w2, p)
        && r2 == Seq::new(p.len(), |k: int| w2[p[k]]);
    let c2 = Seq::new(n, |k: int| q[p2[k]]);
    assert(is_permutation(c2, n)) by {
        assert forall|a: int, b: int| 0 <= a < b < c2.len() implies c2[a] != c2[b] by {
            assert(p2[a] != p2[b]);
        }
    }
    assert forall|a: int, b: int| 0 <= a < b < n implies !acc_before(w[#[trigger] p1[b]], w[#[trigger] p1[a]]) by {
        assert(ranks_before(w, p1[a], p1[b]));
        lemma_acc_before_order(w[p1[a]], w[p1[b]], w[p1[b]]);
    }
    assert forall|a: int, b: int| 0 <= a < b < n implies !acc_before(w[#[trigger] c2[b]], w[#[trigger] c2[a]]) by {
        assert(ranks_before(w2, p2[a], p2[b]));
        assert(w2[p2[a]] == w[c2[a]] && w2[p2[b]] == w[c2[b]]);
        lemma_acc_before_order(w[c2[a]], w[c2[b]], w[c2[b]]);
    }
    assert forall|k: int| 0 <= k < r1.len() implies !acc_before(#[trigger] r1[k], r2[k]) && !acc_before(r2[k], r1[k]) by {
        assert(r1[k] == w[p1[k]]);
        assert(r2[k] == w2[p2[k]]);
        assert(w2[p2[k]] == w[c2[k]]);
        lemma_orderings_tie(w, p1, c2, k);
        lemma_orderings_tie(w, c2, p1, k);
    }
}

/// What a candidate is ranked by, in executable form.
struct SortKey {
    key: u64,
    len: usize,
    parts: Vec<Part>,
}

/// The ranking key of one candidate.
fn sort_key(a: &Acc) -> (r: SortKey)
    ensures
        r.key == a.score.spec_order_key(),
        r.len == byte_len(a.path@),
        parts_view(r.parts@) == path_components(a.path@),
{
    SortKey { key: a.score.order_key(), len: a.path.as_str().len(), parts: components(a.path.as_str()) }
}

/// Whether the candidate keyed `x` ranks before the one keyed `y`.
fn key_before(x: &SortKey, y: &SortKey, Ghost(a): Ghost<AccView>, Ghost(b): Ghost<AccView>) -> (r: bool)
    requires
        x.key == a.score.spec_order_key(),
        x.len == byte_len(a.path),
        parts_view(x.parts@) == path_components(a.path),
        y.key == b.score.spec_order_key(),
        y.len == byte_len(b.path),
        parts_view(y.parts@) == path_components(b.path),
    ensures
        r == acc_before(a, b),
{
    if x.key != y.key {
        x.key > y.key
    } else if x.len != y.len {
        x.len < y.len
    } else {
        parts_before(&x.parts, &y.parts)
    }
}

/// `SortDesc` over a working set: a stable sort by rank.
fn sort_desc(w: &Vec<Acc>) -> (r: Vec<Acc>)
    ensures
        spec_sorted(accs_view(w@), accs_view(r@)),
{
    let ghost gw = accs_view(w@);
    let n = w.len();
    let mut keys: Vec<SortKey> = Vec::new();
    let mut i: usize = 0;
    while i < n
        invariant
            n == w@.len(),
            gw == accs_view(w@),
            i <= n,
            keys@.len() == i,
            forall|k: int| 0 <= k < i ==> {
                &&& (#[trigger] keys@[k]).key == gw[k].score.spec_order_key()
                &&& keys@[k].len == byte_len(gw[k].path)
                &&& parts_view(keys@[k].parts@) == path_components(gw[k].path)
            },
        decreases n - i,
    {
        let key = sort_key(&w[i]);
        keys.push(key);
        i = i + 1;
    }
    let mut order: Vec<usize> = Vec::new();
    let mut i: usize = 0;
    while i < n
        invariant
            n == w@.len(),
            gw == accs_view(w@),
            i <= n,
            keys@.len() == n,
            forall|k: int| 0 <= k < n ==> {
                &&& (#[trigger] keys@[k]).key == gw[k].score.spec_order_key()
                &&& keys@[k].len == byte_len(gw[k].path)
                &&& parts_view(keys@[k].parts@) == path_components(gw[k].path)
            },
            order@.len() == i,
            forall|k: int| 0 <= k < order@.len() ==> #[trigger] order@[k] < i,
            forall|k: int, l: int| 0 <= k < l < order@.len() ==> order@[k] != order@[l],
            forall|k: int, l: int| 0 <= k < l < order@.len() ==> ranks_before(gw, #[trigger] order@[k] as int, #[trigger] order@[l] as int),
        decreases n - i,
    {
        let mut pos = order.len();
        while pos > 0 && key_before(&keys[i], &keys[order[pos - 1]], Ghost(gw[i as int]), Ghost(gw[order@[pos - 1] as int]))
            invariant
                n == w@.len(),
                gw == accs_view(w@),
                i < n,
                keys@.len() == n,
                forall|k: int| 0 <= k < n ==> {
                    &&& (#[trigger] keys@[k]).key == gw[k].score.spec_order_key()
                    &&& keys@[k].len == byte_len(gw[k].path)
                    &&& parts_view(keys@[k].parts@) == path_components(gw[k].path)
                },
                order@.len() == i,
                forall|k: int| 0 <= k < order@.len() ==> #[trigger] order@[k] < i,
                pos <= order@.len(),
                forall|k: int| pos <= k < order@.len() ==> ranks_before(gw, i as int, #[trigger] order@[k] as int),
            decreases pos,
        {
            proof {
                lemma_acc_before_order(gw[i as int], gw[order@[pos - 1] as int], gw[i as int]);
            }
            pos = pos - 1;
        }
        proof {
            if pos > 0 {
                let prev = order@[pos - 1] as int;
                lemma_ranks_before_order(gw, prev, i as int, prev);
                assert(ranks_before(gw, prev, i as int));
                assert forall|k: int| 0 <= k < pos implies ranks_before(gw, #[trigger] order@[k] as int, i as int) by {
                    if k < pos - 1 {
                        lemma_ranks_before_order(gw, order@[k] as int, prev, i as int);
                    }
                }
            }
        }
        let ghost old_order = order@;
        order.insert(pos, i);
        assert(order@ == old_order.insert(pos as int, i));
        assert forall|k: int, l: int| 0 <= k < l < order@.len() implies ranks_before(gw, #[trigger] order@[k] as int, #[trigger] order@[l] as int) by {
            if l < pos {
                assert(order@[k] == old_order[k] && order@[l] == old_order[l]);
            } else if l == pos {
                assert(order@[k] == old_order[k]);
            } else if k == pos {
                assert(order@[l] == old_order[l - 1]);
            } else if k < pos {
                assert(order@[k] == old_order[k] && order@[l] == old_order[l - 1]);
            } else {
                assert(order@[k] == old_order[k - 1] && order@[l] == old_order[l - 1]);
            }
        }
        assert forall|k: int, l: int| 0 <= k < l < order@.len() implies order@[k] != order@[l] by {
            if l < pos {
                assert(order@[k] == old_order[k] && order@[l] == old_order[l]);
            } else if l == pos {
                assert(order@[k] == old_order[k]);
            } else if k == pos {
                assert(order@[l] == old_order[l - 1]);
            } else if k < pos {
                assert(order@[k] == old_order[k] && order@[l] == old_order[l - 1]);
            } else {
                assert(order@[k] == old_order[k - 1] && order@[l] == old_order[l - 1]);
            }
        }
        assert forall|k: int| 0 <= k < order@.len() implies #[trigger] order@[k] < i + 1 by {
            if k < pos {
                assert(order@[k] == old_order[k]);
            } else if k > pos {
                assert(order@[k] == old_order[k - 1]);
            }
        }
        i = i + 1;
    }
    let ghost p = Seq::new(order@.len(), |k: int| order@[k] as int);
    let mut out: Vec<Acc> = Vec::new();
    let mut k: usize = 0;
    while k < n
        invariant
            n == w@.len(),
            gw == accs_view(w@),
            order@.len() == n,
            forall|m: int| 0 <= m < n ==> #[trigger] order@[m] < n,
            p == Seq::new(order@.len(), |m: int| order@[m] as int),
            k <= n,
            accs_view(out@) == Seq::new(k as nat, |m: int| gw[p[m]]),
        decreases n - k,
    {
        let a = copy_acc(&w[order[k]]);
        let ghost idx = order@[k as int] as int;
        assert(a@ == gw[idx]);
        assert(p[k as int] == idx);
        let ghost before = out@;
        out.push(a);
        assert(accs_view(out@) =~= accs_view(before).push(a@));
        assert(accs_view(out@) =~= Seq::new((k + 1) as nat, |m: int| gw[p[m]]));
        k = k + 1;
    }
    assert(is_permutation(p, gw.len()));
    assert(sorted_by_rank(gw, p));
    out
}


/// The index of the first visit with the smallest age, if there is a visit:
/// scanning in order, a later age replaces the one held only when both are
/// numbers and it is smaller (a NaN compares equal to everything, so it
/// neither replaces nor is replaced).
pub open spec fn spec_first_min(ages: Seq<Binary64>) -> Option<int>
    decreases ages.len(),
{
    if ages.len() == 0 {
        None
    } else {
        match spec_first_min(ages.drop_last()) {
            None => Some(ages.len() - 1),
            Some(b) => if !ages.last().spec_is_nan() && !ages[b].spec_is_nan()
                && ages.last().spec_order_key() < ages[b].spec_order_key() {
                Some(ages.len() - 1)
            } else {
                Some(b)
            },
        }
    }
}

/// The decayed weight of the most recent visit: the weight at the index of
/// the first smallest age, or `+0.0` when there is no age or no weight there.
pub open spec fn spec_latest_decay(a: AccView) -> Binary64 {
    match spec_first_min(a.ages) {
        Some(i) => if i < a.decayed.len() {
            a.decayed[i]
        } else {
            Binary64 { bits: 0 }
        },
        None => Binary64 { bits: 0 },
    }
}

proof fn lemma_first_min_bound(ages: Seq<Binary64>)
    ensures
        spec_first_min(ages) matches Some(i) ==> 0 <= i < ages.len(),
        ages.len() > 0 ==> spec_first_min(ages) is Some,
    decreases ages.len(),
{
    if ages.len() > 0 {
        lemma_first_min_bound(ages.drop_last());
    }
}

/// The working set once the ranked candidates' paths and scores are read off.
pub open spec fn spec_results_match(out: Seq<RankedDir>, w: Seq<AccView>) -> bool {
    &&& out.len() == w.len()
    &&& forall|i: int| 0 <= i < w.len() ==> (#[trigger] out[i]).path@ == w[i].path && out[i].score == w[i].score
}

/// The ranking interpreter's state: the pipeline, its inputs, the index of
/// the next phase and the working set.
pub struct Ranker {
    phases: Vec<RankPhase>,
    profile: MatchProfile,
    epsilon: Binary64,
    needle: String,
    entries: Vec<DirEntry>,
    next: usize,
    working: Vec<Acc>,
}

impl Ranker {
    /// The pipeline being walked.
    pub closed spec fn spec_phases(&self) -> Seq<RankPhase> {
        self.phases@
    }

    /// Index of the next phase to run.
    pub closed spec fn spec_next(&self) -> nat {
        self.next as nat
    }

    /// The current working set.
    pub closed spec fn spec_working(&self) -> Seq<AccView> {
        accs_view(self.working@)
    }

    /// The input entries every `LoadEntries` seeds from.
    pub closed spec fn spec_entries(&self) -> Seq<DirEntry> {
        self.entries@
    }

    /// The needle.
    pub closed spec fn spec_needle(&self) -> Seq<char> {
        self.needle@
    }

    /// The match profile.
    pub closed spec fn spec_profile(&self) -> MatchProfile {
        self.profile
    }

    /// The discovered-only floor score.
    pub closed spec fn spec_epsilon(&self) -> Binary64 {
        self.epsilon
    }

    /// The inputs of the run are those of `other`.
    pub open spec fn same_inputs(&self, other: &Ranker) -> bool {
        &&& self.spec_phases() == other.spec_phases()
        &&& self.spec_entries() == other.spec_entries()
        &&& self.spec_needle() == other.spec_needle()
        &&& self.spec_profile() == other.spec_profile()
        &&& self.spec_epsilon() == other.spec_epsilon()
    }

    /// Starts a run of `spec`'s pipeline over `entries` against `needle`, or
    /// fails with the error that pipeline ends in: a pipeline must seed its
    /// working set with `LoadEntries` before any other phase.
    pub fn new(spec: &FrecencyRankingSpec, entries: Vec<DirEntry>, needle: &str) -> (r: Result<Ranker, SpecError>)
        ensures
            match r {
                Ok(rk) => {
                    &&& spec_pipeline_error(spec.phases@) is None
                    &&& rk.spec_phases() == spec.phases@
                    &&& rk.spec_next() == 0
                    &&& rk.spec_working().len() == 0
                    &&& rk.spec_entries() == entries@
                    &&& rk.spec_needle() == needle@
                    &&& rk.spec_profile() == spec.matching
                    &&& rk.spec_epsilon() == spec.indexed_epsilon
                },
                Err(SpecError::Interp { phase, reason }) => spec_pipeline_error(spec.phases@) == Some((phase@, reason@)),
            },
    {
        if spec.phases.len() == 0 {
            return Err(SpecError::Interp {
                phase: "LoadEntries".to_owned(),
                reason: "spec had no LoadEntries phase — nothing to rank".to_owned(),
            });
        }
        let first = spec.phases[0];
        match first {
            RankPhase::LoadEntries => {},
            _ => {
                return Err(SpecError::Interp {
                    phase: phase_name(&first),
                    reason: "phase ran before `LoadEntries` seeded the working set".to_owned(),
                });
            },
        }
        let phases = spec.phases.clone();
        assert(phases@ =~= spec.phases@);
        let r = Ranker {
            phases,
            profile: spec.matching,
            epsilon: spec.indexed_epsilon,
            needle: needle.to_owned(),
            entries,
            next: 0,
            working: Vec::new(),
        };
        assert(accs_view(r.working@) =~= Seq::<AccView>::empty());
        Ok(r)
    }

    /// Number of candidates in the working set.
    pub fn len(&self) -> (r: usize)
        ensures
            r == self.spec_working().len(),
    {
        self.working.len()
    }

    /// Candidate `i` of the working set.
    pub fn acc(&self, i: usize) -> (r: &Acc)
        requires
            i < self.spec_working().len(),
        ensures
            r@ == self.spec_working()[i as int],
    {
        &self.working[i]
    }

    /// The decayed weight of candidate `i`'s most recent visit (see
    /// [`spec_latest_decay`]), the input `FreqTimesLatestDecay` multiplies
    /// the visit count by.
    pub fn latest_decay(&self, i: usize) -> (r: Binary64)
        requires
            i < self.spec_working().len(),
        ensures
            r == spec_latest_decay(self.spec_working()[i as int]),
    {
        let a = &self.working[i];
        let ghost ga = a@;
        let mut best: Option<usize> = None;
        let mut k: usize = 0;
        assert(ga.ages.take(0) =~= Seq::<Binary64>::empty());
        while k < a.ages.len()
            invariant
                ga == a@,
                k <= ga.ages.len(),
                match best {
                    Some(b) => spec_first_min(ga.ages.take(k as int)) == Some(b as int),
                    None => spec_first_min(ga.ages.take(k as int)) is None,
                },
            decreases ga.ages.len() - k,
        {
            assert(ga.ages.take(k + 1).drop_last() =~= ga.ages.take(k as int));
            proof { lemma_first_min_bound(ga.ages.take(k as int)); }
            match best {
                None => {
                    best = Some(k);
                },
                Some(b) => {
                    if !a.ages[k].is_nan() && !a.ages[b].is_nan() && a.ages[k].order_key() < a.ages[b].order_key() {
                        best = Some(k);
                    }
                },
            }
            k = k + 1;
        }
        assert(ga.ages.take(ga.ages.len() as int) =~= ga.ages);
        match best {
            Some(b) => if b < a.decayed.len() {
                a.decayed[b]
            } else {
                Binary64 { bits: 0 }
            },
            None => Binary64 { bits: 0 },
        }
    }

    /// Replaces every candidate's ages, in order.
    pub fn set_all_ages(&mut self, ages: Vec<Vec<Binary64>>)
        requires
            ages@.len() == old(self).spec_working().len(),
        ensures
            final(self).same_inputs(old(self)),
            final(self).spec_next() == old(self).spec_next(),
            final(self).spec_working().len() == old(self).spec_working().len(),
            forall|i: int| 0 <= i < ages@.len() ==> #[trigger] final(self).spec_working()[i]
                == (AccView { ages: ages@[i]@, ..old(self).spec_working()[i] }),
    {
        let ghost gw = accs_view(self.working@);
        let mut w: Vec<Acc> = Vec::new();
        std::mem::swap(&mut w, &mut self.working);
        let mut out: Vec<Acc> = Vec::new();
        for a in it: w
            invariant
                it.seq().len() == gw.len(),
                forall|k: int| 0 <= k < gw.len() ==> #[trigger] it.seq()[k]@ == gw[k],
                ages@.len() == gw.len(),
                out@.len() == it.index(),
                forall|k: int| 0 <= k < out@.len() ==> #[trigger] out@[k]@ == (AccView { ages: ages@[k]@, ..gw[k] }),
        {
            let ghost idx = it.index() as int;
            assert(a@ == gw[idx]);
            let mut a = a;
            let v = ages[out.len()].clone();
            assert(v@ =~= ages@[idx]@);
            a.ages = v;
            out.push(a);
        }
        self.working = out;
    }

    /// Replaces every candidate's decayed weights, in order.
    pub fn set_all_decayed(&mut self, decayed: Vec<Vec<Binary64>>)
        requires
            decayed@.len() == old(self).spec_working().len(),
        ensures
            final(self).same_inputs(old(self)),
            final(self).spec_next() == old(self).spec_next(),
            final(self).spec_working().len() == old(self).spec_working().len(),
            forall|i: int| 0 <= i < decayed@.len() ==> #[trigger] final(self).spec_working()[i]
                == (AccView { decayed: decayed@[i]@, ..old(self).spec_working()[i] }),
    {
        let ghost gw = accs_view(self.working@);
        let mut w: Vec<Acc> = Vec::new();
        std::mem::swap(&mut w, &mut self.working);
        let mut out: Vec<Acc> = Vec::new();
        for a in it: w
            invariant
                it.seq().len() == gw.len(),
                forall|k: int| 0 <= k < gw.len() ==> #[trigger] it.seq()[k]@ == gw[k],
                decayed@.len() == gw.len(),
                out@.len() == it.index(),
                forall|k: int| 0 <= k < out@.len() ==> #[trigger] out@[k]@ == (AccView { decayed: decayed@[k]@, ..gw[k] }),
        {
            let ghost idx = it.index() as int;
            assert(a@ == gw[idx]);
            let mut a = a;
            let v = decayed[out.len()].clone();
            assert(v@ =~= decayed@[idx]@);
            a.decayed = v;
            out.push(a);
        }
        self.working = out;
    }

    /// Replaces every candidate's score, in order.
    pub fn set_all_scores(&mut self, scores: Vec<Binary64>)
        requires
            scores@.len() == old(self).spec_working().len(),
        ensures
            final(self).same_inputs(old(self)),
            final(self).spec_next() == old(self).spec_next(),
            final(self).spec_working().len() == old(self).spec_working().len(),
            forall|i: int| 0 <= i < scores@.len() ==> #[trigger] final(self).spec_working()[i]
                == (AccView { score: scores@[i], ..old(self).spec_working()[i] }),
    {
        let ghost gw = accs_view(self.working@);
        let mut w: Vec<Acc> = Vec::new();
        std::mem::swap(&mut w, &mut self.working);
        let mut out: Vec<Acc> = Vec::new();
        for a in it: w
            invariant
                it.seq().len() == gw.len(),
                forall|k: int| 0 <= k < gw.len() ==> #[trigger] it.seq()[k]@ == gw[k],
                scores@.len() == gw.len(),
                out@.len() == it.index(),
                forall|k: int| 0 <= k < out@.len() ==> #[trigger] out@[k]@ == (AccView { score: scores@[k], ..gw[k] }),
        {
            let ghost idx = it.index() as int;
            assert(a@ == gw[idx]);
            let mut a = a;
            a.score = scores[out.len()];
            out.push(a);
        }
        self.working = out;
    }

    /// What the working set reads as, once ranked.
    fn results(&self) -> (r: Vec<RankedDir>)
        ensures
            spec_results_match(r@, self.spec_working()),
    {
        let mut out: Vec<RankedDir> = Vec::new();
        let mut i: usize = 0;
        while i < self.working.len()
            invariant
                i <= self.working@.len(),
                out@.len() == i,
                forall|k: int| 0 <= k < i ==> (#[trigger] out@[k]).path@ == self.working@[k].path@
                    && out@[k].score == self.working@[k].score,
            decreases self.working@.len() - i,
        {
            let a = &self.working[i];
            out.push(RankedDir { path: a.path.clone(), score: a.score });
            i = i + 1;
        }
        out
    }

    /// Runs the next phase, or reports the ranking once every phase has run.
    ///
    /// Phases that compute with binary64 arithmetic are returned to the
    /// caller, who completes them through the setters before advancing again.
    /// `MatchNeedle` and `CollapseDescendants` leave the working set
    /// unchanged when the needle is empty.
    pub fn advance(&mut self) -> (r: Step)
        ensures
            final(self).same_inputs(old(self)),
            old(self).spec_next() >= old(self).spec_phases().len() ==> {
                &&& final(self).spec_next() == old(self).spec_next()
                &&& final(self).spec_working() == old(self).spec_working()
                &&& r matches Step::Finished(out) && spec_results_match(out@, old(self).spec_working())
            },
            old(self).spec_next() < old(self).spec_phases().len() ==> {
                let w = old(self).spec_working();
                let w2 = final(self).spec_working();
                let needle = old(self).spec_needle();
                &&& final(self).spec_next() == old(self).spec_next() + 1
                &&& match old(self).spec_phases()[old(self).spec_next() as int] {
                    RankPhase::LoadEntries => r is Applied && w2 == spec_seed(old(self).spec_entries()),
                    RankPhase::ComputeAge => r is ComputeAge && w2 == w,
                    RankPhase::ApplyDecay => r is ApplyDecay && w2 == w,
                    RankPhase::Combine => r is Combine && w2 == w,
                    RankPhase::FloorIndexed => r is Applied && w2 == spec_floor(w, old(self).spec_epsilon()),
                    RankPhase::MatchNeedle => if needle.len() == 0 {
                        r is Applied && w2 == w
                    } else {
                        &&& r matches Step::ScaleByMatch(ws) && ws@ == spec_match_weights(w, old(self).spec_profile(), needle)
                        &&& w2 == select(w, spec_match_keeps(w, old(self).spec_profile(), needle))
                    },
                    RankPhase::CollapseDescendants { keep } => {
                        &&& r is Applied
                        &&& needle.len() == 0 ==> w2 == w
                        &&& needle.len() > 0 ==> w2 == select(w, spec_collapse(spec_paths(w), keep as nat).1)
                    },
                    RankPhase::SortDesc => r is Applied && spec_sorted(w, w2),
                    RankPhase::TopK { n } => r is Applied && w2 == (if n < w.len() { w.take(n as int) } else { w }),
                }
            },
    {
        if self.next >= self.phases.len() {
            return Step::Finished(self.results());
        }
        let phase = self.phases[self.next];
        self.next = self.next + 1;
        match phase {
            RankPhase::LoadEntries => {
                self.working = seed(&self.entries);
                Step::Applied
            },
            RankPhase::ComputeAge => Step::ComputeAge,
            RankPhase::ApplyDecay => Step::ApplyDecay,
            RankPhase::Combine => Step::Combine,
            RankPhase::FloorIndexed => {
                let mut w: Vec<Acc> = Vec::new();
                std::mem::swap(&mut w, &mut self.working);
                self.working = floor_all(w, self.epsilon);
                Step::Applied
            },
            RankPhase::MatchNeedle => {
                if self.needle.as_str().is_empty() {
                    Step::Applied
                } else {
                    let mut w: Vec<Acc> = Vec::new();
                    std::mem::swap(&mut w, &mut self.working);
                    let (kept, weights) = match_filter(w, &self.profile, self.needle.as_str());
                    self.working = kept;
                    Step::ScaleByMatch(weights)
                }
            },
            RankPhase::CollapseDescendants { keep } => {
                if !self.needle.as_str().is_empty() {
                    let mut w: Vec<Acc> = Vec::new();
                    std::mem::swap(&mut w, &mut self.working);
                    self.working = collapse(w, keep);
                }
                Step::Applied
            },
            RankPhase::SortDesc => {
                let sorted = sort_desc(&self.working);
                self.working = sorted;
                Step::Applied
            },
            RankPhase::TopK { n } => {
                self.working.truncate(n);
                Step::Applied
            },
        }
    }
}

} // verus!
