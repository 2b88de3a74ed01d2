//! The background indexer's decisions: which directory names are never
//! entered, which paths belong under which root, what a watcher event does
//! to the discovered set, when a root is due for a re-walk, and what a pass
//! reports.
//!
//! The filesystem is read by the caller: a walk hands each directory's
//! children to a [`Walk`], an event arrives with the kind of thing its path
//! now names, and a prune asks the caller whether a recorded directory still
//! exists.

use vstd::prelude::*;
use crate::config::{IndexerConfig, IndexerRoot};
use crate::env::{instant_nanos, total_nanos, Timestamp};
use crate::interp::{byte_len, select};
use crate::path::{
    components, components_lt, find_parts_slot, keys_view, lemma_chars_lt_order, lemma_components_lt_order, lemma_insert_parts_sorted, parts_equal,
    parts_prefix, parts_sorted, parts_view, path_components, path_starts_with, same_or_under, Component, Part,
};
use crate::store::{
    components_of, find_slot, lemma_insert_sorted, spec_slot, strictly_sorted, strings_view, within_subtree,
    without_subtree, DirStore, StoreError,
};
use crate::text::{chars_of, seq_contains, string_from_chars};

verus! {

/// The never-descend set: a directory whose name is listed is neither
/// recorded nor entered, and `.`-prefixed directories are skipped unless
/// hidden directories are indexed.
#[derive(Debug)]
pub struct IgnoreSet {
    names: Vec<String>,
    index_hidden: bool,
}

impl IgnoreSet {
    #[verifier::type_invariant]
    spec fn well_formed(&self) -> bool {
        strictly_sorted(strings_view(self.names@))
    }

    /// The ignored names.
    pub closed spec fn name_set(&self) -> Set<Seq<char>> {
        strings_view(self.names@).to_set()
    }

    /// Whether hidden directories are indexed.
    pub closed spec fn indexes_hidden(&self) -> bool {
        self.index_hidden
    }

    /// A directory named `name` is skipped: it is hidden and hidden
    /// directories are not indexed, or its name is ignored.
    pub open spec fn spec_skips(&self, name: Seq<char>) -> bool {
        ||| !self.indexes_hidden() && name.len() > 0 && name[0] == '.'
        ||| self.name_set().contains(name)
    }

    /// The set ignoring exactly `names`, indexing hidden directories when
    /// `index_hidden` is set.
    pub fn new(names: Vec<String>, index_hidden: bool) -> (r: Self)
        ensures
            r.name_set() == strings_view(names@).to_set(),
            r.indexes_hidden() == index_hidden,
    {
        let ghost src = strings_view(names@);
        let mut sorted: Vec<String> = Vec::new();
        assert(strings_view(sorted@).to_set() =~= src.take(0).to_set());
        for n in it: names
            invariant
                it.seq().len() == src.len(),
                forall|k: int| 0 <= k < src.len() ==> #[trigger] it.seq()[k]@ == src[k],
                strictly_sorted(strings_view(sorted@)),
                strings_view(sorted@).to_set() == src.take(it.index() as int).to_set(),
        {
            let ghost idx = it.index() as int;
            assert(n@ == src[idx]);
            let ghost before = strings_view(sorted@);
            let c = chars_of(n.as_str());
            let (found, pos) = find_slot(&sorted, &c);
            let ghost t0 = src.take(idx);
            let ghost t1 = src.take(idx + 1);
            assert(t1 =~= t0.push(n@));
            if found {
                assert(before[pos as int] == n@);
                assert(strings_view(sorted@).to_set() =~= t1.to_set()) by {
                    assert forall|x: Seq<char>| t1.to_set().contains(x) implies before.to_set().contains(x) by {
                        if x == n@ {
                            assert(before.contains(x));
                        } else {
                            let j = choose|j: int| 0 <= j < t1.len() && #[trigger] t1[j] == x;
                            assert(t0[j] == x);
                            assert(t0.contains(x));
                        }
                    }
                    assert forall|x: Seq<char>| before.to_set().contains(x) implies t1.to_set().contains(x) by {
                        assert(t0.to_set().contains(x));
                        let m = choose|m: int| 0 <= m < t0.len() && #[trigger] t0[m] == x;
                        assert(t1[m] == x);
                    }
                }
            } else {
                proof {
                    lemma_insert_sorted(before, n@, pos as int);
                }
                sorted.insert(pos, n);
                assert(strings_view(sorted@) =~= before.insert(pos as int, src[idx]));
                let ghost after = strings_view(sorted@);
                assert(after.to_set() =~= t1.to_set()) by {
                    assert forall|x: Seq<char>| after.to_set().contains(x) implies t1.to_set().contains(x) by {
                        let j = choose|j: int| 0 <= j < after.len() && #[trigger] after[j] == x;
                        if j == pos {
                            assert(t1[idx] == x);
                        } else {
                            if j < pos {
                                assert(before[j] == x);
                            } else {
                                assert(before[j - 1] == x);
                            }
                            assert(before.contains(x));
                            assert(t0.to_set().contains(x));
                            let m = choose|m: int| 0 <= m < t0.len() && #[trigger] t0[m] == x;
                            assert(t1[m] == x);
                        }
                    }
                    assert forall|x: Seq<char>| t1.to_set().contains(x) implies after.to_set().contains(x) by {
                        let m = choose|m: int| 0 <= m < t1.len() && #[trigger] t1[m] == x;
                        if m == idx {
                            assert(after[pos as int] == x);
                        } else {
                            assert(t0[m] == x);
                            assert(t0.contains(x));
                            assert(before.to_set().contains(x));
                            let j = choose|j: int| 0 <= j < before.len() && #[trigger] before[j] == x;
                            if j < pos {
                                assert(after[j] == x);
                            } else {
                                assert(after[j + 1] == x);
                            }
                        }
                    }
                }
            }
        }
        assert(src.take(src.len() as int) =~= src);
        IgnoreSet { names: sorted, index_hidden }
    }

    /// The ignore surface configured in `cfg`.
    pub fn from_config(cfg: &IndexerConfig) -> (r: Self)
        ensures
            r.name_set() == strings_view(cfg.ignore_names@).to_set(),
            r.indexes_hidden() == cfg.index_hidden,
    {
        let mut names: Vec<String> = Vec::new();
        let mut i: usize = 0;
        while i < cfg.ignore_names.len()
            invariant
                i <= cfg.ignore_names@.len(),
                strings_view(names@) == strings_view(cfg.ignore_names@).take(i as int),
            decreases cfg.ignore_names@.len() - i,
        {
            let ghost before = strings_view(names@);
            let n = cfg.ignore_names[i].clone();
            names.push(n);
            assert(strings_view(names@) =~= before.push(cfg.ignore_names@[i as int]@));
            assert(strings_view(cfg.ignore_names@).take(i + 1) =~= strings_view(cfg.ignore_names@).take(i as int).push(cfg.ignore_names@[i as int]@));
            i = i + 1;
        }
        assert(strings_view(cfg.ignore_names@).take(i as int) =~= strings_view(cfg.ignore_names@));
        Self::new(names, cfg.index_hidden)
    }

    /// Whether a directory named by these characters is skipped.
    fn skips_chars(&self, name: &Vec<char>) -> (r: bool)
        ensures
            r == self.spec_skips(name@),
    {
        proof {
            use_type_invariant(self);
        }
        if !self.index_hidden && name.len() > 0 && name[0] == '.' {
            return true;
        }
        let (found, pos) = find_slot(&self.names, name);
        proof {
            let s = strings_view(self.names@);
            assert(spec_slot(s, name@, pos as int, found));
            if !found && s.contains(name@) {
                let j = choose|j: int| 0 <= j < s.len() && s[j] == name@;
                lemma_chars_lt_order(name@, name@, name@);
                if j < pos {
                    assert(crate::path::chars_lt(s[j], name@));
                } else {
                    assert(crate::path::chars_lt(name@, s[j]));
                }
            }
            if found {
                assert(s[pos as int] == name@);
                assert(s.contains(name@));
            }
        }
        found
    }

    /// `true` when a directory named `name` must be skipped (and never
    /// descended into).
    pub fn skips(&self, name: &str) -> (r: bool)
        ensures
            r == self.spec_skips(name@),
    {
        let c = chars_of(name);
        self.skips_chars(&c)
    }
}

/// `path` is admissible under the root `root` (walked `max_depth` deep):
/// `root`'s components are a prefix of `path`'s, every component below the
/// root is a name that `ignore` does not skip, and there are between one and
/// `max_depth` of them.
pub open spec fn spec_admissible(root: Seq<char>, max_depth: nat, ignore: IgnoreSet, path: Seq<char>) -> bool {
    let rc = path_components(root);
    let pc = path_components(path);
    &&& rc.is_prefix_of(pc)
    &&& forall|k: int| rc.len() <= k < pc.len() ==> (#[trigger] pc[k]) is Normal && !ignore.spec_skips(pc[k]->0)
    &&& 1 <= pc.len() - rc.len() <= max_depth
}

/// Whether `path` is admissible under `root`; see [`spec_admissible`].
pub fn admissible(root: &IndexerRoot, ignore: &IgnoreSet, path: &str) -> (r: bool)
    ensures
        r == spec_admissible(root.path@, root.max_depth as nat, *ignore, path@),
{
    let rc = components(root.path.as_str());
    let pc = components(path);
    if !parts_prefix(&rc, &pc) {
        return false;
    }
    let ghost gp = parts_view(pc@);
    let mut i: usize = rc.len();
    while i < pc.len()
        invariant
            rc@.len() <= i <= pc@.len(),
            gp == parts_view(pc@),
            gp == path_components(path@),
            parts_view(rc@) == path_components(root.path@),
            parts_view(rc@).is_prefix_of(gp),
            forall|k: int| rc@.len() <= k < i ==> (#[trigger] gp[k]) is Normal && !ignore.spec_skips(gp[k]->0),
        decreases pc@.len() - i,
    {
        match &pc[i] {
            Part::Normal(name) => {
                if ignore.skips_chars(name) {
                    proof {
                        let rcs = path_components(root.path@);
                        assert(rcs.len() == rc@.len());
                        assert(gp[i as int] == Component::Normal(name@));
                        assert(!(gp[i as int] is Normal && !ignore.spec_skips(gp[i as int]->0)));
                    }
                    return false;
                }
            },
            _ => {
                proof {
                    let rcs = path_components(root.path@);
                    assert(rcs.len() == rc@.len());
                    assert(!(gp[i as int] is Normal));
                }
                return false;
            },
        }
        i = i + 1;
    }
    let depth = pc.len() - rc.len();
    1 <= depth && depth <= root.max_depth
}

/// The root `path` belongs to among `roots`: of those whose components are a
/// prefix of `path`'s, the one with the longest spelling in bytes, and of
/// equally long ones the last.
pub open spec fn spec_deepest_root(roots: Seq<IndexerRoot>, path: Seq<char>) -> Option<int>
    decreases roots.len(),
{
    if roots.len() == 0 {
        None
    } else {
        let best = spec_deepest_root(roots.drop_last(), path);
        let i = roots.len() - 1;
        if path_starts_with(path, roots[i].path@) {
            match best {
                Some(b) => if byte_len(roots[b].path@) <= byte_len(roots[i].path@) {
                    Some(i)
                } else {
                    Some(b)
                },
                None => Some(i),
            }
        } else {
            best
        }
    }
}

proof fn lemma_deepest_root_bound(roots: Seq<IndexerRoot>, path: Seq<char>)
    ensures
        spec_deepest_root(roots, path) matches Some(i) ==> 0 <= i < roots.len() && path_starts_with(path, roots[i].path@),
    decreases roots.len(),
{
    if roots.len() > 0 {
        lemma_deepest_root_bound(roots.drop_last(), path);
    }
}

/// The deepest configured root containing `path` (overlapping roots, such
/// as the home directory and `~/code`, resolve to the most specific one).
pub fn deepest_root_for<'r>(roots: &'r [IndexerRoot], path: &str) -> (r: Option<&'r IndexerRoot>)
    ensures
        match r {
            Some(x) => spec_deepest_root(roots@, path@) matches Some(i) && *x == roots@[i],
            None => spec_deepest_root(roots@, path@) is None,
        },
{
    let pc = components(path);
    let mut best: Option<usize> = None;
    let mut best_len: usize = 0;
    let mut k: usize = 0;
    while k < roots.len()
        invariant
            k <= roots@.len(),
            parts_view(pc@) == path_components(path@),
            match best {
                Some(b) => spec_deepest_root(roots@.take(k as int), path@) == Some(b as int)
                    && b < k && best_len == byte_len(roots@[b as int].path@),
                None => spec_deepest_root(roots@.take(k as int), path@) is None,
            },
        decreases roots@.len() - k,
    {
        assert(roots@.take(k + 1).drop_last() =~= roots@.take(k as int));
        assert(roots@.take(k + 1)[k as int] == roots@[k as int]);
        let rc = components(roots[k].path.as_str());
        if parts_prefix(&rc, &pc) {
            let len = roots[k].path.as_str().len();
            match best {
                Some(b) => {
                    if best_len <= len {
                        best = Some(k);
                        best_len = len;
                    }
                },
                None => {
                    best = Some(k);
                    best_len = len;
                },
            }
        }
        k = k + 1;
    }
    assert(roots@.take(roots@.len() as int) =~= roots@);
    match best {
        Some(b) => Some(&roots[b]),
        None => None,
    }
}

/// What a watcher event's path names now, as the filesystem reports it.
#[derive(Debug, Clone, Copy, PartialEq, Eq, Structural)]
pub enum PathKind {
    /// A directory.
    Dir,
    /// Something that exists and is not a directory.
    NotDir,
    /// Nothing: the path is gone.
    Missing,
}

/// What a watcher event did to the discovered set.
#[derive(Debug, Clone, Copy, PartialEq, Eq, Structural)]
pub enum EventOutcome {
    /// The path is a live, admissible directory: recorded as discovered.
    Upserted,
    /// The path is gone: removed, with its subtree, from the discovered set.
    Removed,
    /// Not the index's business: outside every root, too deep, ignored, or
    /// not a directory.
    Skipped,
}

/// The outcome an event on `path` (which now names a `kind`) has: an
/// admissible path under its deepest root is upserted when it is a
/// directory, removed when it is gone, and skipped otherwise.
pub open spec fn spec_event_outcome(roots: Seq<IndexerRoot>, ignore: IgnoreSet, path: Seq<char>, kind: PathKind) -> EventOutcome {
    match spec_deepest_root(roots, path) {
        None => EventOutcome::Skipped,
        Some(i) => if !spec_admissible(roots[i].path@, roots[i].max_depth as nat, ignore, path) {
            EventOutcome::Skipped
        } else {
            match kind {
                PathKind::Dir => EventOutcome::Upserted,
                PathKind::NotDir => EventOutcome::Skipped,
                PathKind::Missing => EventOutcome::Removed,
            }
        },
    }
}

/// The outcome an event on `path` has; see [`spec_event_outcome`].
pub fn route_event(roots: &[IndexerRoot], ignore: &IgnoreSet, path: &str, kind: PathKind) -> (r: EventOutcome)
    ensures
        r == spec_event_outcome(roots@, *ignore, path@, kind),
{
    proof {
        lemma_deepest_root_bound(roots@, path@);
    }
    match deepest_root_for(roots, path) {
        None => EventOutcome::Skipped,
        Some(root) => {
            if !admissible(root, ignore, path) {
                EventOutcome::Skipped
            } else {
                match kind {
                    PathKind::Dir => EventOutcome::Upserted,
                    PathKind::NotDir => EventOutcome::Skipped,
                    PathKind::Missing => EventOutcome::Removed,
                }
            }
        },
    }
}

/// Why installing a recursive watch failed, as far as the decision to
/// degrade depends on it.
#[derive(Debug, Clone, Copy, PartialEq, Eq, Structural)]
pub enum WatchError {
    /// An I/O error reporting a permission denial.
    PermissionDenied,
    /// Any other I/O error.
    OtherIo,
    /// The watch-descriptor ceiling was reached.
    MaxFilesWatch,
    /// Any other watcher failure.
    Other,
}

/// Whether a failure to install a recursive watch degrades the daemon
/// (the root is then covered by the periodic re-walk only) rather than
/// stopping it: only a permission denial does. Any other failure is a
/// condition that a restart or an operator can change, so it still fails
/// fast.
pub fn watch_error_is_degradable(err: &WatchError) -> (r: bool)
    ensures
        r <==> *err == WatchError::PermissionDenied,
{
    match err {
        WatchError::PermissionDenied => true,
        _ => false,
    }
}

/// A length of time: whole seconds and the nanoseconds beyond them.
#[derive(Debug, Clone, Copy, PartialEq, Eq, Structural)]
pub struct Span {
    /// Whole seconds.
    pub secs: u64,
    /// Nanoseconds beyond the whole seconds.
    pub nanos: u32,
}

impl Span {
    /// A span of `secs` whole seconds.
    pub fn from_secs(secs: u64) -> (r: Self)
        ensures
            r.secs == secs,
            r.nanos == 0,
    {
        Span { secs, nanos: 0 }
    }
}

/// A span, in nanoseconds.
pub open spec fn span_nanos(s: Span) -> int {
    s.secs * 1_000_000_000 + s.nanos
}

/// A root last walked at `last` (if ever) is due for a re-walk at `now`,
/// given the re-walk bound `interval` and the root's current modification
/// time (`None` when it cannot be read): when it was never walked, when the
/// clock reads earlier than the last walk, when the bound has elapsed, or
/// when the root changed since (or cannot be read).
pub open spec fn spec_stale(last: Option<Timestamp>, interval: Span, now: Timestamp, mtime: Option<Timestamp>) -> bool {
    match last {
        None => true,
        Some(l) => {
            ||| instant_nanos(now) < instant_nanos(l)
            ||| instant_nanos(now) - instant_nanos(l) >= span_nanos(interval)
            ||| match mtime {
                Some(m) => instant_nanos(m) > instant_nanos(l),
                None => true,
            }
        },
    }
}

/// Per-root staleness gate: a root is re-walked only when its modification
/// time shows that its direct children changed since the last walk, when
/// the re-walk bound has elapsed, or when it has never been walked. Roots
/// are told apart by their components, as paths compare.
pub struct RootMtimeGate {
    rewalk_interval: Span,
    keys: Vec<Vec<Part>>,
    times: Vec<Timestamp>,
}

impl RootMtimeGate {
    #[verifier::type_invariant]
    spec fn well_formed(&self) -> bool {
        let ks = keys_view(self.keys@);
        &&& self.keys@.len() == self.times@.len()
        &&& forall|i: int, j: int| 0 <= i < j < ks.len() ==> #[trigger] ks[i] != #[trigger] ks[j]
    }

    /// The re-walk bound.
    pub closed spec fn interval(&self) -> Span {
        self.rewalk_interval
    }

    /// When the root with these components was last walked, if ever.
    pub closed spec fn last_walk(&self, root: Seq<Component>) -> Option<Timestamp> {
        let ks = keys_view(self.keys@);
        if ks.contains(root) {
            Some(self.times@[choose|i: int| 0 <= i < ks.len() && ks[i] == root])
        } else {
            None
        }
    }

    /// A gate whose re-walk bound is `rewalk_interval`, with no root walked.
    pub fn new(rewalk_interval: Span) -> (r: Self)
        ensures
            r.interval() == rewalk_interval,
            forall|k: Seq<Component>| r.last_walk(k) is None,
    {
        let r = RootMtimeGate { rewalk_interval, keys: Vec::new(), times: Vec::new() };
        assert(keys_view(r.keys@) =~= Seq::<Seq<Component>>::empty());
        r
    }

    /// The index of the key equal to `comps`, if any.
    fn find(&self, comps: &Vec<Part>) -> (r: Option<usize>)
        ensures
            match r {
                Some(i) => i < self.keys@.len() && keys_view(self.keys@)[i as int] == parts_view(comps@),
                None => !keys_view(self.keys@).contains(parts_view(comps@)),
            },
    {
        let ghost ks = keys_view(self.keys@);
        let mut k: usize = 0;
        while k < self.keys.len()
            invariant
                k <= self.keys@.len(),
                ks == keys_view(self.keys@),
                forall|m: int| 0 <= m < k ==> ks[m] != parts_view(comps@),
            decreases self.keys@.len() - k,
        {
            if parts_equal(&self.keys[k], comps) {
                return Some(k);
            }
            k = k + 1;
        }
        None
    }

    /// Records that `root` was fully walked at `at`.
    pub fn mark_walked(&mut self, root: &str, at: Timestamp)
        ensures
            final(self).interval() == old(self).interval(),
            forall|k: Seq<Component>| #[trigger] final(self).last_walk(k) == if k == path_components(root@) {
                Some(at)
            } else {
                old(self).last_walk(k)
            },
    {
        proof {
            use_type_invariant(&*self);
        }
        let comps = components(root);
        let ghost c = parts_view(comps@);
        let ghost ks = keys_view(self.keys@);
        let ghost old_times = self.times@;
        let found = self.find(&comps);
        let mut g = RootMtimeGate::new(Span { secs: 0, nanos: 0 });
        std::mem::swap(&mut g, self);
        let RootMtimeGate { rewalk_interval, keys, mut times } = g;
        match found {
            Some(i) => {
                times.set(i, at);
                let ng = RootMtimeGate { rewalk_interval, keys, times };
                proof {
                    assert forall|k: Seq<Component>| #[trigger] ng.last_walk(k) == if k == c { Some(at) } else { old(self).last_walk(k) } by {
                        if ks.contains(k) {
                            let j = choose|j: int| 0 <= j < ks.len() && ks[j] == k;
                            if k == c {
                                assert(j == i);
                            } else {
                                assert(j != i);
                            }
                        }
                    }
                }
                *self = ng;
            },
            None => {
                let ghost n = ks.len();
                let mut keys = keys;
                keys.push(comps);
                times.push(at);
                assert(keys_view(keys@) =~= ks.push(c));
                let ng = RootMtimeGate { rewalk_interval, keys, times };
                proof {
                    let ks2 = keys_view(ng.keys@);
                    assert forall|k: Seq<Component>| #[trigger] ng.last_walk(k) == if k == c { Some(at) } else { old(self).last_walk(k) } by {
                        if k == c {
                            assert(ks2[n as int] == k);
                            let j = choose|j: int| 0 <= j < ks2.len() && ks2[j] == k;
                            if j < n {
                                assert(ks[j] == c);
                            }
                        } else if ks2.contains(k) {
                            let j = choose|j: int| 0 <= j < ks2.len() && ks2[j] == k;
                            assert(ks[j] == k);
                            assert(ks.contains(k));
                            let j0 = choose|j: int| 0 <= j < ks.len() && ks[j] == k;
                            assert(j == j0);
                        } else {
                            assert forall|j: int| 0 <= j < ks.len() implies ks[j] != k by {
                                assert(ks2[j] == ks[j]);
                            }
                        }
                    }
                }
                *self = ng;
            },
        }
    }

    /// Whether `root` is due for a re-walk at `now`, given its current
    /// modification time (`None` when it cannot be read); see [`spec_stale`].
    pub fn stale(&self, root: &str, now: Timestamp, mtime: Option<Timestamp>) -> (r: bool)
        ensures
            r == spec_stale(self.last_walk(path_components(root@)), self.interval(), now, mtime),
    {
        proof {
            use_type_invariant(self);
        }
        let comps = components(root);
        let ghost ks = keys_view(self.keys@);
        match self.find(&comps) {
            None => true,
            Some(i) => {
                proof {
                    let c = parts_view(comps@);
                    assert(ks[i as int] == c);
                    let j = choose|j: int| 0 <= j < ks.len() && ks[j] == c;
                    assert(i == j);
                }
                let last = total_nanos(&self.times[i]);
                let n = total_nanos(&now);
                if n < last {
                    return true;
                }
                let bound = (self.rewalk_interval.secs as i128) * 1_000_000_000 + (self.rewalk_interval.nanos as i128);
                if n - last >= bound {
                    return true;
                }
                match mtime {
                    Some(m) => total_nanos(&m) > last,
                    None => true,
                }
            },
        }
    }
}

/// The character of the decimal digit `d`.
pub open spec fn digit_char(d: int) -> char {
    seq!['0', '1', '2', '3', '4', '5', '6', '7', '8', '9'][d]
}

/// The decimal spelling of `n`, without leading zeros.
pub open spec fn spec_decimal(n: nat) -> Seq<char>
    decreases n,
{
    if n < 10 {
        seq![digit_char(n as int)]
    } else {
        spec_decimal(n / 10).push(digit_char((n % 10) as int))
    }
}

/// No decimal digit is a `w`.
proof fn lemma_digit_not_w(d: int)
    requires
        0 <= d < 10,
    ensures
        digit_char(d) != 'w',
{
    let s = seq!['0', '1', '2', '3', '4', '5', '6', '7', '8', '9'];
    assert(s[0] == '0' && s[1] == '1' && s[2] == '2' && s[3] == '3' && s[4] == '4');
    assert(s[5] == '5' && s[6] == '6' && s[7] == '7' && s[8] == '8' && s[9] == '9');
}

/// A decimal spelling has no `w` in it.
proof fn lemma_decimal_no_w(n: nat)
    ensures
        no_w(spec_decimal(n)),
    decreases n,
{
    if n >= 10 {
        lemma_decimal_no_w(n / 10);
        lemma_digit_not_w((n % 10) as int);
    } else {
        lemma_digit_not_w(n as int);
    }
}

/// The character of the digit `d`.
fn digit(d: usize) -> (r: char)
    requires
        d < 10,
    ensures
        r == digit_char(d as int),
{
    match d {
        0 => '0',
        1 => '1',
        2 => '2',
        3 => '3',
        4 => '4',
        5 => '5',
        6 => '6',
        7 => '7',
        8 => '8',
        _ => '9',
    }
}

/// Appends the decimal spelling of `n`.
fn push_decimal(out: &mut Vec<char>, n: usize)
    ensures
        final(out)@ == old(out)@ + spec_decimal(n as nat),
    decreases n,
{
    if n >= 10 {
        push_decimal(out, n / 10);
    }
    out.push(digit(n % 10));
    proof {
        if n >= 10 {
            assert(old(out)@ + spec_decimal(n as nat) =~= (old(out)@ + spec_decimal((n / 10) as nat)).push(digit_char((n % 10) as int)));
        } else {
            assert(old(out)@ + spec_decimal(n as nat) =~= old(out)@.push(digit_char((n % 10) as int)));
        }
    }
}

/// Appends the characters of `s`.
fn push_text(out: &mut Vec<char>, s: &str)
    ensures
        final(out)@ == old(out)@ + s@,
{
    let cs = chars_of(s);
    let ghost start = out@;
    let mut i: usize = 0;
    while i < cs.len()
        invariant
            i <= cs@.len(),
            cs@ == s@,
            out@ == start + cs@.take(i as int),
        decreases cs@.len() - i,
    {
        out.push(cs[i]);
        i = i + 1;
        assert(out@ =~= start + cs@.take(i as int));
    }
    assert(cs@.take(cs@.len() as int) =~= cs@);
}

/// What one indexing pass did.
#[derive(Debug, Clone, PartialEq, Eq)]
pub struct IndexSummary {
    /// Roots actually walked this pass.
    pub roots_walked: usize,
    /// Live directories upserted into the discovered set (idempotent
    /// re-upserts included).
    pub indexed: usize,
    /// Discovered entries removed because their directory no longer exists.
    pub pruned: usize,
    /// Roots whose recursive watch could not be installed because something
    /// beneath them is unreadable. They are still indexed, on the re-walk
    /// interval rather than immediately.
    pub watch_degraded: Vec<String>,
}

/// The report of a pass that walked `roots` roots, indexed `indexed`
/// directories, pruned `pruned` entries and lost the live watch on
/// `degraded` roots.
pub open spec fn spec_render(roots: nat, indexed: nat, pruned: nat, degraded: nat) -> Seq<char> {
    let base = "indexed "@ + spec_decimal(indexed) + " dirs across "@ + spec_decimal(roots) + " roots ("@
        + spec_decimal(pruned) + " pruned)"@;
    if degraded == 0 {
        base
    } else {
        base + " ["@ + "live watch unavailable"@ + " on "@ + spec_decimal(degraded)
            + " root(s); updates arrive on the "@ + "re-walk"@ + " interval]"@
    }
}

/// `needle` occurs in `a + needle + b`.
proof fn lemma_contains_middle(a: Seq<char>, needle: Seq<char>, b: Seq<char>)
    ensures
        seq_contains(a + needle + b, needle),
{
    assert((a + needle + b).subrange(a.len() as int, a.len() + needle.len() as int) =~= needle);
}

/// No character of `s` is a `w`.
pub open spec fn no_w(s: Seq<char>) -> bool {
    forall|i: int| 0 <= i < s.len() ==> #[trigger] s[i] != 'w'
}

/// What a clean pass reports never mentions a watch, and what a degraded
/// pass reports names the lost live watch and the re-walk that covers it.
proof fn lemma_render_mentions_watch(roots: nat, indexed: nat, pruned: nat, degraded: nat)
    ensures
        degraded == 0 ==> !seq_contains(spec_render(roots, indexed, pruned, degraded), "watch"@),
        degraded > 0 ==> seq_contains(spec_render(roots, indexed, pruned, degraded), "live watch unavailable"@),
        degraded > 0 ==> seq_contains(spec_render(roots, indexed, pruned, degraded), "re-walk"@),
{
    let base = "indexed "@ + spec_decimal(indexed) + " dirs across "@ + spec_decimal(roots) + " roots ("@
        + spec_decimal(pruned) + " pruned)"@;
    if degraded == 0 {
        reveal_strlit("indexed ");
        reveal_strlit(" dirs across ");
        reveal_strlit(" roots (");
        reveal_strlit(" pruned)");
        reveal_strlit("watch");
        lemma_decimal_no_w(indexed);
        lemma_decimal_no_w(roots);
        lemma_decimal_no_w(pruned);
        assert(no_w("indexed "@));
        assert(no_w(" dirs across "@));
        assert(no_w(" roots ("@));
        assert(no_w(" pruned)"@));
        assert(no_w(base));
        if seq_contains(base, "watch"@) {
            let i = choose|i: int| 0 <= i <= base.len() - "watch"@.len() && #[trigger] base.subrange(i, i + "watch"@.len()) == "watch"@;
            assert(base.subrange(i, i + 5)[0] == 'w');
            assert(base[i] == 'w');
        }
    } else {
        let head = base + " ["@;
        let mid = " on "@ + spec_decimal(degraded) + " root(s); updates arrive on the "@;
        let tail = " interval]"@;
        let r = spec_render(roots, indexed, pruned, degraded);
        assert(r =~= head + "live watch unavailable"@ + (mid + "re-walk"@ + tail));
        lemma_contains_middle(head, "live watch unavailable"@, mid + "re-walk"@ + tail);
        assert(r =~= (head + "live watch unavailable"@ + mid) + "re-walk"@ + tail);
        lemma_contains_middle(head + "live watch unavailable"@ + mid, "re-walk"@, tail);
    }
}

impl IndexSummary {
    /// A pass that did nothing.
    pub fn new() -> (r: Self)
        ensures
            r.roots_walked == 0,
            r.indexed == 0,
            r.pruned == 0,
            r.watch_degraded@.len() == 0,
    {
        IndexSummary { roots_walked: 0, indexed: 0, pruned: 0, watch_degraded: Vec::new() }
    }

    /// The one-line report of this pass: how many directories it indexed
    /// across how many roots and how many it pruned, and, when some root's
    /// live watch could not be installed, how many, and that their updates
    /// arrive with the re-walk.
    pub fn render(&self) -> (r: String)
        ensures
            r@ == spec_render(self.roots_walked as nat, self.indexed as nat, self.pruned as nat, self.watch_degraded@.len()),
            self.watch_degraded@.len() == 0 ==> !seq_contains(r@, "watch"@),
            self.watch_degraded@.len() > 0 ==> seq_contains(r@, "live watch unavailable"@),
            self.watch_degraded@.len() > 0 ==> seq_contains(r@, "re-walk"@),
    {
        let mut out: Vec<char> = Vec::new();
        push_text(&mut out, "indexed ");
        push_decimal(&mut out, self.indexed);
        push_text(&mut out, " dirs across ");
        push_decimal(&mut out, self.roots_walked);
        push_text(&mut out, " roots (");
        push_decimal(&mut out, self.pruned);
        push_text(&mut out, " pruned)");
        if self.watch_degraded.len() > 0 {
            push_text(&mut out, " [");
            push_text(&mut out, "live watch unavailable");
            push_text(&mut out, " on ");
            push_decimal(&mut out, self.watch_degraded.len());
            push_text(&mut out, " root(s); updates arrive on the ");
            push_text(&mut out, "re-walk");
            push_text(&mut out, " interval]");
        }
        proof {
            lemma_render_mentions_watch(self.roots_walked as nat, self.indexed as nat, self.pruned as nat, self.watch_degraded@.len());
        }
        let ghost exp = spec_render(self.roots_walked as nat, self.indexed as nat, self.pruned as nat, self.watch_degraded@.len());
        assert(out@ =~= exp);
        string_from_chars(out.as_slice())
    }
}

impl Default for IndexSummary {
    fn default() -> (r: Self)
        ensures
            r.roots_walked == 0,
            r.indexed == 0,
            r.pruned == 0,
            r.watch_degraded@.len() == 0,
    {
        IndexSummary::new()
    }
}

/// One entry of a directory being walked, as the filesystem reported it.
pub struct WalkChild {
    /// The entry's file name.
    pub name: String,
    /// The entry's full path.
    pub path: String,
    /// The entry is a directory (a symbolic link reports itself, not its
    /// target, so links are never followed).
    pub is_dir: bool,
}

/// The paths of the children a walk records and enters: directories whose
/// names `ignore` does not skip, in order.
pub open spec fn spec_kept_children(children: Seq<WalkChild>, ignore: IgnoreSet) -> Seq<Seq<char>>
    decreases children.len(),
{
    if children.len() == 0 {
        Seq::empty()
    } else {
        let rest = spec_kept_children(children.drop_last(), ignore);
        let c = children.last();
        if c.is_dir && !ignore.spec_skips(c.name@) {
            rest.push(c.path@)
        } else {
            rest
        }
    }
}

/// Pops the pending directories that lie at or beyond the depth bound; the
/// result is the pending list left and the directory to read next, if any.
pub open spec fn spec_next_dir(stack: Seq<(Seq<char>, nat)>, max_depth: nat) -> (Seq<(Seq<char>, nat)>, Option<(Seq<char>, nat)>)
    decreases stack.len(),
{
    if stack.len() == 0 {
        (stack, None)
    } else if stack.last().1 >= max_depth {
        spec_next_dir(stack.drop_last(), max_depth)
    } else {
        (stack.drop_last(), Some(stack.last()))
    }
}

/// A bounded depth-first walk of one root, collecting directories only.
/// The caller reads each directory [`Walk::next_dir`] names and hands its
/// entries to [`Walk::take_children`]; ignored and hidden names are never
/// entered, and nothing below the depth bound is read.
pub struct Walk {
    max_depth: usize,
    pending: Vec<(String, usize)>,
    found: Vec<String>,
}

/// The view of the pending directories.
pub open spec fn pending_view(p: Seq<(String, usize)>) -> Seq<(Seq<char>, nat)> {
    Seq::new(p.len(), |i: int| (p[i].0@, p[i].1 as nat))
}

impl Walk {
    /// The depth bound.
    pub closed spec fn depth_bound(&self) -> nat {
        self.max_depth as nat
    }

    /// The directories still to be read, with their depths (the last is
    /// read first).
    pub closed spec fn pending(&self) -> Seq<(Seq<char>, nat)> {
        pending_view(self.pending@)
    }

    /// The directories collected so far, in the order they were found.
    pub closed spec fn found(&self) -> Seq<Seq<char>> {
        strings_view(self.found@)
    }

    /// A walk of `root`, down to `max_depth` levels below it.
    pub fn new(root: &str, max_depth: usize) -> (r: Self)
        ensures
            r.depth_bound() == max_depth,
            r.pending() == seq![(root@, 0nat)],
            r.found().len() == 0,
    {
        let mut pending: Vec<(String, usize)> = Vec::new();
        pending.push((root.to_owned(), 0));
        let r = Walk { max_depth, pending, found: Vec::new() };
        assert(pending_view(r.pending@) =~= seq![(root@, 0nat)]);
        assert(strings_view(r.found@) =~= Seq::<Seq<char>>::empty());
        r
    }

    /// The next directory to read and its depth, or `None` when the walk is
    /// over; pending directories at or beyond the depth bound are dropped
    /// unread.
    pub fn next_dir(&mut self) -> (r: Option<(String, usize)>)
        ensures
            final(self).depth_bound() == old(self).depth_bound(),
            final(self).found() == old(self).found(),
            final(self).pending() == spec_next_dir(old(self).pending(), old(self).depth_bound()).0,
            match r {
                Some((d, k)) => spec_next_dir(old(self).pending(), old(self).depth_bound()).1 == Some((d@, k as nat)),
                None => spec_next_dir(old(self).pending(), old(self).depth_bound()).1 is None,
            },
            r matches Some((d, k)) ==> k < old(self).depth_bound(),
    {
        loop
            invariant
                self.max_depth == old(self).max_depth,
                self.found == old(self).found,
                spec_next_dir(pending_view(self.pending@), self.max_depth as nat)
                    == spec_next_dir(old(self).pending(), old(self).depth_bound()),
            decreases self.pending@.len(),
        {
            let ghost pv = pending_view(self.pending@);
            match self.pending.pop() {
                None => {
                    assert(pv.len() == 0);
                    return None;
                },
                Some((dir, depth)) => {
                    assert(pending_view(self.pending@) =~= pv.drop_last());
                    assert(pv.last() == (dir@, depth as nat));
                    if depth < self.max_depth {
                        return Some((dir, depth));
                    }
                },
            }
        }
    }

    /// Takes the entries of the directory last named by
    /// [`Walk::next_dir`] (at `depth`): each directory among them whose name
    /// `ignore` does not skip is recorded and queued one level deeper.
    pub fn take_children(&mut self, depth: usize, children: Vec<WalkChild>, ignore: &IgnoreSet)
        requires
            depth < old(self).depth_bound(),
        ensures
            final(self).depth_bound() == old(self).depth_bound(),
            final(self).found() == old(self).found() + spec_kept_children(children@, *ignore),
            final(self).pending() == old(self).pending() + Seq::new(
                spec_kept_children(children@, *ignore).len(),
                |i: int| (spec_kept_children(children@, *ignore)[i], (depth + 1) as nat),
            ),
    {
        let ghost cs = children@;
        let ghost f0 = self.found();
        let ghost p0 = self.pending();
        let mut k: usize = 0;
        for c in it: children
            invariant
                it.seq() == cs,
                self.max_depth == old(self).max_depth,
                depth < self.max_depth,
                self.found() == f0 + spec_kept_children(cs.take(it.index() as int), *ignore),
                self.pending() == p0 + Seq::new(
                    spec_kept_children(cs.take(it.index() as int), *ignore).len(),
                    |i: int| (spec_kept_children(cs.take(it.index() as int), *ignore)[i], (depth + 1) as nat),
                ),
        {
            let ghost idx = it.index() as int;
            let ghost kept = spec_kept_children(cs.take(idx), *ignore);
            assert(cs.take(idx + 1).drop_last() =~= cs.take(idx));
            assert(cs.take(idx + 1).last() == cs[idx]);
            assert(c == cs[idx]);
            let ghost fb = self.found@;
            let ghost pb = self.pending@;
            if c.is_dir && !ignore.skips(c.name.as_str()) {
                let p = c.path;
                self.found.push(p.clone());
                self.pending.push((p, depth + 1));
                assert(strings_view(self.found@) =~= strings_view(fb).push(cs[idx].path@));
                let ghost kept2 = spec_kept_children(cs.take(idx + 1), *ignore);
                assert(kept2 == kept.push(cs[idx].path@));
                assert(pending_view(self.pending@) =~= pending_view(pb).push((cs[idx].path@, (depth + 1) as nat)));
                assert(self.found() =~= f0 + kept2);
                assert(self.pending() =~= p0 + Seq::new(kept2.len(), |i: int| (kept2[i], (depth + 1) as nat)));
            }
        }
        assert(cs.take(cs.len() as int) =~= cs);
    }

    /// The directories the walk collected, in the order they were found.
    pub fn into_found(self) -> (r: Vec<String>)
        ensures
            strings_view(r@) == self.found(),
    {
        self.found
    }
}

/// The directories a walk records and enters inside directory `p`, when
/// `tree` gives the entries of each directory of a snapshot.
pub open spec fn walk_kids(tree: spec_fn(Seq<char>) -> Seq<WalkChild>, ignore: IgnoreSet, p: Seq<char>) -> Seq<Seq<char>> {
    spec_kept_children(tree(p), ignore)
}

/// Each directory of `ch` is a kept child of the one before it.
pub open spec fn kid_chain(tree: spec_fn(Seq<char>) -> Seq<WalkChild>, ignore: IgnoreSet, ch: Seq<Seq<char>>) -> bool {
    forall|i: int| 0 <= i < ch.len() - 1 ==> #[trigger] walk_kids(tree, ignore, ch[i]).contains(ch[i + 1])
}

/// `d` lies `n` kept steps below `p` in the snapshot `tree`.
pub open spec fn lies_below(tree: spec_fn(Seq<char>) -> Seq<WalkChild>, ignore: IgnoreSet, p: Seq<char>, n: nat, d: Seq<char>) -> bool {
    exists|ch: Seq<Seq<char>>| #[trigger] kid_chain(tree, ignore, ch) && ch.len() == n + 1 && ch[0] == p && ch[n as int] == d
}

/// `d` is a directory a walk of `root` down to `max_depth` levels collects
/// from the snapshot `tree`: one to `max_depth` kept steps below the root.
pub open spec fn walk_reaches(tree: spec_fn(Seq<char>) -> Seq<WalkChild>, ignore: IgnoreSet, root: Seq<char>, max_depth: nat, d: Seq<char>) -> bool {
    exists|k: nat| 1 <= k <= max_depth && #[trigger] lies_below(tree, ignore, root, k, d)
}

/// What holds of a walk's `found` and `pending` lists at every step of a
/// walk of `root` over the snapshot `tree`: every pending directory lies its
/// depth below the root, within the bound; every found directory is one the
/// walk collects; and every directory the walk collects is found already or
/// lies below a pending directory shallower than it.
pub open spec fn walk_covers(
    tree: spec_fn(Seq<char>) -> Seq<WalkChild>,
    ignore: IgnoreSet,
    root: Seq<char>,
    max_depth: nat,
    found: Seq<Seq<char>>,
    pending: Seq<(Seq<char>, nat)>,
) -> bool {
    &&& forall|i: int| 0 <= i < pending.len() ==> (#[trigger] pending[i]).1 <= max_depth
        && lies_below(tree, ignore, root, pending[i].1, pending[i].0)
    &&& forall|i: int| 0 <= i < found.len() ==> walk_reaches(tree, ignore, root, max_depth, #[trigger] found[i])
    &&& forall|k: nat, d: Seq<char>| 1 <= k <= max_depth && #[trigger] lies_below(tree, ignore, root, k, d) ==>
        found.contains(d) || exists|i: int| 0 <= i < pending.len() && pending[i].1 < k
            && #[trigger] lies_below(tree, ignore, pending[i].0, (k - pending[i].1) as nat, d)
}

/// One more kept step below a directory `k` steps below `p`.
proof fn lemma_lies_below_extend(tree: spec_fn(Seq<char>) -> Seq<WalkChild>, ignore: IgnoreSet, p: Seq<char>, k: nat, d: Seq<char>, c: Seq<char>)
    requires
        lies_below(tree, ignore, p, k, d),
        walk_kids(tree, ignore, d).contains(c),
    ensures
        lies_below(tree, ignore, p, k + 1, c),
{
    let ch = choose|ch: Seq<Seq<char>>| #[trigger] kid_chain(tree, ignore, ch) && ch.len() == k + 1 && ch[0] == p && ch[k as int] == d;
    let ch2 = ch.push(c);
    assert forall|i: int| 0 <= i < ch2.len() - 1 implies #[trigger] walk_kids(tree, ignore, ch2[i]).contains(ch2[i + 1]) by {
        if i < k {
            assert(ch2[i] == ch[i] && ch2[i + 1] == ch[i + 1]);
            assert(walk_kids(tree, ignore, ch[i]).contains(ch[i + 1]));
        } else {
            assert(ch2[i] == d && ch2[i + 1] == c);
        }
    }
    assert(kid_chain(tree, ignore, ch2));
    assert(ch2[(k + 1) as int] == c);
}

/// The first kept step of a path `n >= 1` steps below `d`.
proof fn lemma_lies_below_first(tree: spec_fn(Seq<char>) -> Seq<WalkChild>, ignore: IgnoreSet, d: Seq<char>, n: nat, e: Seq<char>) -> (c: Seq<char>)
    requires
        n >= 1,
        lies_below(tree, ignore, d, n, e),
    ensures
        walk_kids(tree, ignore, d).contains(c),
        lies_below(tree, ignore, c, (n - 1) as nat, e),
{
    let ch = choose|ch: Seq<Seq<char>>| #[trigger] kid_chain(tree, ignore, ch) && ch.len() == n + 1 && ch[0] == d && ch[n as int] == e;
    assert(walk_kids(tree, ignore, ch[0]).contains(ch[0int + 1]));
    let t = ch.drop_first();
    assert forall|i: int| 0 <= i < t.len() - 1 implies #[trigger] walk_kids(tree, ignore, t[i]).contains(t[i + 1]) by {
        assert(t[i] == ch[i + 1] && t[i + 1] == ch[i + 2]);
        assert(walk_kids(tree, ignore, ch[i + 1]).contains(ch[(i + 1) + 1]));
    }
    assert(kid_chain(tree, ignore, t));
    assert(t[(n - 1) as int] == e);
    ch[1]
}

/// Where the next directory to read sits in the pending list: the pending
/// list left is what lies before it, and everything after it lies at or
/// beyond the depth bound; when there is none, everything does.
proof fn lemma_next_dir_shape(stack: Seq<(Seq<char>, nat)>, max_depth: nat) -> (m: int)
    ensures
        spec_next_dir(stack, max_depth).1 is None ==> forall|i: int| 0 <= i < stack.len() ==> (#[trigger] stack[i]).1 >= max_depth,
        spec_next_dir(stack, max_depth).1 is Some ==> {
            &&& 0 <= m < stack.len()
            &&& spec_next_dir(stack, max_depth).1 == Some(stack[m])
            &&& spec_next_dir(stack, max_depth).0 == stack.take(m)
            &&& stack[m].1 < max_depth
            &&& forall|i: int| m < i < stack.len() ==> (#[trigger] stack[i]).1 >= max_depth
        },
    decreases stack.len(),
{
    if stack.len() == 0 {
        0
    } else if stack.last().1 >= max_depth {
        let init = stack.drop_last();
        let m = lemma_next_dir_shape(init, max_depth);
        assert(spec_next_dir(stack, max_depth) == spec_next_dir(init, max_depth));
        if spec_next_dir(stack, max_depth).1 is None {
            assert forall|i: int| 0 <= i < stack.len() implies (#[trigger] stack[i]).1 >= max_depth by {
                if i < stack.len() - 1 {
                    assert(init[i] == stack[i]);
                }
            }
        } else {
            assert(init.take(m) =~= stack.take(m));
            assert(init[m] == stack[m]);
            assert forall|i: int| m < i < stack.len() implies (#[trigger] stack[i]).1 >= max_depth by {
                if i < stack.len() - 1 {
                    assert(init[i] == stack[i]);
                }
            }
        }
        m
    } else {
        assert(stack.drop_last() =~= stack.take(stack.len() - 1));
        stack.len() - 1
    }
}

/// A walk starts covering its root: nothing found, the root pending at
/// depth zero.
pub proof fn lemma_walk_start(tree: spec_fn(Seq<char>) -> Seq<WalkChild>, ignore: IgnoreSet, root: Seq<char>, max_depth: nat)
    ensures
        walk_covers(tree, ignore, root, max_depth, Seq::empty(), seq![(root, 0nat)]),
{
    let pending = seq![(root, 0nat)];
    assert(kid_chain(tree, ignore, seq![root]));
    assert(lies_below(tree, ignore, root, 0, root));
    assert forall|k: nat, d: Seq<char>| 1 <= k <= max_depth && #[trigger] lies_below(tree, ignore, root, k, d) implies
        Seq::<Seq<char>>::empty().contains(d) || exists|i: int| 0 <= i < pending.len() && pending[i].1 < k
            && #[trigger] lies_below(tree, ignore, pending[i].0, (k - pending[i].1) as nat, d) by {
        assert(pending[0].1 < k && lies_below(tree, ignore, pending[0].0, (k - pending[0].1) as nat, d));
    }
}

/// One step of a walk keeps it covering: reading the next directory
/// [`Walk::next_dir`] names and handing its snapshot entries to
/// [`Walk::take_children`] finds its kept children and queues them one level
/// deeper.
pub proof fn lemma_walk_step(
    tree: spec_fn(Seq<char>) -> Seq<WalkChild>,
    ignore: IgnoreSet,
    root: Seq<char>,
    max_depth: nat,
    found: Seq<Seq<char>>,
    pending: Seq<(Seq<char>, nat)>,
)
    requires
        walk_covers(tree, ignore, root, max_depth, found, pending),
        spec_next_dir(pending, max_depth).1 is Some,
    ensures
        ({
            let rest = spec_next_dir(pending, max_depth).0;
            let (d, k) = spec_next_dir(pending, max_depth).1.unwrap();
            let kids = walk_kids(tree, ignore, d);
            walk_covers(tree, ignore, root, max_depth, found + kids,
                rest + Seq::new(kids.len(), |i: int| (kids[i], k + 1)))
        }),
{
    let m = lemma_next_dir_shape(pending, max_depth);
    let rest = pending.take(m);
    let (d, k) = pending[m];
    let kids = walk_kids(tree, ignore, d);
    let ch = Seq::new(kids.len(), |i: int| (kids[i], k + 1));
    let f2 = found + kids;
    let p2 = rest + ch;
    assert(pending[m].1 <= max_depth && lies_below(tree, ignore, root, k, d));
    assert forall|i: int| 0 <= i < p2.len() implies (#[trigger] p2[i]).1 <= max_depth
        && lies_below(tree, ignore, root, p2[i].1, p2[i].0) by {
        if i < m {
            assert(p2[i] == pending[i]);
        } else {
            let j = i - m;
            assert(p2[i] == ch[j]);
            assert(kids.contains(kids[j]));
            lemma_lies_below_extend(tree, ignore, root, k, d, kids[j]);
        }
    }
    assert forall|i: int| 0 <= i < f2.len() implies walk_reaches(tree, ignore, root, max_depth, #[trigger] f2[i]) by {
        if i < found.len() {
            assert(f2[i] == found[i]);
        } else {
            let j = i - found.len();
            assert(f2[i] == kids[j]);
            assert(kids.contains(kids[j]));
            lemma_lies_below_extend(tree, ignore, root, k, d, kids[j]);
            assert(lies_below(tree, ignore, root, k + 1, f2[i]));
        }
    }
    assert forall|kk: nat, e: Seq<char>| 1 <= kk <= max_depth && #[trigger] lies_below(tree, ignore, root, kk, e) implies
        f2.contains(e) || exists|i: int| 0 <= i < p2.len() && p2[i].1 < kk
            && #[trigger] lies_below(tree, ignore, p2[i].0, (kk - p2[i].1) as nat, e) by {
        if found.contains(e) {
            let j = choose|j: int| 0 <= j < found.len() && found[j] == e;
            assert(f2[j] == e);
        } else {
            let i = choose|i: int| 0 <= i < pending.len() && pending[i].1 < kk
                && #[trigger] lies_below(tree, ignore, pending[i].0, (kk - pending[i].1) as nat, e);
            if i < m {
                assert(p2[i] == pending[i]);
            } else if i > m {
                assert(pending[i].1 >= max_depth);
            } else {
                let n = (kk - k) as nat;
                assert(lies_below(tree, ignore, d, n, e));
                let c = lemma_lies_below_first(tree, ignore, d, n, e);
                let j = choose|j: int| 0 <= j < kids.len() && kids[j] == c;
                if n == 1 {
                    let ch = choose|ch: Seq<Seq<char>>| #[trigger] kid_chain(tree, ignore, ch) && ch.len() == 0 + 1 && ch[0] == c && ch[0] == e;
                    assert(e == c);
                    assert(f2[found.len() + j] == e);
                } else {
                    assert(p2[m + j] == ch[j]);
                    assert(p2[m + j].0 == c && p2[m + j].1 == k + 1);
                    assert((kk - p2[m + j].1) as nat == (n - 1) as nat);
                    assert(lies_below(tree, ignore, p2[m + j].0, (kk - p2[m + j].1) as nat, e));
                }
            }
        }
    }
}

/// A walk driven to its end collects exactly the directories one to
/// `max_depth` kept steps below its root in the snapshot: once
/// [`Walk::next_dir`] has nothing left to name, a directory is found if and
/// only if the walk reaches it.
pub proof fn lemma_walk_done(
    tree: spec_fn(Seq<char>) -> Seq<WalkChild>,
    ignore: IgnoreSet,
    root: Seq<char>,
    max_depth: nat,
    found: Seq<Seq<char>>,
    pending: Seq<(Seq<char>, nat)>,
)
    requires
        walk_covers(tree, ignore, root, max_depth, found, pending),
        spec_next_dir(pending, max_depth).1 is None,
    ensures
        forall|d: Seq<char>| #[trigger] found.contains(d) <==> walk_reaches(tree, ignore, root, max_depth, d),
{
    lemma_next_dir_shape(pending, max_depth);
    assert forall|d: Seq<char>| #[trigger] found.contains(d) <==> walk_reaches(tree, ignore, root, max_depth, d) by {
        if found.contains(d) {
            let j = choose|j: int| 0 <= j < found.len() && found[j] == d;
            assert(walk_reaches(tree, ignore, root, max_depth, found[j]));
        }
        if walk_reaches(tree, ignore, root, max_depth, d) {
            let k = choose|k: nat| 1 <= k <= max_depth && #[trigger] lies_below(tree, ignore, root, k, d);
            if !found.contains(d) {
                let i = choose|i: int| 0 <= i < pending.len() && pending[i].1 < k
                    && #[trigger] lies_below(tree, ignore, pending[i].0, (k - pending[i].1) as nat, d);
                assert(pending[i].1 >= max_depth);
            }
        }
    }
}

/// The filesystem answered `b` when `is_dir` was asked about a string
/// spelling `p`.
pub open spec fn reported<F: Fn(&str) -> bool>(is_dir: F, p: Seq<char>, b: bool) -> bool {
    exists|s: &str| s@ == p && call_ensures(is_dir, (s,), b)
}

/// `q` is one of the paths in `dead` or lies beneath one of them.
pub open spec fn under_any(q: Seq<char>, dead: Set<Seq<char>>) -> bool {
    exists|d: Seq<char>| dead.contains(d) && same_or_under(q, d)
}

/// The paths of `s` outside every subtree rooted at a path of `dead`.
pub open spec fn without_subtrees(s: Set<Seq<char>>, dead: Set<Seq<char>>) -> Set<Seq<char>> {
    s.filter(|q: Seq<char>| !under_any(q, dead))
}

/// Removing one more subtree from what is left.
proof fn lemma_without_one_more(s: Set<Seq<char>>, dead: Set<Seq<char>>, d: Seq<char>)
    ensures
        without_subtree(without_subtrees(s, dead), d) == without_subtrees(s, dead.insert(d)),
{
    assert forall|q: Seq<char>| without_subtree(without_subtrees(s, dead), d).contains(q)
        <==> without_subtrees(s, dead.insert(d)).contains(q) by {
        if under_any(q, dead.insert(d)) {
            let e = choose|e: Seq<char>| dead.insert(d).contains(e) && same_or_under(q, e);
            if e != d {
                assert(dead.contains(e));
                assert(under_any(q, dead));
            }
        }
        if under_any(q, dead) {
            let e = choose|e: Seq<char>| dead.contains(e) && same_or_under(q, e);
            assert(dead.insert(d).contains(e));
        }
        if same_or_under(q, d) {
            assert(dead.insert(d).contains(d));
        }
    }
    assert(without_subtree(without_subtrees(s, dead), d) =~= without_subtrees(s, dead.insert(d)));
}

/// One root's indexing: from the discovered set `d0`, recording `live` and
/// then removing (with its subtree) every discovered path under `root` that
/// `is_dir` reported gone leaves `d1`, with `pruned` such paths found.
pub open spec fn spec_root_indexed<F: Fn(&str) -> bool>(
    is_dir: F,
    d0: Set<Seq<char>>,
    root: Seq<char>,
    live: Seq<Seq<char>>,
    d1: Set<Seq<char>>,
    pruned: nat,
) -> bool {
    let du = d0.union(live.to_set());
    let known = within_subtree(du, root);
    exists|dead: Set<Seq<char>>| #[trigger] dead_under(is_dir, known, dead) && d1 == without_subtrees(du, dead)
        && dead.finite() && pruned == dead.len()
}

/// `dead` is exactly those of `known` that `is_dir` reported gone.
pub open spec fn dead_under<F: Fn(&str) -> bool>(is_dir: F, known: Set<Seq<char>>, dead: Set<Seq<char>>) -> bool {
    &&& dead.subset_of(known)
    &&& forall|p: Seq<char>| #[trigger] dead.contains(p) ==> reported(is_dir, p, false)
    &&& forall|p: Seq<char>| #[trigger] known.contains(p) && !dead.contains(p) ==> reported(is_dir, p, true)
}

/// Indexes one walked root: records every `live` directory as discovered,
/// then asks `is_dir` about each discovered path under the root and removes
/// (with its subtree) every one that is no longer a directory. Returns how
/// many were found dead. Visits are never touched. (What the store holds is
/// stated for a store with a model.)
pub fn index_root<S: DirStore, F: Fn(&str) -> bool>(store: &mut S, root: &IndexerRoot, live: &Vec<String>, is_dir: &F) -> (r: Result<usize, StoreError>)
    requires
        forall|p: &str| call_requires(*is_dir, (p,)),
    ensures
        old(store).modeled() ==> final(store).visit_map() == old(store).visit_map(),
        old(store).modeled() ==> (r matches Ok(pruned) ==> {
            &&& spec_root_indexed(*is_dir, old(store).discovered_set(), root.path@, strings_view(live@),
                final(store).discovered_set(), pruned as nat)
        }),
        old(store).never_fails() ==> r is Ok,
        final(store).never_fails() == old(store).never_fails(),
        final(store).modeled() == old(store).modeled(),
{
    let ghost md = store.modeled();
    let ghost nf = store.never_fails();
    let ghost d0 = store.discovered_set();
    let ghost v0 = store.visit_map();
    let ghost lv = strings_view(live@);
    let mut i: usize = 0;
    assert(d0.union(lv.take(0).to_set()) =~= d0);
    while i < live.len()
        invariant
            i <= live@.len(),
            lv == strings_view(live@),
            md ==> store.discovered_set() == d0.union(lv.take(i as int).to_set()),
            md ==> store.visit_map() == v0,
            v0 == old(store).visit_map(),
            d0 == old(store).discovered_set(),
            store.never_fails() == nf,
            nf == old(store).never_fails(),
            store.modeled() == md,
            md == old(store).modeled(),
        decreases live@.len() - i,
    {
        let ghost before = store.discovered_set();
        let p = live[i].as_str();
        assert(p@ == lv[i as int]);
        match store.record_discovered(p) {
            Ok(()) => {},
            Err(e) => {
                return Err(e);
            },
        }
        assert(lv.take(i + 1) =~= lv.take(i as int).push(lv[i as int]));
        proof {
          if md {
            assert(store.discovered_set() == before.insert(lv[i as int]));
            let t0 = lv.take(i as int);
            let t1 = lv.take(i + 1);
            assert forall|x: Seq<char>| #[trigger] t1.to_set().contains(x) <==> (t0.to_set().contains(x) || x == lv[i as int]) by {
                if t1.contains(x) {
                    let j = choose|j: int| 0 <= j < t1.len() && #[trigger] t1[j] == x;
                    if j < i {
                        assert(t0[j] == x);
                    }
                }
                if t0.contains(x) {
                    let j = choose|j: int| 0 <= j < t0.len() && #[trigger] t0[j] == x;
                    assert(t1[j] == x);
                }
                if x == lv[i as int] {
                    assert(t1[i as int] == x);
                }
            }
            assert forall|x: Seq<char>| store.discovered_set().contains(x) <==> #[trigger] d0.union(t1.to_set()).contains(x) by {
                assert(t1.to_set().contains(x) <==> (t0.to_set().contains(x) || x == lv[i as int]));
            }
            assert(store.discovered_set() =~= d0.union(t1.to_set()));
          }
        }
        i = i + 1;
    }
    assert(lv.take(lv.len() as int) =~= lv);
    let ghost d1 = store.discovered_set();
    let ghost kset = within_subtree(d1, root.path@);
    let known = match store.discovered_under(root.path.as_str()) {
        Ok(v) => v,
        Err(e) => {
            return Err(e);
        },
    };
    let ghost ks = strings_view(known@);
    let ghost mut dead: Set<Seq<char>> = Set::empty();
    let mut pruned: usize = 0;
    let mut k: usize = 0;
    assert(without_subtrees(d1, dead) =~= d1);
    while k < known.len()
        invariant
            k <= known@.len(),
            ks == strings_view(known@),
            md ==> ks.no_duplicates(),
            md ==> ks.to_set() == kset,
            md ==> store.visit_map() == v0,
            v0 == old(store).visit_map(),
            dead.finite(),
            md ==> pruned == dead.len(),
            pruned <= k,
            dead.subset_of(ks.take(k as int).to_set()),
            forall|p: Seq<char>| #[trigger] dead.contains(p) ==> reported(*is_dir, p, false),
            forall|p: Seq<char>| #[trigger] ks.take(k as int).to_set().contains(p) && !dead.contains(p) ==> reported(*is_dir, p, true),
            md ==> store.discovered_set() == without_subtrees(d1, dead),
            forall|p: &str| call_requires(*is_dir, (p,)),
            store.never_fails() == nf,
            nf == old(store).never_fails(),
            store.modeled() == md,
            md == old(store).modeled(),
        decreases known@.len() - k,
    {
        let ghost t0 = ks.take(k as int);
        let ghost t1 = ks.take(k + 1);
        assert(t1 =~= t0.push(ks[k as int]));
        let s = known[k].as_str();
        let b = is_dir(s);
        assert(s@ == ks[k as int]);
        assert(reported(*is_dir, ks[k as int], b));
        assert(md ==> !dead.contains(ks[k as int])) by {
            if dead.contains(ks[k as int]) {
                assert(t0.to_set().contains(ks[k as int]));
                let j = choose|j: int| 0 <= j < t0.len() && #[trigger] t0[j] == ks[k as int];
                assert(ks[j] == ks[k as int]);
            }
        }
        if !b {
            match store.remove_discovered(s) {
                Ok(()) => {},
                Err(e) => {
                    return Err(e);
                },
            }
            proof {
                lemma_without_one_more(d1, dead, ks[k as int]);
                dead = dead.insert(ks[k as int]);
            }
            pruned = pruned + 1;
        }
        assert forall|p: Seq<char>| #[trigger] t1.to_set().contains(p) implies t0.to_set().contains(p) || p == ks[k as int] by {
            let j = choose|j: int| 0 <= j < t1.len() && #[trigger] t1[j] == p;
            if j < k {
                assert(t0[j] == p);
            }
        }
        assert forall|p: Seq<char>| #[trigger] t0.to_set().contains(p) implies t1.to_set().contains(p) by {
            let j = choose|j: int| 0 <= j < t0.len() && #[trigger] t0[j] == p;
            assert(t1[j] == p);
        }
        assert(t1[k as int] == ks[k as int]);
        assert(t1.to_set().contains(ks[k as int]));
        k = k + 1;
    }
    assert(ks.take(ks.len() as int) =~= ks);
    proof {
        if md {
            assert(dead_under(*is_dir, kset, dead));
            assert(spec_root_indexed(*is_dir, d0, root.path@, lv, store.discovered_set(), pruned as nat));
        }
    }
    Ok(pruned)
}

/// The total number of live directories over a set of walks.
pub open spec fn spec_total_live(walks: Seq<(IndexerRoot, Vec<String>)>) -> nat
    decreases walks.len(),
{
    if walks.len() == 0 {
        0
    } else {
        spec_total_live(walks.drop_last()) + walks.last().1@.len()
    }
}

/// Every live directory over a set of walks.
pub open spec fn spec_all_live(walks: Seq<(IndexerRoot, Vec<String>)>) -> Set<Seq<char>>
    decreases walks.len(),
{
    if walks.len() == 0 {
        Set::empty()
    } else {
        spec_all_live(walks.drop_last()).union(strings_view(walks.last().1@).to_set())
    }
}

/// The sum of `ps`, saturating at `usize::MAX` after each addition.
pub open spec fn spec_saturating_sum(ps: Seq<nat>) -> nat
    decreases ps.len(),
{
    if ps.len() == 0 {
        0
    } else {
        let t = spec_saturating_sum(ps.drop_last()) + ps.last();
        if t > usize::MAX {
            usize::MAX as nat
        } else {
            t
        }
    }
}

/// Indexing the walks one after the other takes the discovered set through
/// `ds` (from `ds[0]` to its last), each root as [`spec_root_indexed`]
/// states, finding `ps[i]` dead paths under root `i`.
pub open spec fn spec_walks_indexed<F: Fn(&str) -> bool>(
    is_dir: F,
    walks: Seq<(IndexerRoot, Vec<String>)>,
    ds: Seq<Set<Seq<char>>>,
    ps: Seq<nat>,
) -> bool {
    &&& ds.len() == walks.len() + 1
    &&& ps.len() == walks.len()
    &&& forall|i: int| 0 <= i < walks.len() ==> #[trigger] spec_root_indexed(is_dir, ds[i], walks[i].0.path@,
        strings_view(walks[i].1@), ds[i + 1], ps[i])
}

/// Indexes a finished set of walks, root by root (see [`index_root`]), and
/// reports the pass: every root counts as walked, every live directory as
/// indexed, and the dead paths found under each root as pruned (the count
/// saturates at `usize::MAX`). The discovered set goes through each root's
/// indexing in turn, and visits are untouched (for a store with a model).
pub fn index_walks<S: DirStore, F: Fn(&str) -> bool>(store: &mut S, walks: &Vec<(IndexerRoot, Vec<String>)>, is_dir: &F) -> (r: Result<IndexSummary, StoreError>)
    requires
        forall|p: &str| call_requires(*is_dir, (p,)),
        spec_total_live(walks@) <= usize::MAX,
    ensures
        old(store).modeled() ==> final(store).visit_map() == old(store).visit_map(),
        r matches Ok(s) ==> {
            &&& s.roots_walked == walks@.len()
            &&& s.indexed == spec_total_live(walks@)
            &&& s.watch_degraded@.len() == 0
        },
        old(store).modeled() ==> (r matches Ok(s) ==> {
            &&& final(store).discovered_set().subset_of(old(store).discovered_set().union(spec_all_live(walks@)))
            &&& exists|ds: Seq<Set<Seq<char>>>, ps: Seq<nat>| #[trigger] spec_walks_indexed(*is_dir, walks@, ds, ps)
                && ds[0] == old(store).discovered_set() && ds.last() == final(store).discovered_set()
                && s.pruned == spec_saturating_sum(ps)
        }),
        old(store).never_fails() ==> r is Ok,
        final(store).never_fails() == old(store).never_fails(),
        final(store).modeled() == old(store).modeled(),
{
    let ghost md = store.modeled();
    let ghost nf = store.never_fails();
    let ghost d0 = store.discovered_set();
    let ghost v0 = store.visit_map();
    let mut summary = IndexSummary::new();
    let mut i: usize = 0;
    let ghost mut ds: Seq<Set<Seq<char>>> = seq![d0];
    let ghost mut ps: Seq<nat> = Seq::empty();
    while i < walks.len()
        invariant
            i <= walks@.len(),
            spec_total_live(walks@) <= usize::MAX,
            md ==> spec_walks_indexed(*is_dir, walks@.take(i as int), ds, ps),
            ds.len() == i + 1,
            ds[0] == d0,
            d0 == old(store).discovered_set(),
            md ==> ds.last() == store.discovered_set(),
            md ==> summary.pruned == spec_saturating_sum(ps),
            summary.roots_walked == i,
            summary.indexed == spec_total_live(walks@.take(i as int)),
            summary.watch_degraded@.len() == 0,
            md ==> store.visit_map() == v0,
            v0 == old(store).visit_map(),
            md ==> store.discovered_set().subset_of(d0.union(spec_all_live(walks@.take(i as int)))),
            forall|p: &str| call_requires(*is_dir, (p,)),
            store.never_fails() == nf,
            nf == old(store).never_fails(),
            store.modeled() == md,
            md == old(store).modeled(),
        decreases walks@.len() - i,
    {
        let ghost before = store.discovered_set();
        assert(walks@.take(i + 1).drop_last() =~= walks@.take(i as int));
        assert(walks@.take(i + 1).last() == walks@[i as int]);
        proof {
            lemma_total_live_prefix(walks@, i as int + 1);
        }
        let walk = &walks[i];
        let pruned = match index_root(store, &walk.0, &walk.1, is_dir) {
            Ok(p) => p,
            Err(e) => {
                return Err(e);
            },
        };
        proof {
          if md {
            let d1 = before.union(strings_view(walk.1@).to_set());
            let known = within_subtree(d1, walk.0.path@);
            let dead = choose|dead: Set<Seq<char>>| #[trigger] dead_under(*is_dir, known, dead)
                && store.discovered_set() == without_subtrees(d1, dead) && dead.finite() && pruned == dead.len();
            assert(store.discovered_set().subset_of(d1));
            assert(store.discovered_set().subset_of(d0.union(spec_all_live(walks@.take(i + 1)))));
            let ds2 = ds.push(store.discovered_set());
            let ps2 = ps.push(pruned as nat);
            let w1 = walks@.take(i + 1);
            assert forall|j: int| 0 <= j < w1.len() implies #[trigger] spec_root_indexed(*is_dir, ds2[j], w1[j].0.path@,
                strings_view(w1[j].1@), ds2[j + 1], ps2[j]) by {
                if j < i {
                    assert(w1[j] == walks@.take(i as int)[j]);
                    assert(spec_root_indexed(*is_dir, ds[j], walks@.take(i as int)[j].0.path@,
                        strings_view(walks@.take(i as int)[j].1@), ds[j + 1], ps[j]));
                } else {
                    assert(w1[j] == walks@[i as int]);
                    assert(ds2[j] == before);
                }
            }
            assert(ps2.drop_last() =~= ps);
            ds = ds2;
            ps = ps2;
          } else {
            ds = ds.push(store.discovered_set());
            ps = ps.push(pruned as nat);
          }
        }
        summary.roots_walked = summary.roots_walked + 1;
        summary.indexed = summary.indexed + walk.1.len();
        summary.pruned = summary.pruned.saturating_add(pruned);
        i = i + 1;
    }
    assert(walks@.take(walks@.len() as int) =~= walks@);
    proof {
        if md {
            assert(spec_walks_indexed(*is_dir, walks@, ds, ps));
        }
    }
    Ok(summary)
}

/// The live count of a prefix of the walks is at most the total.
proof fn lemma_total_live_prefix(walks: Seq<(IndexerRoot, Vec<String>)>, n: int)
    requires
        0 <= n <= walks.len(),
    ensures
        spec_total_live(walks.take(n)) <= spec_total_live(walks),
    decreases walks.len() - n,
{
    if n < walks.len() {
        lemma_total_live_prefix(walks, n + 1);
        assert(walks.take(n + 1).drop_last() =~= walks.take(n));
    } else {
        assert(walks.take(n) =~= walks);
    }
}

/// Routes one watcher event to the store: an admissible path that is now a
/// directory is recorded as discovered, an admissible path that is gone is
/// removed with its subtree, and anything else is left alone. Visits are
/// never touched. (What the store holds is stated for a store with a model.)
pub fn apply_event_path<S: DirStore>(store: &mut S, roots: &[IndexerRoot], ignore: &IgnoreSet, path: &str, kind: PathKind) -> (r: Result<EventOutcome, StoreError>)
    ensures
        r matches Ok(o) ==> o == spec_event_outcome(roots@, *ignore, path@, kind),
        old(store).modeled() ==> (r matches Ok(o) ==> {
            &&& final(store).visit_map() == old(store).visit_map()
            &&& final(store).discovered_set() == match o {
                EventOutcome::Upserted => old(store).discovered_set().insert(path@),
                EventOutcome::Removed => without_subtree(old(store).discovered_set(), path@),
                EventOutcome::Skipped => old(store).discovered_set(),
            }
        }),
        r is Err ==> spec_event_outcome(roots@, *ignore, path@, kind) != EventOutcome::Skipped,
        old(store).modeled() ==> (r is Err ==> final(store).visit_map() == old(store).visit_map()
            && final(store).discovered_set() == old(store).discovered_set()),
        old(store).never_fails() ==> r is Ok,
        final(store).never_fails() == old(store).never_fails(),
        final(store).modeled() == old(store).modeled(),
{
    let outcome = route_event(roots, ignore, path, kind);
    match outcome {
        EventOutcome::Upserted => {
            match store.record_discovered(path) {
                Ok(()) => Ok(outcome),
                Err(e) => Err(e),
            }
        },
        EventOutcome::Removed => {
            match store.remove_discovered(path) {
                Ok(()) => Ok(outcome),
                Err(e) => Err(e),
            }
        },
        EventOutcome::Skipped => Ok(outcome),
    }
}

/// A pending batch of watcher events is applied early once it holds this
/// many paths, even if the debounce window never goes quiet.
pub const MAX_PENDING_EVENTS: usize = 4096;

/// How often, in seconds, the roots are checked for a due re-walk.
pub const GATE_CHECK_INTERVAL_SECS: u64 = 30;

/// The quiet window before a batch of watcher events is applied: the
/// configured one, held between 50 ms and 10 s.
pub fn effective_debounce_ms(cfg: &IndexerConfig) -> (r: u64)
    ensures
        r == (if cfg.debounce_ms < 50 { 50 } else if cfg.debounce_ms > 10_000 { 10_000 } else { cfg.debounce_ms }),
{
    if cfg.debounce_ms < 50 {
        50
    } else if cfg.debounce_ms > 10_000 {
        10_000
    } else {
        cfg.debounce_ms
    }
}

/// The daemon's re-walk bound: the configured one, but never under a minute.
pub fn effective_rewalk_interval(cfg: &IndexerConfig) -> (r: Span)
    ensures
        r.secs == (if cfg.rewalk_interval_secs < 60 { 60 } else { cfg.rewalk_interval_secs }),
        r.nanos == 0,
{
    if cfg.rewalk_interval_secs < 60 {
        Span::from_secs(60)
    } else {
        Span::from_secs(cfg.rewalk_interval_secs)
    }
}

/// Folds the outcome of installing the recursive watch on `root` into the
/// first pass's report: a degradable failure names the root in
/// `watch_degraded` and the daemon goes on; any other failure is returned.
pub fn note_watch_outcome(summary: &mut IndexSummary, root: &str, outcome: Result<(), WatchError>) -> (r: Result<(), WatchError>)
    ensures
        final(summary).roots_walked == old(summary).roots_walked,
        final(summary).indexed == old(summary).indexed,
        final(summary).pruned == old(summary).pruned,
        match outcome {
            Ok(()) => r is Ok && final(summary).watch_degraded@ == old(summary).watch_degraded@,
            Err(e) => if e == WatchError::PermissionDenied {
                &&& r is Ok
                &&& strings_view(final(summary).watch_degraded@) == strings_view(old(summary).watch_degraded@).push(root@)
            } else {
                r == Err::<(), WatchError>(e) && final(summary).watch_degraded@ == old(summary).watch_degraded@
            },
        },
{
    match outcome {
        Ok(()) => Ok(()),
        Err(e) => {
            if watch_error_is_degradable(&e) {
                let ghost before = strings_view(summary.watch_degraded@);
                summary.watch_degraded.push(root.to_owned());
                assert(strings_view(summary.watch_degraded@) =~= before.push(root@));
                Ok(())
            } else {
                Err(e)
            }
        },
    }
}

/// The paths and depth bounds of a list of roots.
pub open spec fn root_specs(roots: Seq<IndexerRoot>) -> Seq<(Seq<char>, usize)> {
    Seq::new(roots.len(), |i: int| (roots[i].path@, roots[i].max_depth))
}

/// Which of `roots` are due for a re-walk at `now`, given each one's
/// current modification time.
pub open spec fn stale_flags(gate: RootMtimeGate, roots: Seq<IndexerRoot>, now: Timestamp, mtimes: Seq<Option<Timestamp>>) -> Seq<bool> {
    Seq::new(roots.len(), |i: int| spec_stale(gate.last_walk(path_components(roots[i].path@)), gate.interval(), now, mtimes[i]))
}

/// The roots due for a re-walk at `now`, in order, given each root's
/// current modification time (`mtimes` is parallel to `roots`).
pub fn stale_roots(gate: &RootMtimeGate, roots: &[IndexerRoot], now: Timestamp, mtimes: &Vec<Option<Timestamp>>) -> (r: Vec<IndexerRoot>)
    requires
        mtimes@.len() == roots@.len(),
    ensures
        root_specs(r@) == select(root_specs(roots@), stale_flags(*gate, roots@, now, mtimes@)),
{
    let ghost rs = root_specs(roots@);
    let ghost fl = stale_flags(*gate, roots@, now, mtimes@);
    let mut out: Vec<IndexerRoot> = Vec::new();
    let mut i: usize = 0;
    assert(root_specs(out@) =~= select(rs.take(0), fl.take(0)));
    while i < roots.len()
        invariant
            i <= roots@.len(),
            mtimes@.len() == roots@.len(),
            rs == root_specs(roots@),
            fl == stale_flags(*gate, roots@, now, mtimes@),
            root_specs(out@) == select(rs.take(i as int), fl.take(i as int)),
        decreases roots@.len() - i,
    {
        let ghost before = out@;
        assert(rs.take(i + 1).drop_last() =~= rs.take(i as int));
        assert(fl.take(i + 1).drop_last() =~= fl.take(i as int));
        assert(rs.take(i + 1).last() == rs[i as int]);
        assert(fl.take(i + 1).last() == fl[i as int]);
        if gate.stale(roots[i].path.as_str(), now, mtimes[i]) {
            out.push(roots[i].copy());
            assert(root_specs(out@) =~= root_specs(before).push(rs[i as int]));
        }
        i = i + 1;
    }
    assert(rs.take(rs.len() as int) =~= rs);
    assert(fl.take(fl.len() as int) =~= fl);
    out
}

/// Records every one of `roots` as walked at `at`.
pub fn mark_all_walked(gate: &mut RootMtimeGate, roots: &[IndexerRoot], at: Timestamp)
    ensures
        final(gate).interval() == old(gate).interval(),
        forall|k: Seq<Component>| #[trigger] final(gate).last_walk(k) == if exists|i: int| 0 <= i < roots@.len() && path_components(roots@[i].path@) == k {
            Some(at)
        } else {
            old(gate).last_walk(k)
        },
{
    let mut i: usize = 0;
    while i < roots.len()
        invariant
            i <= roots@.len(),
            gate.interval() == old(gate).interval(),
            forall|k: Seq<Component>| #[trigger] gate.last_walk(k) == if exists|m: int| 0 <= m < i && path_components(roots@[m].path@) == k {
                Some(at)
            } else {
                old(gate).last_walk(k)
            },
        decreases roots@.len() - i,
    {
        gate.mark_walked(roots[i].path.as_str(), at);
        assert forall|k: Seq<Component>| #[trigger] gate.last_walk(k) == if exists|m: int| 0 <= m < i + 1 && path_components(roots@[m].path@) == k {
            Some(at)
        } else {
            old(gate).last_walk(k)
        } by {
            if path_components(roots@[i as int].path@) == k {
                assert(exists|m: int| 0 <= m < i + 1 && path_components(roots@[m].path@) == k);
            } else if exists|m: int| 0 <= m < i + 1 && path_components(roots@[m].path@) == k {
                let m = choose|m: int| 0 <= m < i + 1 && path_components(roots@[m].path@) == k;
                assert(m < i);
            }
        }
        i = i + 1;
    }
}

/// The components of listed paths are the listed component lists.
proof fn lemma_components_of_keys(ps: Seq<Seq<char>>, ks: Seq<Seq<Component>>)
    requires
        ps.len() == ks.len(),
        forall|i: int| 0 <= i < ks.len() ==> #[trigger] ks[i] == path_components(ps[i]),
    ensures
        components_of(ps) == ks.to_set(),
{
    assert forall|x: Seq<Component>| components_of(ps).contains(x) <==> ks.to_set().contains(x) by {
        if components_of(ps).contains(x) {
            let j = choose|j: int| 0 <= j < ps.len() && path_components(ps[j]) == x;
            assert(ks[j] == x);
        }
        if ks.contains(x) {
            let j = choose|j: int| 0 <= j < ks.len() && ks[j] == x;
            assert(path_components(ps[j]) == x);
        }
    }
    assert(components_of(ps) =~= ks.to_set());
}

/// `q` is the first of `src`'s paths, among its first `upto`, with `q`'s
/// components, and no path with those components was pending (`before`).
pub open spec fn first_new_spelling(src: Seq<Seq<char>>, upto: int, before: Set<Seq<Component>>, q: Seq<char>) -> bool {
    exists|j: int| 0 <= j < upto && j < src.len() && #[trigger] src[j] == q
        && !before.contains(path_components(q))
        && forall|k: int| 0 <= k < j ==> path_components(#[trigger] src[k]) != path_components(q)
}

/// A batch of watcher paths waiting to be applied: one per path as paths
/// compare (the first spelling seen is kept), in path order.
pub struct PendingEvents {
    keys: Vec<Vec<Part>>,
    paths: Vec<String>,
}

impl PendingEvents {
    #[verifier::type_invariant]
    spec fn well_formed(&self) -> bool {
        &&& self.keys@.len() == self.paths@.len()
        &&& parts_sorted(keys_view(self.keys@))
        &&& forall|i: int| 0 <= i < self.keys@.len() ==> #[trigger] keys_view(self.keys@)[i] == path_components(self.paths@[i]@)
    }

    /// The pending paths, in path order.
    pub closed spec fn spec_paths(&self) -> Seq<Seq<char>> {
        strings_view(self.paths@)
    }

    /// The components of the pending paths, as a set.
    pub open spec fn spec_components(&self) -> Set<Seq<Component>> {
        components_of(self.spec_paths())
    }

    /// An empty batch.
    pub fn new() -> (r: Self)
        ensures
            r.spec_paths().len() == 0,
    {
        let r = PendingEvents { keys: Vec::new(), paths: Vec::new() };
        assert(keys_view(r.keys@) =~= Seq::<Seq<Component>>::empty());
        assert(strings_view(r.paths@) =~= Seq::<Seq<char>>::empty());
        r
    }

    /// Number of pending paths.
    pub fn len(&self) -> (r: usize)
        ensures
            r == self.spec_paths().len(),
    {
        self.paths.len()
    }

    /// Adds the paths of one event (a path already pending, as paths compare,
    /// keeps the spelling it was first seen with); returns whether the batch has grown to
    /// [`MAX_PENDING_EVENTS`] and is due to be applied now.
    pub fn absorb(&mut self, paths: Vec<String>) -> (flush: bool)
        ensures
            final(self).spec_components() == old(self).spec_components().union(components_of(strings_view(paths@))),
            forall|i: int| 0 <= i < final(self).spec_paths().len() ==>
                old(self).spec_paths().contains(#[trigger] final(self).spec_paths()[i])
                || strings_view(paths@).contains(final(self).spec_paths()[i]),
            forall|q: Seq<char>| old(self).spec_paths().contains(q) ==> #[trigger] final(self).spec_paths().contains(q),
            forall|i: int| 0 <= i < final(self).spec_paths().len() && !old(self).spec_paths().contains(#[trigger] final(self).spec_paths()[i])
                ==> first_new_spelling(strings_view(paths@), strings_view(paths@).len() as int, old(self).spec_components(), final(self).spec_paths()[i]),
            forall|i: int, j: int| 0 <= i < j < final(self).spec_paths().len() ==>
                path_components(#[trigger] final(self).spec_paths()[i]) != path_components(#[trigger] final(self).spec_paths()[j]),
            flush == (final(self).spec_paths().len() >= MAX_PENDING_EVENTS),
    {
        let ghost src = strings_view(paths@);
        let ghost c0 = self.spec_components();
        let ghost ps0 = self.spec_paths();
        proof {
            assert(components_of(src.take(0)) =~= Set::<Seq<Component>>::empty());
            assert(c0.union(Set::<Seq<Component>>::empty()) =~= c0);
        }
        for p in it: paths
            invariant
                it.seq().len() == src.len(),
                forall|k: int| 0 <= k < src.len() ==> #[trigger] it.seq()[k]@ == src[k],
                self.spec_components() == c0.union(components_of(src.take(it.index() as int))),
                forall|i: int| 0 <= i < self.spec_paths().len() ==>
                    ps0.contains(#[trigger] self.spec_paths()[i]) || src.contains(self.spec_paths()[i]),
                forall|q: Seq<char>| ps0.contains(q) ==> #[trigger] self.spec_paths().contains(q),
                forall|i: int| 0 <= i < self.spec_paths().len() && !ps0.contains(#[trigger] self.spec_paths()[i])
                    ==> first_new_spelling(src, it.index() as int, c0, self.spec_paths()[i]),
        {
            let ghost idx = it.index() as int;
            let ghost before = self.spec_paths();
            let ghost cb = self.spec_components();
            assert(p@ == src[idx]);
            self.insert(p);
            proof {
                assert forall|i: int| 0 <= i < self.spec_paths().len() && !ps0.contains(#[trigger] self.spec_paths()[i])
                    implies first_new_spelling(src, idx + 1, c0, self.spec_paths()[i]) by {
                    let q = self.spec_paths()[i];
                    if before.contains(q) {
                        let m = choose|m: int| 0 <= m < before.len() && before[m] == q;
                        assert(first_new_spelling(src, idx, c0, before[m]));
                    } else {
                        assert(q == src[idx]);
                        assert(!cb.contains(path_components(q)));
                        assert forall|k: int| 0 <= k < idx implies path_components(#[trigger] src[k]) != path_components(q) by {
                            assert(src.take(idx)[k] == src[k]);
                            assert(components_of(src.take(idx)).contains(path_components(src[k])));
                        }
                        assert(first_new_spelling(src, idx + 1, c0, q));
                    }
                }
            }
            proof {
                let t0 = src.take(idx);
                let t1 = src.take(idx + 1);
                assert(t1 =~= t0.push(src[idx]));
                assert forall|x: Seq<Component>| #[trigger] components_of(t1).contains(x) <==> (components_of(t0).contains(x) || x == path_components(src[idx])) by {
                    if components_of(t1).contains(x) {
                        let j = choose|j: int| 0 <= j < t1.len() && path_components(t1[j]) == x;
                        if j < t0.len() {
                            assert(t0[j] == t1[j]);
                        }
                    }
                    if components_of(t0).contains(x) {
                        let j = choose|j: int| 0 <= j < t0.len() && path_components(t0[j]) == x;
                        assert(t1[j] == t0[j]);
                    }
                    if x == path_components(src[idx]) {
                        assert(t1[idx] == src[idx]);
                    }
                }
                assert(self.spec_components() =~= c0.union(components_of(t1)));
                assert forall|i: int| 0 <= i < self.spec_paths().len() implies
                    ps0.contains(#[trigger] self.spec_paths()[i]) || src.contains(self.spec_paths()[i]) by {
                    if self.spec_paths()[i] == src[idx] {
                        assert(src.contains(src[idx]));
                    }
                }
            }
        }
        assert(src.take(src.len() as int) =~= src);
        proof {
            use_type_invariant(&*self);
            let ks = keys_view(self.keys@);
            assert forall|i: int, j: int| 0 <= i < j < self.spec_paths().len() implies
                path_components(#[trigger] self.spec_paths()[i]) != path_components(#[trigger] self.spec_paths()[j]) by {
                assert(ks[i] == path_components(self.paths@[i]@));
                assert(ks[j] == path_components(self.paths@[j]@));
                assert(components_lt(ks[i], ks[j]));
                lemma_components_lt_order(ks[i], ks[j], ks[j]);
            }
        }
        self.paths.len() >= MAX_PENDING_EVENTS
    }

    /// Adds one path, unless a path equal to it is already pending.
    fn insert(&mut self, p: String)
        ensures
            final(self).spec_components() == old(self).spec_components().insert(path_components(p@)),
            forall|i: int| 0 <= i < final(self).spec_paths().len() ==>
                old(self).spec_paths().contains(#[trigger] final(self).spec_paths()[i]) || final(self).spec_paths()[i] == p@,
            forall|q: Seq<char>| old(self).spec_paths().contains(q) ==> #[trigger] final(self).spec_paths().contains(q),
            old(self).spec_components().contains(path_components(p@)) ==> final(self).spec_paths() == old(self).spec_paths(),
    {
        proof {
            use_type_invariant(&*self);
        }
        let comps = components(p.as_str());
        let ghost c = parts_view(comps@);
        let ghost ks = keys_view(self.keys@);
        let ghost ps = strings_view(self.paths@);
        proof {
            lemma_components_of_keys(ps, ks);
        }
        let (found, pos) = find_parts_slot(&self.keys, &comps);
        if found {
            assert(ks.to_set().insert(c) =~= ks.to_set());
            return;
        }
        let mut st = PendingEvents { keys: Vec::new(), paths: Vec::new() };
        assert(keys_view(st.keys@) =~= Seq::<Seq<Component>>::empty());
        std::mem::swap(&mut st, self);
        let PendingEvents { mut keys, mut paths } = st;
        proof {
            lemma_insert_parts_sorted(ks, c, pos as int);
        }
        keys.insert(pos, comps);
        paths.insert(pos, p);
        assert(keys_view(keys@) =~= ks.insert(pos as int, c));
        assert(strings_view(paths@) =~= ps.insert(pos as int, p@));
        let ng = PendingEvents { keys, paths };
        proof {
            let ks2 = ks.insert(pos as int, c);
            let ps2 = ps.insert(pos as int, p@);
            assert forall|i: int| 0 <= i < ks2.len() implies #[trigger] ks2[i] == path_components(ps2[i]) by {
                if i < pos {
                    assert(ks2[i] == ks[i] && ps2[i] == ps[i]);
                } else if i > pos {
                    assert(ks2[i] == ks[i - 1] && ps2[i] == ps[i - 1]);
                }
            }
            lemma_components_of_keys(ps2, ks2);
            assert forall|x: Seq<Component>| ks2.contains(x) <==> (ks.contains(x) || x == c) by {
                if ks2.contains(x) {
                    let j = choose|j: int| 0 <= j < ks2.len() && ks2[j] == x;
                    if j < pos {
                        assert(ks[j] == x);
                    } else if j > pos {
                        assert(ks[j - 1] == x);
                    }
                }
                if ks.contains(x) {
                    let j = choose|j: int| 0 <= j < ks.len() && ks[j] == x;
                    if j < pos {
                        assert(ks2[j] == x);
                    } else {
                        assert(ks2[j + 1] == x);
                    }
                }
                if x == c {
                    assert(ks2[pos as int] == x);
                }
            }
            assert(ks2.to_set() =~= ks.to_set().insert(c));
            assert forall|i: int| 0 <= i < ps2.len() implies ps.contains(#[trigger] ps2[i]) || ps2[i] == p@ by {
                if i < pos {
                    assert(ps[i] == ps2[i]);
                } else if i > pos {
                    assert(ps[i - 1] == ps2[i]);
                }
            }
            assert forall|q: Seq<char>| ps.contains(q) implies #[trigger] ps2.contains(q) by {
                let j = choose|j: int| 0 <= j < ps.len() && ps[j] == q;
                if j < pos {
                    assert(ps2[j] == q);
                } else {
                    assert(ps2[j + 1] == q);
                }
            }
        }
        *self = ng;
    }

    /// Empties the batch, returning its paths in path order.
    pub fn take(&mut self) -> (r: Vec<String>)
        ensures
            strings_view(r@) == old(self).spec_paths(),
            final(self).spec_paths().len() == 0,
    {
        let mut st = PendingEvents::new();
        std::mem::swap(&mut st, self);
        st.paths
    }
}

/// What one wait on the watcher channel gave the daemon.
pub enum WatchReceipt {
    /// An event naming these paths.
    Event(Vec<String>),
    /// The watcher backend reported an error; the periodic re-walk covers
    /// whatever it missed.
    BackendError,
    /// The debounce window passed with nothing received.
    Quiet,
    /// The watcher is gone.
    Disconnected,
}

/// What the daemon does after a wait.
#[derive(Debug, Clone, Copy, PartialEq, Eq, Structural)]
pub enum DaemonAction {
    /// Wait again: the batch is still filling.
    Wait,
    /// Apply the pending batch now, then check the roots if a check is due.
    Flush,
    /// Shut down.
    Stop,
}

/// The daemon's decision after one wait: an event's paths join the pending
/// batch, which is applied once it is full; a quiet window applies it too; a
/// backend error changes nothing; a closed channel stops the daemon.
pub fn after_receipt(pending: &mut PendingEvents, receipt: WatchReceipt) -> (r: DaemonAction)
    ensures
        match receipt {
            WatchReceipt::Event(paths) => {
                &&& final(pending).spec_components() == old(pending).spec_components().union(components_of(strings_view(paths@)))
                &&& forall|i: int| 0 <= i < final(pending).spec_paths().len() ==>
                    old(pending).spec_paths().contains(#[trigger] final(pending).spec_paths()[i])
                    || strings_view(paths@).contains(final(pending).spec_paths()[i])
                &&& forall|q: Seq<char>| old(pending).spec_paths().contains(q) ==> #[trigger] final(pending).spec_paths().contains(q)
                &&& forall|i: int| 0 <= i < final(pending).spec_paths().len() && !old(pending).spec_paths().contains(#[trigger] final(pending).spec_paths()[i])
                    ==> first_new_spelling(strings_view(paths@), strings_view(paths@).len() as int, old(pending).spec_components(), final(pending).spec_paths()[i])
                &&& forall|i: int, j: int| 0 <= i < j < final(pending).spec_paths().len() ==>
                    path_components(#[trigger] final(pending).spec_paths()[i]) != path_components(#[trigger] final(pending).spec_paths()[j])
                &&& r == (if final(pending).spec_paths().len() >= MAX_PENDING_EVENTS { DaemonAction::Flush } else { DaemonAction::Wait })
            },
            WatchReceipt::BackendError => r == DaemonAction::Wait && final(pending).spec_paths() == old(pending).spec_paths(),
            WatchReceipt::Quiet => r == DaemonAction::Flush && final(pending).spec_paths() == old(pending).spec_paths(),
            WatchReceipt::Disconnected => r == DaemonAction::Stop && final(pending).spec_paths() == old(pending).spec_paths(),
        },
{
    match receipt {
        WatchReceipt::Event(paths) => if pending.absorb(paths) {
            DaemonAction::Flush
        } else {
            DaemonAction::Wait
        },
        WatchReceipt::BackendError => DaemonAction::Wait,
        WatchReceipt::Quiet => DaemonAction::Flush,
        WatchReceipt::Disconnected => DaemonAction::Stop,
    }
}

/// Whether the roots are due a staleness check, `elapsed_secs` whole seconds
/// after the last one.
pub fn gate_check_due(elapsed_secs: u64) -> (r: bool)
    ensures
        r == (elapsed_secs >= GATE_CHECK_INTERVAL_SECS),
{
    elapsed_secs >= GATE_CHECK_INTERVAL_SECS
}

/// A watcher event changes the store only for a path that lies under the
/// deepest root containing it, one to that root's own `max_depth` levels
/// down, through normal components none of which the ignore set skips: a
/// directory there is upserted, a vanished path removed, and a path that is
/// there but is no directory skipped. Everything else is skipped.
pub proof fn lemma_event_outcome_within_root(roots: Seq<IndexerRoot>, ignore: IgnoreSet, path: Seq<char>, kind: PathKind)
    ensures
        ({
            let placed = spec_deepest_root(roots, path) matches Some(i) && {
                let rc = path_components(roots[i].path@);
                let pc = path_components(path);
                &&& 0 <= i < roots.len()
                &&& rc.is_prefix_of(pc)
                &&& 1 <= pc.len() - rc.len() <= roots[i].max_depth
                &&& forall|k: int| rc.len() <= k < pc.len() ==> (#[trigger] pc[k]) is Normal && !ignore.spec_skips(pc[k]->0)
            };
            &&& spec_event_outcome(roots, ignore, path, kind) == EventOutcome::Upserted <==> placed && kind is Dir
            &&& spec_event_outcome(roots, ignore, path, kind) == EventOutcome::Removed <==> placed && kind is Missing
        }),
{
    lemma_deepest_root_is_deepest(roots, path);
}

/// A root is never admissible under itself: only what lies below it, at
/// least one level down, is indexed.
pub proof fn lemma_root_not_admissible(root: Seq<char>, max_depth: nat, ignore: IgnoreSet)
    ensures
        !spec_admissible(root, max_depth, ignore, root),
{
}

/// The root an event is routed to contains the path, and no other root
/// containing it is spelled longer.
pub proof fn lemma_deepest_root_is_deepest(roots: Seq<IndexerRoot>, path: Seq<char>)
    ensures
        spec_deepest_root(roots, path) matches Some(i) ==> {
            &&& 0 <= i < roots.len()
            &&& path_starts_with(path, roots[i].path@)
            &&& forall|j: int| 0 <= j < roots.len() && path_starts_with(path, #[trigger] roots[j].path@)
                ==> byte_len(roots[j].path@) <= byte_len(roots[i].path@)
        },
        spec_deepest_root(roots, path) is None ==> forall|j: int| 0 <= j < roots.len() ==> !path_starts_with(path, #[trigger] roots[j].path@),
    decreases roots.len(),
{
    if roots.len() > 0 {
        let init = roots.drop_last();
        let n = roots.len() - 1;
        lemma_deepest_root_is_deepest(init, path);
        lemma_deepest_root_bound(init, path);
        let best = spec_deepest_root(init, path);
        let res = spec_deepest_root(roots, path);
        assert forall|j: int| 0 <= j < init.len() implies #[trigger] init[j] == roots[j] by {}
        match res {
            Some(i) => {
                assert forall|j: int| 0 <= j < roots.len() && path_starts_with(path, #[trigger] roots[j].path@)
                    implies byte_len(roots[j].path@) <= byte_len(roots[i].path@) by {
                    if j < n {
                        assert(path_starts_with(path, init[j].path@));
                        match best {
                            Some(b) => {
                                assert(byte_len(init[j].path@) <= byte_len(init[b].path@));
                            },
                            None => {},
                        }
                    }
                }
            },
            None => {
                assert forall|j: int| 0 <= j < roots.len() implies !path_starts_with(path, #[trigger] roots[j].path@) by {
                    if j < n {
                        assert(!path_starts_with(path, init[j].path@));
                    }
                }
            },
        }
    }
}

/// Right after a root is walked at `t`, it is not due again while the
/// re-walk bound has not elapsed and its modification time is no later than
/// `t`; a root never walked is always due.
pub proof fn lemma_gate_fresh_after_walk(last: Option<Timestamp>, interval: Span, now: Timestamp, mtime: Option<Timestamp>)
    ensures
        last is None ==> spec_stale(last, interval, now, mtime),
        last matches Some(t) && instant_nanos(t) <= instant_nanos(now)
            && instant_nanos(now) - instant_nanos(t) < span_nanos(interval)
            && (mtime matches Some(m) && instant_nanos(m) <= instant_nanos(t))
            ==> !spec_stale(last, interval, now, mtime),
{
}

} // verus!
