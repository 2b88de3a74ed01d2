//! The directory store: real visits (an append-only log per path) and
//! indexer-discovered directories (a set), kept apart so that a discovered
//! directory can never pose as a visited one.

use vstd::prelude::*;
use crate::env::{FrecencyEnvironment, RealEnvironment, Timestamp};
use crate::path::{
    chars_before, chars_lt, components, find_parts_slot, keys_view, lemma_chars_lt_order, lemma_insert_parts_sorted,
    parts_sorted, parts_view, path_components, path_is_same_or_under, same_or_under, Component, Part,
};
use crate::spec::DirEntry;
use crate::text::chars_of;

verus! {

/// A storage failure, described.
#[derive(Debug, Clone, PartialEq, Eq)]
pub struct StoreError {
    /// What went wrong.
    pub message: String,
}

/// The visit log a map of visit logs holds for `p` (empty when `p` was
/// never visited).
pub open spec fn log_of(m: Map<Seq<char>, Seq<Timestamp>>, p: Seq<char>) -> Seq<Timestamp> {
    if m.dom().contains(p) {
        m[p]
    } else {
        Seq::empty()
    }
}

/// The paths of `s` neither equal to nor beneath `path`.
pub open spec fn without_subtree(s: Set<Seq<char>>, path: Seq<char>) -> Set<Seq<char>> {
    s.filter(|p: Seq<char>| !same_or_under(p, path))
}

/// The paths of `s` equal to or beneath `prefix`.
pub open spec fn within_subtree(s: Set<Seq<char>>, prefix: Seq<char>) -> Set<Seq<char>> {
    s.filter(|p: Seq<char>| same_or_under(p, prefix))
}

/// Some visited path has the same components as `p` (is the same path).
pub open spec fn visited_as_path(visits: Map<Seq<char>, Seq<Timestamp>>, p: Seq<char>) -> bool {
    exists|q: Seq<char>| #[trigger] visits.dom().contains(q) && path_components(q) == path_components(p)
}

/// Some entry of `es` has the path `p`.
pub open spec fn lists_path(es: Seq<DirEntry>, p: Seq<char>) -> bool {
    exists|i: int| 0 <= i < es.len() && (#[trigger] es[i]).path@ == p
}

/// `es` is what a store holding these visit logs and discovered paths
/// reads back: each path once; every visited path, with its visits (in some
/// order); discovered paths that were never visited, with no visits,
/// marked discovered-only, every one of them listed unless a visited path
/// is the same path spelled otherwise.
pub open spec fn lists_model(es: Seq<DirEntry>, visits: Map<Seq<char>, Seq<Timestamp>>, disc: Set<Seq<char>>) -> bool {
    &&& forall|i: int, j: int| 0 <= i < j < es.len() ==> (#[trigger] es[i]).path@ != (#[trigger] es[j]).path@
    &&& forall|i: int| 0 <= i < es.len() ==> if (#[trigger] es[i]).discovered_only {
        &&& disc.contains(es[i].path@)
        &&& !visits.dom().contains(es[i].path@)
        &&& es[i].visits@.len() == 0
    } else {
        &&& visits.dom().contains(es[i].path@)
        &&& es[i].visits@.to_multiset() == visits[es[i].path@].to_multiset()
    }
    &&& forall|p: Seq<char>| #[trigger] visits.dom().contains(p) ==> lists_path(es, p)
    &&& forall|p: Seq<char>| #[trigger] disc.contains(p) && !visited_as_path(visits, p) ==> lists_path(es, p)
}

/// What a read gives back of the writes, for any store: a path with a visit
/// log is listed, as visited, with exactly the visits of its log (in some
/// order); a discovered path that no visited path spells is listed as
/// discovered only, with no visits.
pub proof fn lemma_entries_read_back(
    es: Seq<DirEntry>,
    visits: Map<Seq<char>, Seq<Timestamp>>,
    disc: Set<Seq<char>>,
    p: Seq<char>,
)
    requires
        lists_model(es, visits, disc),
    ensures
        visits.dom().contains(p) ==> exists|i: int| 0 <= i < es.len() && (#[trigger] es[i]).path@ == p
            && !es[i].discovered_only && es[i].visits@.to_multiset() == visits[p].to_multiset(),
        disc.contains(p) && !visited_as_path(visits, p) ==> exists|i: int| 0 <= i < es.len()
            && (#[trigger] es[i]).path@ == p && es[i].discovered_only && es[i].visits@.len() == 0,
{
    if visits.dom().contains(p) {
        assert(lists_path(es, p));
        let i = choose|i: int| 0 <= i < es.len() && (#[trigger] es[i]).path@ == p;
        if es[i].discovered_only {
            assert(!visits.dom().contains(es[i].path@));
        }
    }
    if disc.contains(p) && !visited_as_path(visits, p) {
        assert(lists_path(es, p));
        let i = choose|i: int| 0 <= i < es.len() && (#[trigger] es[i]).path@ == p;
        if !es[i].discovered_only {
            assert(visits.dom().contains(p));
            assert(visited_as_path(visits, p));
        }
    }
}

/// Directory-frecency storage: a visit log per visited path, and a set of
/// paths discovered by the indexer, kept apart.
///
/// The contracts below are stated over the store's model (its visit logs
/// and discovered set), for a store that has one, and over whether its
/// operations can fail at all. Every implementation in this library has a
/// model. A write that fails leaves the model as it was. A store
/// implemented outside the verified library cannot define a model: it
/// inherits the defaults below (no model, liable to fail), and the
/// contracts then promise nothing of it.
pub trait DirStore {
    /// The model functions below describe this store.
    closed spec fn modeled(&self) -> bool {
        false
    }

    /// The store's operations never fail (an in-memory store); a store on
    /// disk may fail any of them.
    closed spec fn never_fails(&self) -> bool {
        false
    }

    /// The visit log of every visited path.
    closed spec fn visit_map(&self) -> Map<Seq<char>, Seq<Timestamp>> {
        Map::empty()
    }

    /// The discovered paths.
    closed spec fn discovered_set(&self) -> Set<Seq<char>> {
        Set::empty()
    }

    /// Records a real visit to `path` at the current time: one instant is
    /// appended to `path`'s visit log; the discovered set is untouched.
    fn record(&mut self, path: &str) -> (r: Result<(), StoreError>)
        ensures
            old(self).modeled() ==> (r is Ok ==> exists|t: Timestamp| final(self).visit_map()
                == old(self).visit_map().insert(path@, log_of(old(self).visit_map(), path@).push(t))),
            old(self).modeled() ==> (r is Ok ==> final(self).discovered_set() == old(self).discovered_set()),
            old(self).modeled() ==> (r is Err ==> final(self).visit_map() == old(self).visit_map()
                && final(self).discovered_set() == old(self).discovered_set()),
            old(self).never_fails() ==> r is Ok,
            final(self).never_fails() == old(self).never_fails(),
            final(self).modeled() == old(self).modeled();

    /// Records `path` as discovered by the indexer; idempotent, and never a
    /// visit.
    fn record_discovered(&mut self, path: &str) -> (r: Result<(), StoreError>)
        ensures
            old(self).modeled() ==> (r is Ok ==> final(self).discovered_set() == old(self).discovered_set().insert(path@)),
            old(self).modeled() ==> (r is Ok ==> final(self).visit_map() == old(self).visit_map()),
            old(self).modeled() ==> (r is Err ==> final(self).visit_map() == old(self).visit_map()
                && final(self).discovered_set() == old(self).discovered_set()),
            old(self).never_fails() ==> r is Ok,
            final(self).never_fails() == old(self).never_fails(),
            final(self).modeled() == old(self).modeled();

    /// Every candidate directory with its visit instants: visited paths with
    /// their visits, then discovered paths that were never visited (empty
    /// visits, `discovered_only` set).
    fn entries(&self) -> (r: Result<Vec<DirEntry>, StoreError>)
        ensures
            self.modeled() ==> (r matches Ok(es) ==> lists_model(es@, self.visit_map(), self.discovered_set())),
            self.never_fails() ==> r is Ok;

    /// Every discovered path equal to or beneath `prefix`, each once.
    fn discovered_under(&self, prefix: &str) -> (r: Result<Vec<String>, StoreError>)
        ensures
            self.modeled() ==> (r matches Ok(v) ==> strings_view(v@).no_duplicates()
                && strings_view(v@).to_set() == within_subtree(self.discovered_set(), prefix@)),
            self.never_fails() ==> r is Ok;

    /// Removes `path` and everything beneath it from the discovered set.
    /// Idempotent; never touches visits.
    fn remove_discovered(&mut self, path: &str) -> (r: Result<(), StoreError>)
        ensures
            old(self).modeled() ==> (r is Ok ==> final(self).discovered_set() == without_subtree(old(self).discovered_set(), path@)),
            old(self).modeled() ==> (r is Ok ==> final(self).visit_map() == old(self).visit_map()),
            old(self).modeled() ==> (r is Err ==> final(self).visit_map() == old(self).visit_map()
                && final(self).discovered_set() == old(self).discovered_set()),
            old(self).never_fails() ==> r is Ok,
            final(self).never_fails() == old(self).never_fails(),
            final(self).modeled() == old(self).modeled();
}

/// The character sequences of a list of strings.
pub open spec fn strings_view(v: Seq<String>) -> Seq<Seq<char>> {
    Seq::new(v.len(), |i: int| v[i]@)
}

/// Strictly increasing by byte order (so also free of duplicates).
pub open spec fn strictly_sorted(s: Seq<Seq<char>>) -> bool {
    forall|i: int, j: int| 0 <= i < j < s.len() ==> chars_lt(#[trigger] s[i], #[trigger] s[j])
}

/// The elements of `s` that satisfy `f`, in order.
pub open spec fn filter_seq(s: Seq<Seq<char>>, f: spec_fn(Seq<char>) -> bool) -> Seq<Seq<char>>
    decreases s.len(),
{
    if s.len() == 0 {
        Seq::empty()
    } else {
        let rest = filter_seq(s.drop_last(), f);
        if f(s.last()) {
            rest.push(s.last())
        } else {
            rest
        }
    }
}

/// Where `p` sits in a strictly sorted list: whether it is present, and the
/// index of the first element not below it.
pub open spec fn spec_slot(s: Seq<Seq<char>>, p: Seq<char>, pos: int, found: bool) -> bool {
    &&& 0 <= pos <= s.len()
    &&& forall|k: int| 0 <= k < pos ==> chars_lt(#[trigger] s[k], p)
    &&& found ==> pos < s.len() && s[pos] == p
    &&& !found ==> forall|k: int| pos <= k < s.len() ==> chars_lt(p, #[trigger] s[k])
}

/// Finds where `p` belongs in the strictly sorted `keys` (binary search).
pub(crate) fn find_slot(keys: &Vec<String>, p: &Vec<char>) -> (r: (bool, usize))
    requires
        strictly_sorted(strings_view(keys@)),
    ensures
        spec_slot(strings_view(keys@), p@, r.1 as int, r.0),
{
    let ghost s = strings_view(keys@);
    let mut lo: usize = 0;
    let mut hi: usize = keys.len();
    while lo < hi
        invariant
            lo <= hi <= keys@.len(),
            s == strings_view(keys@),
            strictly_sorted(s),
            forall|m: int| 0 <= m < lo ==> chars_lt(#[trigger] s[m], p@),
            forall|m: int| hi <= m < s.len() ==> !chars_lt(#[trigger] s[m], p@),
        decreases hi - lo,
    {
        let mid = lo + (hi - lo) / 2;
        let kc = chars_of(keys[mid].as_str());
        if chars_before(&kc, p) {
            proof {
                assert forall|m: int| 0 <= m < mid + 1 implies chars_lt(#[trigger] s[m], p@) by {
                    if m < mid {
                        lemma_chars_lt_order(s[m], s[mid as int], p@);
                    }
                }
            }
            lo = mid + 1;
        } else {
            proof {
                assert forall|m: int| mid <= m < s.len() implies !chars_lt(#[trigger] s[m], p@) by {
                    if m > mid && chars_lt(s[m], p@) {
                        lemma_chars_lt_order(s[mid as int], s[m], p@);
                    }
                }
            }
            hi = mid;
        }
    }
    if lo < keys.len() {
        let kc = chars_of(keys[lo].as_str());
        let found = crate::text::chars_eq(kc.as_slice(), p.as_slice());
        proof {
            if !found {
                lemma_chars_lt_order(s[lo as int], p@, s[lo as int]);
                assert forall|m: int| lo <= m < s.len() implies chars_lt(p@, #[trigger] s[m]) by {
                    if m > lo {
                        lemma_chars_lt_order(p@, s[lo as int], s[m]);
                    }
                }
            }
        }
        (found, lo)
    } else {
        (false, lo)
    }
}

/// Inserting at a slot keeps a list strictly sorted.
pub(crate) proof fn lemma_insert_sorted(s: Seq<Seq<char>>, p: Seq<char>, pos: int)
    requires
        strictly_sorted(s),
        spec_slot(s, p, pos, false),
    ensures
        strictly_sorted(s.insert(pos, p)),
{
    let t = s.insert(pos, p);
    assert forall|i: int, j: int| 0 <= i < j < t.len() implies chars_lt(#[trigger] t[i], #[trigger] t[j]) by {
        if j < pos {
        } else if j == pos {
        } else if i == pos {
            assert(t[j] == s[j - 1]);
        } else if i < pos {
            assert(t[j] == s[j - 1]);
            lemma_chars_lt_order(s[i], p, s[j - 1]);
        } else {
            assert(t[i] == s[i - 1] && t[j] == s[j - 1]);
        }
    }
}

/// Strings not in `s`.
pub open spec fn not_in(s: Seq<Seq<char>>) -> spec_fn(Seq<char>) -> bool {
    |p: Seq<char>| !s.contains(p)
}

/// Strings equal to, or beneath, `prefix`.
pub open spec fn under(prefix: Seq<char>) -> spec_fn(Seq<char>) -> bool {
    |p: Seq<char>| same_or_under(p, prefix)
}

/// Strings neither equal to nor beneath `prefix`.
pub open spec fn not_under(prefix: Seq<char>) -> spec_fn(Seq<char>) -> bool {
    |p: Seq<char>| !same_or_under(p, prefix)
}

/// A subsequence of a strictly sorted list is strictly sorted.
proof fn lemma_filter_sorted(s: Seq<Seq<char>>, f: spec_fn(Seq<char>) -> bool)
    requires
        strictly_sorted(s),
    ensures
        strictly_sorted(filter_seq(s, f)),
        forall|i: int| 0 <= i < filter_seq(s, f).len() ==> s.contains(#[trigger] filter_seq(s, f)[i]),
    decreases s.len(),
{
    if s.len() > 0 {
        let r = filter_seq(s.drop_last(), f);
        lemma_filter_sorted(s.drop_last(), f);
        assert forall|i: int| 0 <= i < r.len() implies chars_lt(#[trigger] r[i], s.last()) by {
            let k = choose|k: int| 0 <= k < s.drop_last().len() && s.drop_last()[k] == r[i];
            assert(s[k] == r[i]);
        }
        assert forall|i: int| 0 <= i < filter_seq(s, f).len() implies s.contains(#[trigger] filter_seq(s, f)[i]) by {
            if i < r.len() {
                let k = choose|k: int| 0 <= k < s.drop_last().len() && s.drop_last()[k] == r[i];
                assert(s[k] == r[i]);
            } else {
                assert(s[s.len() - 1] == s.last());
            }
        }
    }
}

/// The strings of `v` that are (`under` set) or are not (`under` clear)
/// equal to or beneath `prefix`, in order.
fn filter_by_prefix(v: &Vec<String>, prefix: &str, under: bool) -> (r: Vec<String>)
    ensures
        strings_view(r@) == filter_seq(strings_view(v@), if under { crate::store::under(prefix@) } else { not_under(prefix@) }),
{
    let ghost s = strings_view(v@);
    let ghost f = if under { crate::store::under(prefix@) } else { not_under(prefix@) };
    let mut out: Vec<String> = Vec::new();
    let mut i: usize = 0;
    assert(s.take(0) =~= Seq::<Seq<char>>::empty());
    while i < v.len()
        invariant
            i <= v@.len(),
            s == strings_view(v@),
            f == (if under { crate::store::under(prefix@) } else { not_under(prefix@) }),
            strings_view(out@) == filter_seq(s.take(i as int), f),
        decreases v@.len() - i,
    {
        assert(s.take(i + 1).drop_last() =~= s.take(i as int));
        assert(s.take(i + 1).last() == s[i as int]);
        let hit = path_is_same_or_under(v[i].as_str(), prefix);
        let ghost before = out@;
        if hit == under {
            out.push(v[i].clone());
            assert(strings_view(out@) =~= strings_view(before).push(s[i as int]));
        }
        i = i + 1;
    }
    assert(s.take(s.len() as int) =~= s);
    out
}

/// The visits recorded for `p` in a list of distinct paths and their
/// parallel visit logs (empty when `p` is absent).
pub open spec fn visits_of(paths: Seq<Seq<char>>, times: Seq<Seq<Timestamp>>, p: Seq<char>) -> Seq<Timestamp> {
    if paths.contains(p) {
        times[choose|i: int| 0 <= i < paths.len() && paths[i] == p]
    } else {
        Seq::empty()
    }
}

/// In a strictly sorted list, `p` occurs at most once.
proof fn lemma_sorted_unique(s: Seq<Seq<char>>, i: int, j: int)
    requires
        strictly_sorted(s),
        0 <= i < s.len(),
        0 <= j < s.len(),
        s[i] == s[j],
    ensures
        i == j,
{
    if i < j {
        lemma_chars_lt_order(s[i], s[i], s[i]);
    } else if j < i {
        lemma_chars_lt_order(s[j], s[j], s[j]);
    }
}

/// The log of the path at index `i` is the one `visits_of` reports.
proof fn lemma_visits_of_at(paths: Seq<Seq<char>>, times: Seq<Seq<Timestamp>>, i: int)
    requires
        strictly_sorted(paths),
        0 <= i < paths.len(),
    ensures
        visits_of(paths, times, paths[i]) == times[i],
{
    let j = choose|j: int| 0 <= j < paths.len() && paths[j] == paths[i];
    lemma_sorted_unique(paths, i, j);
}

/// A filtered list holds exactly the listed strings that pass the filter.
proof fn lemma_filter_seq_set(s: Seq<Seq<char>>, f: spec_fn(Seq<char>) -> bool)
    ensures
        filter_seq(s, f).to_set() == s.to_set().filter(f),
    decreases s.len(),
{
    if s.len() > 0 {
        lemma_filter_seq_set(s.drop_last(), f);
        let r = filter_seq(s.drop_last(), f);
        assert(s =~= s.drop_last().push(s.last()));
        assert forall|x: Seq<char>| filter_seq(s, f).to_set().contains(x) <==> s.to_set().filter(f).contains(x) by {
            if filter_seq(s, f).contains(x) {
                let i = choose|i: int| 0 <= i < filter_seq(s, f).len() && filter_seq(s, f)[i] == x;
                if i < r.len() {
                    assert(r.contains(x));
                    assert(r.to_set().contains(x));
                    let j = choose|j: int| 0 <= j < s.drop_last().len() && s.drop_last()[j] == x;
                    assert(s[j] == x);
                } else {
                    assert(s[s.len() - 1] == x);
                }
            }
            if s.contains(x) && f(x) {
                let j = choose|j: int| 0 <= j < s.len() && s[j] == x;
                if j < s.len() - 1 {
                    assert(s.drop_last()[j] == x);
                    assert(s.drop_last().to_set().filter(f).contains(x));
                    assert(r.to_set().contains(x));
                    let i = choose|i: int| 0 <= i < r.len() && r[i] == x;
                    assert(filter_seq(s, f)[i] == x);
                } else {
                    assert(filter_seq(s, f).last() == x);
                    assert(filter_seq(s, f)[filter_seq(s, f).len() - 1] == x);
                }
            }
        }
        assert(filter_seq(s, f).to_set() =~= s.to_set().filter(f));
    } else {
        assert(filter_seq(s, f).to_set() =~= s.to_set().filter(f));
    }
}

/// A strictly sorted list has no duplicates.
proof fn lemma_sorted_no_duplicates(s: Seq<Seq<char>>)
    requires
        strictly_sorted(s),
    ensures
        s.no_duplicates(),
{
    assert forall|i: int, j: int| 0 <= i < s.len() && 0 <= j < s.len() && i != j implies s[i] != s[j] by {
        if s[i] == s[j] {
            lemma_sorted_unique(s, i, j);
        }
    }
}

/// In-memory [`DirStore`]: visits accumulate per path, discovered paths are
/// a separate set. Both are kept in byte order of their paths, which is the
/// order [`DirStore::entries`] reports them in.
pub struct MemDirStore {
    visit_paths: Vec<String>,
    visit_times: Vec<Vec<Timestamp>>,
    discovered: Vec<String>,
}

impl MemDirStore {
    #[verifier::type_invariant]
    spec fn well_formed(&self) -> bool {
        &&& self.visit_paths@.len() == self.visit_times@.len()
        &&& strictly_sorted(strings_view(self.visit_paths@))
        &&& strictly_sorted(strings_view(self.discovered@))
    }

    /// The visited paths, in byte order.
    pub closed spec fn visited_paths(&self) -> Seq<Seq<char>> {
        strings_view(self.visit_paths@)
    }

    /// Each visited path's visit log, parallel to [`Self::visited_paths`].
    pub closed spec fn visit_logs(&self) -> Seq<Seq<Timestamp>> {
        Seq::new(self.visit_times@.len(), |i: int| self.visit_times@[i]@)
    }

    /// The discovered paths, in byte order.
    pub closed spec fn discovered_paths(&self) -> Seq<Seq<char>> {
        strings_view(self.discovered@)
    }

    /// The visits recorded for `p`.
    pub open spec fn visits_for(&self, p: Seq<char>) -> Seq<Timestamp> {
        visits_of(self.visited_paths(), self.visit_logs(), p)
    }

    /// A fresh, empty store.
    pub fn new() -> (r: Self)
        ensures
            r.visited_paths().len() == 0,
            r.discovered_paths().len() == 0,
    {
        let r = MemDirStore { visit_paths: Vec::new(), visit_times: Vec::new(), discovered: Vec::new() };
        assert(strings_view(r.visit_paths@) =~= Seq::<Seq<char>>::empty());
        assert(strings_view(r.discovered@) =~= Seq::<Seq<char>>::empty());
        r
    }

    /// Records a visit to `path` at `at`: `at` is appended to `path`'s visit
    /// log, which starts empty for a path not yet visited.
    pub fn record_at(&mut self, path: &str, at: Timestamp)
        ensures
            forall|q: Seq<char>| #[trigger] final(self).visited_paths().contains(q) <==> (old(self).visited_paths().contains(q) || q == path@),
            forall|q: Seq<char>| #[trigger] final(self).visits_for(q) == if q == path@ {
                old(self).visits_for(q).push(at)
            } else {
                old(self).visits_for(q)
            },
            final(self).discovered_paths() == old(self).discovered_paths(),
    {
        let mut st = MemDirStore::new();
        std::mem::swap(&mut st, self);
        proof { use_type_invariant(&st); }
        let MemDirStore { visit_paths: mut paths_v, visit_times: mut times, discovered } = st;
        let p = chars_of(path);
        let (found, pos) = find_slot(&paths_v, &p);
        let ghost paths = strings_view(paths_v@);
        let ghost logs = Seq::new(times@.len(), |i: int| times@[i]@);
        if found {
            let mut t = times[pos].clone();
            assert(t@ =~= logs[pos as int]);
            t.push(at);
            let ghost t_view = t@;
            times.set(pos, t);
            proof {
                let logs2 = Seq::new(times@.len(), |i: int| times@[i]@);
                assert(logs2 =~= logs.update(pos as int, t_view));
                assert forall|q: Seq<char>| #[trigger] visits_of(paths, logs2, q) == if q == path@ {
                    visits_of(paths, logs, q).push(at)
                } else {
                    visits_of(paths, logs, q)
                } by {
                    if paths.contains(q) {
                        let i = choose|i: int| 0 <= i < paths.len() && paths[i] == q;
                        lemma_visits_of_at(paths, logs, i);
                        lemma_visits_of_at(paths, logs2, i);
                        if q == path@ {
                            lemma_sorted_unique(paths, i, pos as int);
                        }
                    } else {
                        assert(paths[pos as int] == path@);
                    }
                }
            }
        } else {
            let owned = path.to_owned();
            paths_v.insert(pos, owned);
            let mut fresh: Vec<Timestamp> = Vec::new();
            fresh.push(at);
            let ghost fresh_view = fresh@;
            times.insert(pos, fresh);
            proof {
                let paths2 = strings_view(paths_v@);
                let logs2 = Seq::new(times@.len(), |i: int| times@[i]@);
                assert(paths2 =~= paths.insert(pos as int, path@));
                assert(logs2 =~= logs.insert(pos as int, fresh_view));
                lemma_insert_sorted(paths, path@, pos as int);
                assert(!paths.contains(path@)) by {
                    if paths.contains(path@) {
                        let i = choose|i: int| 0 <= i < paths.len() && paths[i] == path@;
                        lemma_chars_lt_order(path@, path@, path@);
                    }
                }
                assert forall|q: Seq<char>| #[trigger] paths2.contains(q) <==> (paths.contains(q) || q == path@) by {
                    if paths.contains(q) {
                        let i = choose|i: int| 0 <= i < paths.len() && paths[i] == q;
                        if i < pos {
                            assert(paths2[i] == q);
                        } else {
                            assert(paths2[i + 1] == q);
                        }
                    }
                    if q == path@ {
                        assert(paths2[pos as int] == q);
                    }
                    if paths2.contains(q) {
                        let i = choose|i: int| 0 <= i < paths2.len() && paths2[i] == q;
                        if i < pos {
                            assert(paths[i] == q);
                        } else if i > pos {
                            assert(paths[i - 1] == q);
                        }
                    }
                }
                assert forall|q: Seq<char>| #[trigger] visits_of(paths2, logs2, q) == if q == path@ {
                    visits_of(paths, logs, q).push(at)
                } else {
                    visits_of(paths, logs, q)
                } by {
                    if q == path@ {
                        lemma_visits_of_at(paths2, logs2, pos as int);
                        assert(visits_of(paths, logs, q) =~= Seq::<Timestamp>::empty());
                        assert(fresh_view =~= Seq::<Timestamp>::empty().push(at));
                    } else if paths.contains(q) {
                        let i = choose|i: int| 0 <= i < paths.len() && paths[i] == q;
                        lemma_visits_of_at(paths, logs, i);
                        if i < pos {
                            lemma_visits_of_at(paths2, logs2, i);
                        } else {
                            lemma_visits_of_at(paths2, logs2, i + 1);
                        }
                    } else {
                        assert(!paths2.contains(q));
                    }
                }
            }
        }
        *self = MemDirStore { visit_paths: paths_v, visit_times: times, discovered };
    }

    /// The visited entries followed by the discovered-only ones (see
    /// [`DirStore::entries`]).
    fn build_entries(&self) -> (r: Vec<DirEntry>)
        ensures
            r@.len() >= self.visited_paths().len(),
            forall|i: int| 0 <= i < self.visited_paths().len() ==> {
                &&& (#[trigger] r@[i]).path@ == self.visited_paths()[i]
                &&& r@[i].visits@ == self.visit_logs()[i]
                &&& !r@[i].discovered_only
            },
            Seq::new((r@.len() - self.visited_paths().len()) as nat, |j: int| r@[self.visited_paths().len() + j].path@)
                == filter_seq(self.discovered_paths(), not_in(self.visited_paths())),
            forall|j: int| self.visited_paths().len() <= j < r@.len() ==> (#[trigger] r@[j]).visits@.len() == 0
                && r@[j].discovered_only,
    {
        proof { use_type_invariant(self); }
        let n = self.visit_paths.len();
        let mut out: Vec<DirEntry> = Vec::new();
        let mut i: usize = 0;
        while i < n
            invariant
                n == self.visit_paths@.len(),
                n == self.visit_times@.len(),
                i <= n,
                out@.len() == i,
                forall|k: int| 0 <= k < i ==> {
                    &&& (#[trigger] out@[k]).path@ == self.visited_paths()[k]
                    &&& out@[k].visits@ == self.visit_logs()[k]
                    &&& !out@[k].discovered_only
                },
            decreases n - i,
        {
            let visits = self.visit_times[i].clone();
            assert(visits@ =~= self.visit_logs()[i as int]);
            out.push(DirEntry { path: self.visit_paths[i].clone(), visits, discovered_only: false });
            i = i + 1;
        }
        let ghost disc = self.discovered_paths();
        let ghost pred = not_in(self.visited_paths());
        let mut d: usize = 0;
        assert(disc.take(0) =~= Seq::<Seq<char>>::empty());
        while d < self.discovered.len()
            invariant
                n == self.visit_paths@.len(),
                n == self.visit_times@.len(),
                strictly_sorted(strings_view(self.visit_paths@)),
                disc == strings_view(self.discovered@),
                pred == not_in(self.visited_paths()),
                d <= disc.len(),
                out@.len() >= n,
                forall|k: int| 0 <= k < n ==> {
                    &&& (#[trigger] out@[k]).path@ == self.visited_paths()[k]
                    &&& out@[k].visits@ == self.visit_logs()[k]
                    &&& !out@[k].discovered_only
                },
                Seq::new((out@.len() - n) as nat, |j: int| out@[n + j].path@) == filter_seq(disc.take(d as int), pred),
                forall|j: int| n <= j < out@.len() ==> (#[trigger] out@[j]).visits@.len() == 0 && out@[j].discovered_only,
            decreases disc.len() - d,
        {
            assert(disc.take(d + 1).drop_last() =~= disc.take(d as int));
            assert(disc.take(d + 1).last() == disc[d as int]);
            let dc = chars_of(self.discovered[d].as_str());
            let (visited, _) = find_slot(&self.visit_paths, &dc);
            let ghost before = out@;
            assert(visited == self.visited_paths().contains(disc[d as int])) by {
                if self.visited_paths().contains(disc[d as int]) && !visited {
                    let k = choose|k: int| 0 <= k < self.visited_paths().len() && self.visited_paths()[k] == disc[d as int];
                    lemma_chars_lt_order(disc[d as int], disc[d as int], disc[d as int]);
                }
            }
            if !visited {
                out.push(DirEntry { path: self.discovered[d].clone(), visits: Vec::new(), discovered_only: true });
                assert(Seq::new((out@.len() - n) as nat, |j: int| out@[n + j].path@)
                    =~= Seq::new((before.len() - n) as nat, |j: int| before[n + j].path@).push(disc[d as int]));
            } else {
                assert(Seq::new((out@.len() - n) as nat, |j: int| out@[n + j].path@)
                    =~= Seq::new((before.len() - n) as nat, |j: int| before[n + j].path@));
            }
            d = d + 1;
        }
        assert(disc.take(disc.len() as int) =~= disc);
        out
    }

    /// Adds `path` to the discovered set (no change when already there).
    fn insert_discovered(&mut self, path: &str)
        ensures
            forall|q: Seq<char>| #[trigger] final(self).discovered_paths().contains(q) <==> (old(self).discovered_paths().contains(q) || q == path@),
            final(self).visited_paths() == old(self).visited_paths(),
            final(self).visit_logs() == old(self).visit_logs(),
    {
        let mut st = MemDirStore::new();
        std::mem::swap(&mut st, self);
        proof { use_type_invariant(&st); }
        let MemDirStore { visit_paths, visit_times, discovered: mut disc } = st;
        let p = chars_of(path);
        let (found, pos) = find_slot(&disc, &p);
        let ghost ds = strings_view(disc@);
        if !found {
            disc.insert(pos, path.to_owned());
            proof {
                let ds2 = strings_view(disc@);
                assert(ds2 =~= ds.insert(pos as int, path@));
                lemma_insert_sorted(ds, path@, pos as int);
                assert forall|q: Seq<char>| #[trigger] ds2.contains(q) <==> (ds.contains(q) || q == path@) by {
                    if ds.contains(q) {
                        let i = choose|i: int| 0 <= i < ds.len() && ds[i] == q;
                        if i < pos {
                            assert(ds2[i] == q);
                        } else {
                            assert(ds2[i + 1] == q);
                        }
                    }
                    if q == path@ {
                        assert(ds2[pos as int] == q);
                    }
                    if ds2.contains(q) {
                        let i = choose|i: int| 0 <= i < ds2.len() && ds2[i] == q;
                        if i < pos {
                            assert(ds[i] == q);
                        } else if i > pos {
                            assert(ds[i - 1] == q);
                        }
                    }
                }
            }
        } else {
            assert(ds[pos as int] == path@);
        }
        *self = MemDirStore { visit_paths, visit_times, discovered: disc };
    }
}


impl MemDirStore {
    /// What [`MemDirStore::entries`] lists is the store's model read back.
    proof fn lemma_entries_list_model(&self, es: Seq<DirEntry>)
        requires
            strictly_sorted(self.visited_paths()),
            strictly_sorted(self.discovered_paths()),
            es.len() >= self.visited_paths().len(),
            forall|i: int| 0 <= i < self.visited_paths().len() ==> {
                &&& (#[trigger] es[i]).path@ == self.visited_paths()[i]
                &&& es[i].visits@ == self.visits_for(es[i].path@)
                &&& !es[i].discovered_only
            },
            Seq::new((es.len() - self.visited_paths().len()) as nat, |j: int| es[self.visited_paths().len() + j].path@)
                == filter_seq(self.discovered_paths(), not_in(self.visited_paths())),
            forall|j: int| self.visited_paths().len() <= j < es.len() ==> (#[trigger] es[j]).visits@.len() == 0
                && es[j].discovered_only,
        ensures
            lists_model(es, self.visit_map(), self.discovered_set()),
    {
        let vp = self.visited_paths();
        let n = vp.len() as int;
        let dp = self.discovered_paths();
        let f = filter_seq(dp, not_in(vp));
        let tail = Seq::new((es.len() - n) as nat, |j: int| es[n + j].path@);
        let vm = self.visit_map();
        lemma_filter_sorted(dp, not_in(vp));
        lemma_filter_seq_set(dp, not_in(vp));
        lemma_sorted_no_duplicates(vp);
        lemma_sorted_no_duplicates(f);
        assert forall|j: int| n <= j < es.len() implies f.contains(#[trigger] es[j].path@) by {
            assert(tail[j - n] == es[j].path@);
            assert(f[j - n] == es[j].path@);
        }
        assert forall|j: int| n <= j < es.len() implies dp.contains(#[trigger] es[j].path@) && !vp.contains(es[j].path@) by {
            assert(f.contains(es[j].path@));
            assert(f.to_set().contains(es[j].path@));
            assert(dp.to_set().filter(not_in(vp)).contains(es[j].path@));
        }
        assert forall|i: int, j: int| 0 <= i < j < es.len() implies (#[trigger] es[i]).path@ != (#[trigger] es[j]).path@ by {
            if j < n {
                assert(vp[i] != vp[j]);
            } else if i < n {
                assert(vp.contains(es[i].path@));
            } else {
                assert(tail[i - n] == es[i].path@);
                assert(tail[j - n] == es[j].path@);
                assert(f[i - n] != f[j - n]);
            }
        }
        assert forall|i: int| 0 <= i < es.len() implies if (#[trigger] es[i]).discovered_only {
            &&& self.discovered_set().contains(es[i].path@)
            &&& !vm.dom().contains(es[i].path@)
            &&& es[i].visits@.len() == 0
        } else {
            &&& vm.dom().contains(es[i].path@)
            &&& es[i].visits@.to_multiset() == vm[es[i].path@].to_multiset()
        } by {
            if i < n {
                assert(vp.contains(es[i].path@));
            } else {
                assert(dp.contains(es[i].path@));
            }
        }
        assert forall|p: Seq<char>| #[trigger] vm.dom().contains(p) implies lists_path(es, p) by {
            let k = choose|k: int| 0 <= k < vp.len() && vp[k] == p;
            assert(es[k].path@ == p);
        }
        assert forall|p: Seq<char>| #[trigger] self.discovered_set().contains(p) && !visited_as_path(vm, p) implies lists_path(es, p) by {
            if vm.dom().contains(p) {
                assert(visited_as_path(vm, p));
            }
            assert(dp.to_set().filter(not_in(vp)).contains(p));
            assert(f.to_set().contains(p));
            let k = choose|k: int| 0 <= k < f.len() && f[k] == p;
            assert(tail[k] == f[k]);
            assert(es[n + k].path@ == p);
        }
    }
}

/// The entries `es` list every visited path of `s` first, each with the
/// visit log `s` holds for it.
pub open spec fn lists_visits(s: MemDirStore, es: Seq<DirEntry>) -> bool {
    &&& es.len() >= s.visited_paths().len()
    &&& forall|i: int| 0 <= i < s.visited_paths().len() ==> {
        &&& (#[trigger] es[i]).path@ == s.visited_paths()[i]
        &&& es[i].visits@ == s.visits_for(es[i].path@)
        &&& !es[i].discovered_only
    }
}

/// What a write gives back on a read: a path with a recorded visit is
/// listed by the store's entries, as visited, with exactly its visit log.
pub proof fn lemma_recorded_visit_is_listed(s: MemDirStore, es: Seq<DirEntry>, p: Seq<char>)
    requires
        lists_visits(s, es),
        s.visits_for(p).len() > 0,
    ensures
        exists|i: int| 0 <= i < es.len() && (#[trigger] es[i]).path@ == p && es[i].visits@ == s.visits_for(p)
            && !es[i].discovered_only,
{
    assert(s.visited_paths().contains(p));
    let i = choose|i: int| 0 <= i < s.visited_paths().len() && s.visited_paths()[i] == p;
    assert(es[i].path@ == p);
}

impl DirStore for MemDirStore {
    open spec fn modeled(&self) -> bool {
        true
    }

    open spec fn never_fails(&self) -> bool {
        true
    }

    open spec fn visit_map(&self) -> Map<Seq<char>, Seq<Timestamp>> {
        Map::new(|p: Seq<char>| self.visited_paths().contains(p), |p: Seq<char>| self.visits_for(p))
    }

    open spec fn discovered_set(&self) -> Set<Seq<char>> {
        self.discovered_paths().to_set()
    }

    /// Records a visit at the wall-clock time.
    fn record(&mut self, path: &str) -> (r: Result<(), StoreError>)
        ensures
            r is Ok,
            forall|q: Seq<char>| #[trigger] final(self).visited_paths().contains(q) <==> (old(self).visited_paths().contains(q) || q == path@),
            exists|t: Timestamp| final(self).visits_for(path@) == old(self).visits_for(path@).push(t),
            forall|q: Seq<char>| q != path@ ==> #[trigger] final(self).visits_for(q) == old(self).visits_for(q),
            final(self).discovered_paths() == old(self).discovered_paths(),
    {
        let now = RealEnvironment.now();
        self.record_at(path, now);
        assert(self.visits_for(path@) == old(self).visits_for(path@).push(now));
        proof {
            let om = old(self).visit_map();
            assert(log_of(om, path@) == old(self).visits_for(path@)) by {
                if !old(self).visited_paths().contains(path@) {
                    assert(old(self).visits_for(path@) == Seq::<Timestamp>::empty());
                }
            }
            assert(self.visit_map() =~= om.insert(path@, log_of(om, path@).push(now)));
        }
        Ok(())
    }

    fn record_discovered(&mut self, path: &str) -> (r: Result<(), StoreError>)
        ensures
            r is Ok,
            forall|q: Seq<char>| #[trigger] final(self).discovered_paths().contains(q) <==> (old(self).discovered_paths().contains(q) || q == path@),
            final(self).visited_paths() == old(self).visited_paths(),
            final(self).visit_logs() == old(self).visit_logs(),
    {
        self.insert_discovered(path);
        assert(self.discovered_set() =~= old(self).discovered_set().insert(path@));
        assert(self.visit_map() =~= old(self).visit_map());
        Ok(())
    }

    fn entries(&self) -> (r: Result<Vec<DirEntry>, StoreError>)
        ensures
            r matches Ok(es) && {
                &&& es@.len() >= self.visited_paths().len()
                &&& forall|i: int| 0 <= i < self.visited_paths().len() ==> {
                    &&& (#[trigger] es@[i]).path@ == self.visited_paths()[i]
                    &&& es@[i].visits@ == self.visit_logs()[i]
                    &&& !es@[i].discovered_only
                }
                &&& Seq::new((es@.len() - self.visited_paths().len()) as nat, |j: int| es@[self.visited_paths().len() + j].path@)
                    == filter_seq(self.discovered_paths(), not_in(self.visited_paths()))
                &&& forall|j: int| self.visited_paths().len() <= j < es@.len() ==> (#[trigger] es@[j]).visits@.len() == 0
                    && es@[j].discovered_only
                &&& lists_visits(*self, es@)
            },
    {
        let es = self.build_entries();
        proof {
            use_type_invariant(self);
            assert forall|i: int| 0 <= i < self.visited_paths().len() implies (#[trigger] es@[i]).visits@ == self.visits_for(es@[i].path@) by {
                lemma_visits_of_at(self.visited_paths(), self.visit_logs(), i);
            }
            self.lemma_entries_list_model(es@);
        }
        Ok(es)
    }

    fn discovered_under(&self, prefix: &str) -> (r: Result<Vec<String>, StoreError>)
        ensures
            r matches Ok(v) && strings_view(v@) == filter_seq(self.discovered_paths(), under(prefix@)),
    {
        proof {
            use_type_invariant(self);
            lemma_filter_sorted(self.discovered_paths(), under(prefix@));
            lemma_sorted_no_duplicates(filter_seq(self.discovered_paths(), under(prefix@)));
            lemma_filter_seq_set(self.discovered_paths(), under(prefix@));
            assert(self.discovered_set().filter(under(prefix@)) =~= within_subtree(self.discovered_set(), prefix@));
        }
        Ok(filter_by_prefix(&self.discovered, prefix, true))
    }

    fn remove_discovered(&mut self, path: &str) -> (r: Result<(), StoreError>)
        ensures
            r is Ok,
            final(self).discovered_paths() == filter_seq(old(self).discovered_paths(), not_under(path@)),
            final(self).visited_paths() == old(self).visited_paths(),
            final(self).visit_logs() == old(self).visit_logs(),
    {
        let mut st = MemDirStore::new();
        std::mem::swap(&mut st, self);
        proof { use_type_invariant(&st); }
        let MemDirStore { visit_paths, visit_times, discovered } = st;
        let kept = filter_by_prefix(&discovered, path, false);
        proof { lemma_filter_sorted(strings_view(discovered@), not_under(path@)); }
        *self = MemDirStore { visit_paths, visit_times, discovered: kept };
        proof {
            lemma_filter_seq_set(old(self).discovered_paths(), not_under(path@));
            assert(old(self).discovered_set().filter(not_under(path@)) =~= without_subtree(old(self).discovered_set(), path@));
            assert(self.visit_map() =~= old(self).visit_map());
        }
        Ok(())
    }
}

/// The seconds chrono's `DateTime::from_timestamp(secs, 0)` accepts: those
/// that fall on a day of the years -262143 through 262142, from the first
/// second of January 1 of the first to the last second of December 31 of the
/// second.
pub open spec fn chrono_accepts_unix_secs(secs: i64) -> bool {
    -8_334_601_228_800 <= secs <= 8_210_266_876_799
}

/// The instant `secs` whole seconds after the epoch, read with chrono's
/// `DateTime::from_timestamp(secs, 0)`.
///
/// chrono returns `None` exactly for seconds outside the range of
/// [`chrono_accepts_unix_secs`], and an accepted instant round-trips to the
/// same seconds with no sub-second part, as chrono documents.
#[verifier::external_body]
fn instant_from_unix_secs(secs: i64) -> (r: Option<Timestamp>)
    ensures
        r is Some <==> chrono_accepts_unix_secs(secs),
        r matches Some(t) ==> t.secs == secs && t.nanos == 0,
{
    match chrono::DateTime::from_timestamp(secs, 0) {
        Some(dt) => Some(Timestamp { secs: dt.timestamp(), nanos: dt.timestamp_subsec_nanos() }),
        None => None,
    }
}

/// The visit log that stored visit rows give `p`: the instants of the rows
/// naming `p` whose seconds chrono accepts, in row order.
pub open spec fn row_log(rows: Seq<(String, i64)>, p: Seq<char>) -> Seq<Timestamp>
    decreases rows.len(),
{
    if rows.len() == 0 {
        Seq::empty()
    } else {
        let rest = row_log(rows.drop_last(), p);
        let row = rows.last();
        if row.0@ == p && chrono_accepts_unix_secs(row.1) {
            rest.push(Timestamp { secs: row.1, nanos: 0 })
        } else {
            rest
        }
    }
}

/// The component lists of a list of paths, as a set.
pub open spec fn components_of(paths: Seq<Seq<char>>) -> Set<Seq<Component>> {
    Set::new(|c: Seq<Component>| exists|i: int| 0 <= i < paths.len() && path_components(paths[i]) == c)
}

/// Paths whose components differ from those of every path in `seen`.
pub open spec fn not_seen(seen: Set<Seq<Component>>) -> spec_fn(Seq<char>) -> bool {
    |p: Seq<char>| !seen.contains(path_components(p))
}

/// `es` is what stored rows read as: first every path some visit row
/// names with an accepted instant, once each and in byte order, with its
/// visit log; then every discovered path, in row order, whose components
/// differ from those of every visited path (as paths compare), with no
/// visits.
pub open spec fn spec_rows_entries(visit_rows: Seq<(String, i64)>, discovered_rows: Seq<Seq<char>>, es: Seq<DirEntry>) -> bool {
    exists|n: int| #[trigger] rows_entries_split(visit_rows, discovered_rows, es, n)
}

/// [`spec_rows_entries`] with the first `n` entries the visited ones.
pub open spec fn rows_entries_split(visit_rows: Seq<(String, i64)>, discovered_rows: Seq<Seq<char>>, es: Seq<DirEntry>, n: int) -> bool {
    {
        let visited = Seq::new(n as nat, |i: int| es[i].path@);
        &&& 0 <= n <= es.len()
        &&& strictly_sorted(visited)
        &&& forall|i: int| 0 <= i < n ==> !(#[trigger] es[i]).discovered_only
            && es[i].visits@ == row_log(visit_rows, es[i].path@)
        &&& forall|p: Seq<char>| #[trigger] row_log(visit_rows, p).len() > 0 <==> visited.contains(p)
        &&& forall|j: int| n <= j < es.len() ==> (#[trigger] es[j]).discovered_only && es[j].visits@.len() == 0
        &&& Seq::new((es.len() - n) as nat, |j: int| es[n + j].path@)
            == filter_seq(discovered_rows, not_seen(components_of(visited)))
    }
}

/// The visit logs stored rows hold: each path that some row names with an
/// accepted instant, with its log.
pub open spec fn rows_visit_map(rows: Seq<(String, i64)>) -> Map<Seq<char>, Seq<Timestamp>> {
    Map::new(|p: Seq<char>| row_log(rows, p).len() > 0, |p: Seq<char>| row_log(rows, p))
}

/// Filtering keeps a sequence free of duplicates.
proof fn lemma_filter_no_duplicates(s: Seq<Seq<char>>, f: spec_fn(Seq<char>) -> bool)
    requires
        s.no_duplicates(),
    ensures
        filter_seq(s, f).no_duplicates(),
    decreases s.len(),
{
    if s.len() > 0 {
        let init = s.drop_last();
        assert(init.no_duplicates()) by {
            assert forall|i: int, j: int| 0 <= i < j < init.len() implies init[i] != init[j] by {
                assert(init[i] == s[i] && init[j] == s[j]);
            }
        }
        lemma_filter_no_duplicates(init, f);
        lemma_filter_seq_set(init, f);
        let r = filter_seq(init, f);
        if f(s.last()) {
            assert(!r.contains(s.last())) by {
                if r.contains(s.last()) {
                    assert(r.to_set().contains(s.last()));
                    assert(init.to_set().contains(s.last()));
                    let k = choose|k: int| 0 <= k < init.len() && init[k] == s.last();
                    assert(s[k] == s[s.len() - 1]);
                }
            }
            let q = r.push(s.last());
            assert forall|i: int, j: int| 0 <= i < j < q.len() implies q[i] != q[j] by {
                if j == q.len() - 1 {
                    assert(r[i] == q[i]);
                    assert(r.contains(q[i]));
                }
            }
        }
    }
}

/// What stored rows read back, as for any store: the entries read from
/// visit rows and from discovered rows (a table of distinct paths) list
/// each path once; every path with an accepted visit, with exactly its
/// visits; and every discovered path that no visited path spells, as
/// discovered only and with no visits.
pub proof fn lemma_rows_read_back(rows: Seq<(String, i64)>, disc: Seq<Seq<char>>, es: Seq<DirEntry>)
    requires
        spec_rows_entries(rows, disc, es),
        disc.no_duplicates(),
    ensures
        lists_model(es, rows_visit_map(rows), disc.to_set()),
{
    let n = choose|n: int| #[trigger] rows_entries_split(rows, disc, es, n);
    assert(rows_entries_split(rows, disc, es, n));
    let visited = Seq::new(n as nat, |i: int| es[i].path@);
    let seen = components_of(visited);
    let tail = filter_seq(disc, not_seen(seen));
    let vm = rows_visit_map(rows);
    lemma_filter_no_duplicates(disc, not_seen(seen));
    lemma_filter_seq_set(disc, not_seen(seen));
    assert(Seq::new((es.len() - n) as nat, |j: int| es[n + j].path@) == tail);
    assert forall|k: int| 0 <= k < tail.len() implies #[trigger] es[n + k].path@ == tail[k]
        && disc.contains(tail[k]) && !seen.contains(path_components(tail[k])) by {
        assert(Seq::new((es.len() - n) as nat, |j: int| es[n + j].path@)[k] == tail[k]);
        assert(tail.to_set().contains(tail[k]));
        assert(disc.to_set().filter(not_seen(seen)).contains(tail[k]));
    }
    assert forall|i: int, j: int| 0 <= i < j < es.len() implies (#[trigger] es[i]).path@ != (#[trigger] es[j]).path@ by {
        if j < n {
            assert(visited[i] == es[i].path@ && visited[j] == es[j].path@);
            lemma_chars_lt_order(visited[i], visited[j], visited[j]);
        } else if i >= n {
            assert(es[n + (i - n)].path@ == tail[i - n]);
            assert(es[n + (j - n)].path@ == tail[j - n]);
        } else {
            assert(es[n + (j - n)].path@ == tail[j - n]);
            assert(visited[i] == es[i].path@);
            if es[i].path@ == es[j].path@ {
                assert(seen.contains(path_components(tail[j - n])));
            }
        }
    }
    assert forall|i: int| 0 <= i < es.len() implies if (#[trigger] es[i]).discovered_only {
        &&& disc.to_set().contains(es[i].path@)
        &&& !vm.dom().contains(es[i].path@)
        &&& es[i].visits@.len() == 0
    } else {
        &&& vm.dom().contains(es[i].path@)
        &&& es[i].visits@.to_multiset() == vm[es[i].path@].to_multiset()
    } by {
        if i < n {
            assert(visited[i] == es[i].path@);
            assert(visited.contains(es[i].path@));
        } else {
            let k = i - n;
            assert(es[n + k].path@ == tail[k]);
            if vm.dom().contains(es[i].path@) {
                assert(visited.contains(es[i].path@));
                let m = choose|m: int| 0 <= m < visited.len() && visited[m] == es[i].path@;
                assert(seen.contains(path_components(tail[k])));
            }
        }
    }
    assert forall|p: Seq<char>| #[trigger] vm.dom().contains(p) implies lists_path(es, p) by {
        assert(visited.contains(p));
        let m = choose|m: int| 0 <= m < visited.len() && visited[m] == p;
        assert(es[m].path@ == p);
    }
    assert forall|p: Seq<char>| #[trigger] disc.to_set().contains(p) && !visited_as_path(vm, p) implies lists_path(es, p) by {
        if seen.contains(path_components(p)) {
            let m = choose|m: int| 0 <= m < visited.len() && path_components(visited[m]) == path_components(p);
            assert(visited.contains(visited[m]));
            assert(vm.dom().contains(visited[m]));
            assert(visited_as_path(vm, p));
        }
        assert(disc.to_set().filter(not_seen(seen)).contains(p));
        assert(tail.to_set().contains(p));
        let k = choose|k: int| 0 <= k < tail.len() && tail[k] == p;
        assert(es[n + k].path@ == tail[k]);
    }
}

/// Reads stored rows as candidate entries (see [`spec_rows_entries`]):
/// visit rows are `(path, unix seconds)` pairs in any order, discovered
/// rows are paths.
pub fn entries_from_rows(visit_rows: Vec<(String, i64)>, discovered_rows: Vec<String>) -> (r: Vec<DirEntry>)
    ensures
        spec_rows_entries(visit_rows@, strings_view(discovered_rows@), r@),
{
    let ghost rows = visit_rows@;
    let mut mem = MemDirStore::new();
    let mut k: usize = 0;
    while k < visit_rows.len()
        invariant
            k <= rows.len(),
            rows == visit_rows@,
            forall|q: Seq<char>| #[trigger] mem.visited_paths().contains(q) <==> row_log(rows.take(k as int), q).len() > 0,
            forall|q: Seq<char>| #[trigger] mem.visits_for(q) == row_log(rows.take(k as int), q),
            mem.discovered_paths().len() == 0,
        decreases rows.len() - k,
    {
        assert(rows.take(k + 1).drop_last() =~= rows.take(k as int));
        assert(rows.take(k + 1).last() == rows[k as int]);
        let row = &visit_rows[k];
        match instant_from_unix_secs(row.1) {
            Some(t) => {
                mem.record_at(row.0.as_str(), t);
            },
            None => {},
        }
        k = k + 1;
    }
    assert(rows.take(rows.len() as int) =~= rows);
    proof {
        use_type_invariant(&mem);
        assert(filter_seq(mem.discovered_paths(), not_in(mem.visited_paths())) =~= Seq::<Seq<char>>::empty());
    }
    let mut out = mem.build_entries();
    let ghost n = mem.visited_paths().len() as int;
    let ghost visited = Seq::new(n as nat, |i: int| out@[i].path@);
    assert(visited =~= mem.visited_paths());
    assert(out@.len() == n);
    proof {
        assert forall|i: int| 0 <= i < n implies !(#[trigger] out@[i]).discovered_only
            && out@[i].visits@ == row_log(rows, out@[i].path@) by {
            lemma_visits_of_at(mem.visited_paths(), mem.visit_logs(), i);
            let q = mem.visited_paths()[i];
            assert(mem.visits_for(q) == row_log(rows.take(rows.len() as int), q));
            assert(out@[i].path@ == q);
        }
    }
    let nv = out.len();
    let mut keys: Vec<Vec<Part>> = Vec::new();
    let mut i: usize = 0;
    assert(keys_view(keys@) =~= Seq::<Seq<Component>>::empty());
    while i < nv
        invariant
            i <= nv,
            nv == out@.len(),
            n == nv,
            visited == Seq::new(n as nat, |m: int| out@[m].path@),
            parts_sorted(keys_view(keys@)),
            keys_view(keys@).to_set() == components_of(visited.take(i as int)),
        decreases nv - i,
    {
        let comps = components(out[i].path.as_str());
        let ghost before = keys_view(keys@);
        let ghost c = parts_view(comps@);
        let (found, pos) = find_parts_slot(&keys, &comps);
        assert(visited.take(i + 1) =~= visited.take(i as int).push(visited[i as int]));
        if !found {
            proof {
                lemma_insert_parts_sorted(before, c, pos as int);
            }
            keys.insert(pos, comps);
            assert(keys_view(keys@) =~= before.insert(pos as int, c));
        }
        proof {
            let after = keys_view(keys@);
            let t0 = visited.take(i as int);
            let t1 = visited.take(i + 1);
            assert forall|x: Seq<Component>| after.to_set().contains(x) <==> #[trigger] components_of(t1).contains(x) by {
                if after.contains(x) {
                    let j = choose|j: int| 0 <= j < after.len() && after[j] == x;
                    if x != c {
                        if !found {
                            if j < pos {
                                assert(before[j] == x);
                            } else if j > pos {
                                assert(before[j - 1] == x);
                            }
                        }
                        assert(before.contains(x));
                        assert(components_of(t0).contains(x));
                        let m = choose|m: int| 0 <= m < t0.len() && path_components(t0[m]) == x;
                        assert(t1[m] == t0[m]);
                    } else {
                        assert(t1[i as int] == visited[i as int]);
                    }
                }
                if components_of(t1).contains(x) {
                    let m = choose|m: int| 0 <= m < t1.len() && path_components(t1[m]) == x;
                    if m == i {
                        if !found {
                            assert(after[pos as int] == x);
                        } else {
                            assert(before[pos as int] == x);
                        }
                    } else {
                        assert(t0[m] == t1[m]);
                        assert(components_of(t0).contains(x));
                        assert(before.to_set().contains(x));
                        let j = choose|j: int| 0 <= j < before.len() && before[j] == x;
                        if !found {
                            if j < pos {
                                assert(after[j] == x);
                            } else {
                                assert(after[j + 1] == x);
                            }
                        } else {
                            assert(after[j] == x);
                        }
                    }
                }
            }
            assert(after.to_set() =~= components_of(t1));
        }
        i = i + 1;
    }
    assert(visited.take(n) =~= visited);
    let ghost seen = components_of(visited);
    let ghost ds = strings_view(discovered_rows@);
    let mut d: usize = 0;
    assert(ds.take(0) =~= Seq::<Seq<char>>::empty());
    assert(Seq::new((out@.len() - n) as nat, |j: int| out@[n + j].path@) =~= filter_seq(ds.take(0), not_seen(seen)));
    while d < discovered_rows.len()
        invariant
            d <= ds.len(),
            ds == strings_view(discovered_rows@),
            0 <= n,
            visited.len() == n,
            out@.len() >= n,
            keys_view(keys@).to_set() == seen,
            parts_sorted(keys_view(keys@)),
            forall|m: int| 0 <= m < n ==> #[trigger] out@[m].path@ == visited[m],
            forall|m: int| 0 <= m < n ==> !(#[trigger] out@[m]).discovered_only
                && out@[m].visits@ == row_log(rows, out@[m].path@),
            forall|j: int| n <= j < out@.len() ==> (#[trigger] out@[j]).discovered_only && out@[j].visits@.len() == 0,
            Seq::new((out@.len() - n) as nat, |j: int| out@[n + j].path@) == filter_seq(ds.take(d as int), not_seen(seen)),
        decreases ds.len() - d,
    {
        let ghost before = out@;
        assert(ds.take(d + 1).drop_last() =~= ds.take(d as int));
        assert(ds.take(d + 1).last() == ds[d as int]);
        let comps = components(discovered_rows[d].as_str());
        let (found, _) = find_parts_slot(&keys, &comps);
        assert(found == seen.contains(path_components(ds[d as int]))) by {
            if found {
                assert(keys_view(keys@).to_set().contains(parts_view(comps@)));
            }
            if seen.contains(path_components(ds[d as int])) {
                assert(keys_view(keys@).to_set().contains(parts_view(comps@)));
            }
        }
        if !found {
            let e = DirEntry { path: discovered_rows[d].clone(), visits: Vec::new(), discovered_only: true };
            assert(e.path@ == ds[d as int]);
            assert(e.visits@.len() == 0);
            out.push(e);
            assert(out@[before.len() as int] == e);
            assert(forall|j: int| 0 <= j < before.len() ==> out@[j] == before[j]);
            proof {
                let olds = Seq::new((before.len() - n) as nat, |j: int| before[n + j].path@);
                let news = Seq::new((out@.len() - n) as nat, |j: int| out@[n + j].path@);
                assert forall|j: int| 0 <= j < news.len() implies news[j] == olds.push(ds[d as int])[j] by {
                    if j < olds.len() {
                        assert(out@[n + j] == before[n + j]);
                    } else {
                        assert(n + j == before.len());
                    }
                }
                assert(news =~= olds.push(ds[d as int]));
                assert forall|j: int| n <= j < out@.len() implies (#[trigger] out@[j]).discovered_only && out@[j].visits@.len() == 0 by {
                    if j < before.len() {
                        assert(out@[j] == before[j]);
                    }
                }
            }
        } else {
            assert(Seq::new((out@.len() - n) as nat, |j: int| out@[n + j].path@)
                =~= Seq::new((before.len() - n) as nat, |j: int| before[n + j].path@));
        }
        d = d + 1;
    }
    assert(ds.take(ds.len() as int) =~= ds);
    assert(Seq::new(n as nat, |i: int| out@[i].path@) =~= visited);
    assert(rows_entries_split(rows, ds, out@, n));
    out
}

} // verus!
