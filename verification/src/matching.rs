//! How a needle matches a path: the typed vocabulary of match quality and
//! the classifier that assigns it.

use vstd::prelude::*;
use crate::binary64::Binary64;
use crate::path::{components, normal_names, path_components, Part};
use crate::text::{lemma_split_on_without_sep, 
    chars_contain, chars_eq, chars_of, chars_start_with, chars_subsequence, is_subsequence,
    lowercase, seq_contains, split_chars, split_on, string_from_chars, to_lowercase,
};

verus! {

/// How well a needle matches a path. Declaration order is worst → best.
#[derive(Clone, Copy, Debug, PartialEq, Eq, Structural, PartialOrd, Ord, Hash)]
pub enum MatchKind {
    /// The needle occurs somewhere in the full path.
    SubstringAnywhere,
    /// Some non-final path component starts with the needle.
    ComponentPrefix,
    /// The needle's characters occur in order within the basename.
    BasenameSubsequence,
    /// The basename starts with the needle.
    BasenamePrefix,
    /// The basename equals the needle.
    BasenameExact,
}

impl MatchKind {
    /// Every variant, worst → best.
    pub const ALL: [MatchKind; 5] = [
        MatchKind::SubstringAnywhere,
        MatchKind::ComponentPrefix,
        MatchKind::BasenameSubsequence,
        MatchKind::BasenamePrefix,
        MatchKind::BasenameExact,
    ];

    /// Position on the worst → best ladder.
    pub open spec fn spec_rank(self) -> u8 {
        match self {
            MatchKind::SubstringAnywhere => 0,
            MatchKind::ComponentPrefix => 1,
            MatchKind::BasenameSubsequence => 2,
            MatchKind::BasenamePrefix => 3,
            MatchKind::BasenameExact => 4,
        }
    }

    /// Position on the worst → best ladder (the order the derived `Ord` follows).
    pub fn rank(&self) -> (r: u8)
        ensures
            r == self.spec_rank(),
    {
        match self {
            MatchKind::SubstringAnywhere => 0,
            MatchKind::ComponentPrefix => 1,
            MatchKind::BasenameSubsequence => 2,
            MatchKind::BasenamePrefix => 3,
            MatchKind::BasenameExact => 4,
        }
    }
}

/// The non-empty pieces, in order.
pub open spec fn nonempty_pieces(ps: Seq<Seq<char>>) -> Seq<Seq<char>>
    decreases ps.len(),
{
    if ps.len() == 0 {
        Seq::empty()
    } else {
        let rest = nonempty_pieces(ps.drop_last());
        if ps.last().len() > 0 {
            rest.push(ps.last())
        } else {
            rest
        }
    }
}

/// The lowercased names of the path's normal components.
pub open spec fn lowered_names(path: Seq<char>) -> Seq<Seq<char>> {
    normal_names(path_components(path)).map_values(|n: Seq<char>| lowercase(n))
}

/// The first index `j >= from` whose name contains `frag`.
pub open spec fn first_containing(names: Seq<Seq<char>>, frag: Seq<char>, from: int) -> Option<int>
    decreases names.len() - from,
{
    if from < 0 || from >= names.len() {
        None
    } else if seq_contains(names[from], frag) {
        Some(from)
    } else {
        first_containing(names, frag, from + 1)
    }
}

/// Matches each leading fragment, in order, against the first later name
/// containing it; the position just past the last one matched.
pub open spec fn advance_cursor(names: Seq<Seq<char>>, frags: Seq<Seq<char>>, cursor: int) -> Option<int>
    decreases frags.len(),
{
    if frags.len() == 0 {
        Some(cursor)
    } else {
        match first_containing(names, frags[0], cursor) {
            Some(j) => advance_cursor(names, frags.drop_first(), j + 1),
            None => None,
        }
    }
}

/// Some name at or after `from` starts with `frag`.
pub open spec fn some_name_starts_with(names: Seq<Seq<char>>, frag: Seq<char>, from: int) -> bool {
    exists|j: int| from <= j < names.len() && frag.is_prefix_of(#[trigger] names[j])
}

/// The best match kind of `needle` against `path`, before any floor.
///
/// An empty needle is `BasenameExact`. Otherwise the needle is lowercased
/// and cut at `/` into non-empty fragments; every fragment but the last
/// must be contained, in order, in the (lowercased) ancestor names; the last
/// fragment is then tried against the basename (exact, prefix), the
/// remaining ancestors (prefix), the basename again (subsequence) and, for a
/// single-fragment needle, the whole lowercased path (substring).
pub open spec fn spec_classify_raw(needle: Seq<char>, path: Seq<char>) -> Option<MatchKind> {
    if needle.len() == 0 {
        Some(MatchKind::BasenameExact)
    } else {
        spec_classify_lowered(lowercase(needle), lowered_names(path), lowercase(path))
    }
}

/// The match kind of a non-empty needle, given already lowercased: the
/// needle `lower_needle`, the names of the path's normal components `names`
/// and the whole path `lower_path`.
pub open spec fn spec_classify_lowered(
    lower_needle: Seq<char>,
    names: Seq<Seq<char>>,
    lower_path: Seq<char>,
) -> Option<MatchKind> {
    if names.len() == 0 {
        None
    } else {
        let basename = names.last();
        let frags = nonempty_pieces(split_on(lower_needle, '/'));
        if frags.len() == 0 {
            Some(MatchKind::BasenameExact)
        } else {
            let last = frags.last();
            let leading = frags.drop_last();
            let ancestors = names.drop_last();
            match advance_cursor(ancestors, leading, 0) {
                None => None,
                Some(cursor) => if basename == last {
                    Some(MatchKind::BasenameExact)
                } else if last.is_prefix_of(basename) {
                    Some(MatchKind::BasenamePrefix)
                } else if some_name_starts_with(ancestors, last, cursor) {
                    Some(MatchKind::ComponentPrefix)
                } else if is_subsequence(last, basename) {
                    Some(MatchKind::BasenameSubsequence)
                } else if leading.len() == 0 && seq_contains(lower_path, last) {
                    Some(MatchKind::SubstringAnywhere)
                } else {
                    None
                },
            }
        }
    }
}

/// Each match kind is weighted by its own field of the profile.
pub proof fn lemma_weight_of_each_kind(p: MatchProfile)
    ensures
        p.spec_weight(MatchKind::BasenameExact) == p.basename_exact,
        p.spec_weight(MatchKind::BasenamePrefix) == p.basename_prefix,
        p.spec_weight(MatchKind::BasenameSubsequence) == p.basename_subsequence,
        p.spec_weight(MatchKind::ComponentPrefix) == p.component_prefix,
        p.spec_weight(MatchKind::SubstringAnywhere) == p.substring_anywhere,
{
}

/// The order in which a single-fragment (lowercased, `/`-free) needle is
/// tried: the basename first, so a needle equal to the path's last name is
/// `BasenameExact` and a proper prefix of it `BasenamePrefix`, whatever the
/// ancestors are; failing that, a prefix of some ancestor name is
/// `ComponentPrefix`; failing that, a subsequence of the basename is
/// `BasenameSubsequence`, then a substring of the whole path
/// `SubstringAnywhere`, and anything else no match.
pub proof fn lemma_basename_match_comes_first(lower_needle: Seq<char>, names: Seq<Seq<char>>, lower_path: Seq<char>)
    requires
        lower_needle.len() > 0,
        !lower_needle.contains('/'),
        names.len() > 0,
    ensures
        lower_needle == names.last() ==> spec_classify_lowered(lower_needle, names, lower_path) == Some(MatchKind::BasenameExact),
        lower_needle != names.last() && lower_needle.is_prefix_of(names.last())
            ==> spec_classify_lowered(lower_needle, names, lower_path) == Some(MatchKind::BasenamePrefix),
        !lower_needle.is_prefix_of(names.last())
            && (exists|j: int| 0 <= j < names.len() - 1 && lower_needle.is_prefix_of(#[trigger] names[j]))
            ==> spec_classify_lowered(lower_needle, names, lower_path) == Some(MatchKind::ComponentPrefix),
        !lower_needle.is_prefix_of(names.last())
            && !(exists|j: int| 0 <= j < names.len() - 1 && lower_needle.is_prefix_of(#[trigger] names[j]))
            ==> spec_classify_lowered(lower_needle, names, lower_path) == (if is_subsequence(lower_needle, names.last()) {
                Some(MatchKind::BasenameSubsequence)
            } else if seq_contains(lower_path, lower_needle) {
                Some(MatchKind::SubstringAnywhere)
            } else {
                None
            }),
{
    lemma_split_on_without_sep(lower_needle, '/');
    let ps = seq![lower_needle];
    assert(ps.drop_last() =~= Seq::<Seq<char>>::empty());
    assert(nonempty_pieces(ps.drop_last()) =~= Seq::<Seq<char>>::empty());
    assert(nonempty_pieces(ps) =~= seq![lower_needle]);
    let frags = nonempty_pieces(split_on(lower_needle, '/'));
    assert(frags.drop_last() =~= Seq::<Seq<char>>::empty());
    assert(advance_cursor(names.drop_last(), frags.drop_last(), 0) == Some(0int));
    let anc = names.drop_last();
    assert((exists|j: int| 0 <= j < names.len() - 1 && lower_needle.is_prefix_of(#[trigger] names[j]))
        <==> some_name_starts_with(anc, lower_needle, 0)) by {
        if exists|j: int| 0 <= j < names.len() - 1 && lower_needle.is_prefix_of(#[trigger] names[j]) {
            let j = choose|j: int| 0 <= j < names.len() - 1 && lower_needle.is_prefix_of(#[trigger] names[j]);
            assert(anc[j] == names[j]);
        }
        if some_name_starts_with(anc, lower_needle, 0) {
            let j = choose|j: int| 0 <= j < anc.len() && lower_needle.is_prefix_of(#[trigger] anc[j]);
            assert(anc[j] == names[j]);
        }
    }
    if lower_needle == names.last() {
        assert(lower_needle.is_prefix_of(names.last()));
    }
}

/// The classification with the floor applied: kinds below `floor` are no match.
pub open spec fn spec_classify(floor: MatchKind, needle: Seq<char>, path: Seq<char>) -> Option<MatchKind> {
    match spec_classify_raw(needle, path) {
        Some(k) => if k.spec_rank() >= floor.spec_rank() {
            Some(k)
        } else {
            None
        },
        None => None,
    }
}

/// The lowercased names of the normal components of `path`.
fn lowered_component_names(path: &str) -> (r: Vec<Vec<char>>)
    ensures
        r@.len() == lowered_names(path@).len(),
        forall|i: int| 0 <= i < r@.len() ==> #[trigger] r@[i]@ == lowered_names(path@)[i],
{
    let parts = components(path);
    let ghost comps = path_components(path@);
    let mut out: Vec<Vec<char>> = Vec::new();
    let mut i: usize = 0;
    assert(comps.take(0) =~= Seq::<crate::path::Component>::empty());
    while i < parts.len()
        invariant
            i <= parts@.len(),
            crate::path::parts_view(parts@) == comps,
            out@.len() == normal_names(comps.take(i as int)).len(),
            forall|k: int| 0 <= k < out@.len() ==> #[trigger] out@[k]@ == lowercase(normal_names(comps.take(i as int))[k]),
        decreases parts@.len() - i,
    {
        assert(comps.take(i + 1).drop_last() =~= comps.take(i as int));
        assert(comps.take(i + 1).last() == comps[i as int]);
        assert(comps[i as int] == parts@[i as int].view());
        match &parts[i] {
            Part::Normal(name) => {
                let s = string_from_chars(name.as_slice());
                let lowered = to_lowercase(s.as_str());
                let lc = chars_of(lowered.as_str());
                out.push(lc);
            },
            _ => {},
        }
        i = i + 1;
    }
    assert(comps.take(parts@.len() as int) =~= comps);
    out
}

/// The non-empty pieces of `s` cut at `/`.
fn needle_fragments(s: &[char]) -> (r: Vec<Vec<char>>)
    ensures
        r@.len() == nonempty_pieces(split_on(s@, '/')).len(),
        forall|i: int| 0 <= i < r@.len() ==> #[trigger] r@[i]@ == nonempty_pieces(split_on(s@, '/'))[i],
{
    let pieces = split_chars(s, '/');
    let ghost gp = split_on(s@, '/');
    let mut out: Vec<Vec<char>> = Vec::new();
    let mut i: usize = 0;
    assert(gp.take(0) =~= Seq::<Seq<char>>::empty());
    while i < pieces.len()
        invariant
            i <= pieces@.len(),
            pieces@.len() == gp.len(),
            forall|k: int| 0 <= k < pieces@.len() ==> #[trigger] pieces@[k]@ == gp[k],
            out@.len() == nonempty_pieces(gp.take(i as int)).len(),
            forall|k: int| 0 <= k < out@.len() ==> #[trigger] out@[k]@ == nonempty_pieces(gp.take(i as int))[k],
        decreases pieces@.len() - i,
    {
        assert(gp.take(i + 1).drop_last() =~= gp.take(i as int));
        assert(gp.take(i + 1).last() == gp[i as int]);
        if pieces[i].len() > 0 {
            let p = pieces[i].clone();
            out.push(p);
        }
        i = i + 1;
    }
    assert(gp.take(pieces@.len() as int) =~= gp);
    out
}

/// The first index `j >= from` (below `end`) whose name contains `frag`.
fn find_containing(names: &Vec<Vec<char>>, end: usize, frag: &Vec<char>, from: usize) -> (r: Option<usize>)
    requires
        end <= names@.len(),
    ensures
        match r {
            Some(j) => first_containing(Seq::new(end as nat, |k: int| names@[k]@), frag@, from as int) == Some(j as int),
            None => first_containing(Seq::new(end as nat, |k: int| names@[k]@), frag@, from as int) is None,
        },
        r matches Some(j) ==> from <= j < end,
{
    let ghost ns = Seq::new(end as nat, |k: int| names@[k]@);
    let mut j = from;
    while j < end
        invariant
            end <= names@.len(),
            from <= j,
            ns == Seq::new(end as nat, |k: int| names@[k]@),
            first_containing(ns, frag@, from as int) == first_containing(ns, frag@, j as int),
        decreases end - j,
    {
        if chars_contain(names[j].as_slice(), frag.as_slice()) {
            return Some(j);
        }
        j = j + 1;
    }
    None
}

/// `frag` is a prefix of some name in `from..end`.
fn any_starts_with(names: &Vec<Vec<char>>, end: usize, frag: &Vec<char>, from: usize) -> (r: bool)
    requires
        end <= names@.len(),
    ensures
        r == some_name_starts_with(Seq::new(end as nat, |k: int| names@[k]@), frag@, from as int),
{
    let ghost ns = Seq::new(end as nat, |k: int| names@[k]@);
    let mut j = from;
    while j < end
        invariant
            end <= names@.len(),
            from <= j,
            ns == Seq::new(end as nat, |k: int| names@[k]@),
            forall|k: int| from <= k < j ==> !frag@.is_prefix_of(#[trigger] ns[k]),
        decreases end - j,
    {
        if chars_start_with(names[j].as_slice(), frag.as_slice()) {
            assert(frag@.is_prefix_of(ns[j as int]));
            return true;
        }
        j = j + 1;
    }
    false
}

/// How each [`MatchKind`] weights a candidate's score, and the floor below
/// which a match is not a match at all.
#[derive(Clone, Copy, Debug)]
pub struct MatchProfile {
    /// Multiplier for [`MatchKind::BasenameExact`].
    pub basename_exact: Binary64,
    /// Multiplier for [`MatchKind::BasenamePrefix`].
    pub basename_prefix: Binary64,
    /// Multiplier for [`MatchKind::BasenameSubsequence`].
    pub basename_subsequence: Binary64,
    /// Multiplier for [`MatchKind::ComponentPrefix`].
    pub component_prefix: Binary64,
    /// Multiplier for [`MatchKind::SubstringAnywhere`].
    pub substring_anywhere: Binary64,
    /// The weakest match kind still considered a match.
    pub require_at_least: MatchKind,
}

impl MatchProfile {
    /// The fleet default: weights 8 / 4 / 1 / 0.5 / 0.1 from exact down to
    /// substring, and substring matches refused outright.
    pub fn anchored() -> (r: Self)
        ensures
            r.basename_exact.bits == 0x4020_0000_0000_0000,  // 8.0
            r.basename_prefix.bits == 0x4010_0000_0000_0000,  // 4.0
            r.basename_subsequence.bits == 0x3ff0_0000_0000_0000,  // 1.0
            r.component_prefix.bits == 0x3fe0_0000_0000_0000,  // 0.5
            r.substring_anywhere.bits == 0x3fb9_9999_9999_999a,  // 0.1
            r.require_at_least == MatchKind::ComponentPrefix,
    {
        MatchProfile {
            basename_exact: Binary64 { bits: 0x4020_0000_0000_0000 },
            basename_prefix: Binary64 { bits: 0x4010_0000_0000_0000 },
            basename_subsequence: Binary64 { bits: 0x3ff0_0000_0000_0000 },
            component_prefix: Binary64 { bits: 0x3fe0_0000_0000_0000 },
            substring_anywhere: Binary64 { bits: 0x3fb9_9999_9999_999a },
            require_at_least: MatchKind::ComponentPrefix,
        }
    }

    /// Every kind weighted 1.0 and nothing excluded.
    pub fn substring_legacy() -> (r: Self)
        ensures
            r.basename_exact.bits == 0x3ff0_0000_0000_0000,
            r.basename_prefix.bits == 0x3ff0_0000_0000_0000,
            r.basename_subsequence.bits == 0x3ff0_0000_0000_0000,
            r.component_prefix.bits == 0x3ff0_0000_0000_0000,
            r.substring_anywhere.bits == 0x3ff0_0000_0000_0000,
            r.require_at_least == MatchKind::SubstringAnywhere,
    {
        let one = Binary64 { bits: 0x3ff0_0000_0000_0000 };
        MatchProfile {
            basename_exact: one,
            basename_prefix: one,
            basename_subsequence: one,
            component_prefix: one,
            substring_anywhere: one,
            require_at_least: MatchKind::SubstringAnywhere,
        }
    }

    /// The multiplier for `kind`.
    pub open spec fn spec_weight(&self, kind: MatchKind) -> Binary64 {
        match kind {
            MatchKind::BasenameExact => self.basename_exact,
            MatchKind::BasenamePrefix => self.basename_prefix,
            MatchKind::BasenameSubsequence => self.basename_subsequence,
            MatchKind::ComponentPrefix => self.component_prefix,
            MatchKind::SubstringAnywhere => self.substring_anywhere,
        }
    }

    /// The multiplier for `kind`.
    pub fn weight(&self, kind: MatchKind) -> (r: Binary64)
        ensures
            r == self.spec_weight(kind),
    {
        match kind {
            MatchKind::BasenameExact => self.basename_exact,
            MatchKind::BasenamePrefix => self.basename_prefix,
            MatchKind::BasenameSubsequence => self.basename_subsequence,
            MatchKind::ComponentPrefix => self.component_prefix,
            MatchKind::SubstringAnywhere => self.substring_anywhere,
        }
    }

    /// The best [`MatchKind`] of `needle` against `path`, or `None` when it
    /// does not match or matches only below [`Self::require_at_least`].
    /// Matching is case-insensitive; an empty needle is `BasenameExact`.
    pub fn classify(&self, needle: &str, path: &str) -> (r: Option<MatchKind>)
        ensures
            r == spec_classify(self.require_at_least, needle@, path@),
    {
        match Self::classify_raw(needle, path) {
            Some(k) => if k.rank() >= self.require_at_least.rank() {
                Some(k)
            } else {
                None
            },
            None => None,
        }
    }

    /// [`Self::classify`] without the floor.
    pub fn classify_raw(needle: &str, path: &str) -> (r: Option<MatchKind>)
        ensures
            r == spec_classify_raw(needle@, path@),
    {
        if needle.is_empty() {
            return Some(MatchKind::BasenameExact);
        }
        let lower_path_s = to_lowercase(path);
        let lower_path = chars_of(lower_path_s.as_str());
        let lower_needle_s = to_lowercase(needle);
        let lower_needle = chars_of(lower_needle_s.as_str());
        let names = lowered_component_names(path);
        assert(names@.map_values(|n: Vec<char>| n@) =~= lowered_names(path@));
        Self::classify_lowered(lower_needle.as_slice(), &names, lower_path.as_slice())
    }

    /// The match kind of a non-empty needle against a path, both already
    /// lowercased: `names` holds the names of the path's normal components.
    pub fn classify_lowered(lower_needle: &[char], names: &Vec<Vec<char>>, lower_path: &[char]) -> (r: Option<MatchKind>)
        ensures
            r == spec_classify_lowered(lower_needle@, names@.map_values(|n: Vec<char>| n@), lower_path@),
    {
        let ghost gnames = names@.map_values(|n: Vec<char>| n@);
        if names.len() == 0 {
            return None;
        }
        let nlen = names.len();
        let basename = &names[nlen - 1];
        let frags = needle_fragments(lower_needle);
        let ghost gfrags = nonempty_pieces(split_on(lower_needle@, '/'));
        if frags.len() == 0 {
            return Some(MatchKind::BasenameExact);
        }
        let flen = frags.len();
        let last = &frags[flen - 1];
        let ghost ancestors = gnames.drop_last();
        let ghost leading = gfrags.drop_last();
        assert(Seq::new((nlen - 1) as nat, |k: int| names@[k]@) =~= ancestors);
        let mut cursor: usize = 0;
        let mut f: usize = 0;
        assert(leading.skip(0) =~= leading);
        while f < flen - 1
            invariant
                flen == frags@.len(),
                flen == gfrags.len(),
                flen >= 1,
                nlen == names@.len(),
                nlen >= 1,
                f <= flen - 1,
                cursor <= nlen - 1,
                forall|k: int| 0 <= k < flen ==> #[trigger] frags@[k]@ == gfrags[k],
                ancestors == Seq::new((nlen - 1) as nat, |k: int| names@[k]@),
                leading == gfrags.drop_last(),
                ancestors == gnames.drop_last(),
                gnames.len() == nlen,
                gnames == names@.map_values(|n: Vec<char>| n@),
                gfrags == nonempty_pieces(split_on(lower_needle@, '/')),
                advance_cursor(ancestors, leading, 0) == advance_cursor(ancestors, leading.skip(f as int), cursor as int),
            decreases flen - 1 - f,
        {
            assert(leading.skip(f as int)[0] == frags@[f as int]@);
            assert(leading.skip(f as int).drop_first() =~= leading.skip(f + 1));
            match find_containing(names, nlen - 1, &frags[f], cursor) {
                Some(j) => {
                    cursor = j + 1;
                },
                None => {
                    assert(leading.skip(f as int).len() > 0);
                    assert(first_containing(ancestors, leading.skip(f as int)[0], cursor as int) is None);
                    assert(advance_cursor(ancestors, leading.skip(f as int), cursor as int) is None);
                    return None;
                },
            }
            f = f + 1;
        }
        assert(leading.skip((flen - 1) as int).len() == 0);
        assert(last@ == gfrags.last());
        assert(basename@ == gnames.last());
        if chars_eq(basename.as_slice(), last.as_slice()) {
            Some(MatchKind::BasenameExact)
        } else if chars_start_with(basename.as_slice(), last.as_slice()) {
            Some(MatchKind::BasenamePrefix)
        } else if any_starts_with(names, nlen - 1, last, cursor) {
            Some(MatchKind::ComponentPrefix)
        } else if chars_subsequence(last.as_slice(), basename.as_slice()) {
            Some(MatchKind::BasenameSubsequence)
        } else if flen == 1 && chars_contain(lower_path, last.as_slice()) {
            Some(MatchKind::SubstringAnywhere)
        } else {
            None
        }
    }
}

impl Default for MatchProfile {
    /// The anchored profile.
    fn default() -> (r: Self)
        ensures
            r.basename_exact.bits == 0x4020_0000_0000_0000,
            r.basename_prefix.bits == 0x4010_0000_0000_0000,
            r.basename_subsequence.bits == 0x3ff0_0000_0000_0000,
            r.component_prefix.bits == 0x3fe0_0000_0000_0000,
            r.substring_anywhere.bits == 0x3fb9_9999_9999_999a,
            r.require_at_least == MatchKind::ComponentPrefix,
    {
        MatchProfile::anchored()
    }
}

} // verus!
