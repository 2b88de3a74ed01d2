//! A model of Unix path syntax: how a path string breaks into components,
//! and the component-wise relations (prefix, order) that paths are compared by.

use vstd::prelude::*;
use crate::text::{string_from_chars, split_on, chars_of, split_chars, chars_eq, chars_start_with, lemma_split_on_nonempty};

verus! {

/// One component of a parsed path.
pub enum Component {
    /// The leading `/` of an absolute path.
    RootDir,
    /// A leading `.` of a relative path.
    CurDir,
    /// A `..` component.
    ParentDir,
    /// Any other non-empty name.
    Normal(Seq<char>),
}

/// A component held in executable form.
pub enum Part {
    RootDir,
    CurDir,
    ParentDir,
    Normal(Vec<char>),
}

impl Part {
    pub open spec fn view(&self) -> Component {
        match self {
            Part::RootDir => Component::RootDir,
            Part::CurDir => Component::CurDir,
            Part::ParentDir => Component::ParentDir,
            Part::Normal(n) => Component::Normal(n@),
        }
    }
}

/// The components of a sequence of parts.
pub open spec fn parts_view(ps: Seq<Part>) -> Seq<Component> {
    Seq::new(ps.len(), |i: int| ps[i].view())
}

/// A piece between separators that yields a component: empty pieces and
/// `.` pieces vanish.
pub open spec fn keeps_segment(seg: Seq<char>) -> bool {
    seg.len() > 0 && seg != seq!['.']
}

/// The component a kept piece yields.
pub open spec fn segment_component(seg: Seq<char>) -> Component {
    if seg == seq!['.', '.'] {
        Component::ParentDir
    } else {
        Component::Normal(seg)
    }
}

/// The components the pieces of a path yield, in order.
pub open spec fn body_components(segs: Seq<Seq<char>>) -> Seq<Component>
    decreases segs.len(),
{
    if segs.len() == 0 {
        Seq::empty()
    } else {
        let rest = body_components(segs.drop_last());
        if keeps_segment(segs.last()) {
            rest.push(segment_component(segs.last()))
        } else {
            rest
        }
    }
}

/// The components of the path `s` (Unix rules): a root for a leading `/`, a
/// current-directory marker for a leading `.` piece of a relative path, then
/// every non-empty piece other than `.`, with `..` as a parent marker.
pub open spec fn path_components(s: Seq<char>) -> Seq<Component> {
    let segs = split_on(s, '/');
    let lead = if s.len() > 0 && s[0] == '/' {
        seq![Component::RootDir]
    } else if segs[0] == seq!['.'] {
        seq![Component::CurDir]
    } else {
        Seq::<Component>::empty()
    };
    lead + body_components(segs)
}

/// `base`'s components are a prefix of `p`'s (`Path::starts_with`).
pub open spec fn path_starts_with(p: Seq<char>, base: Seq<char>) -> bool {
    path_components(base).is_prefix_of(path_components(p))
}

/// The names of the normal components, in order.
pub open spec fn normal_names(cs: Seq<Component>) -> Seq<Seq<char>>
    decreases cs.len(),
{
    if cs.len() == 0 {
        Seq::empty()
    } else {
        let rest = normal_names(cs.drop_last());
        match cs.last() {
            Component::Normal(n) => rest.push(n),
            _ => rest,
        }
    }
}

/// `candidate` is `prefix` itself or lies beneath it as a path: `prefix`
/// starts it and ends on a component boundary, either because `prefix`
/// ends in `/` or because the rest starts with one (`/a` is under `/`;
/// `/a/bc` is not under `/a/b`).
pub open spec fn same_or_under(candidate: Seq<char>, prefix: Seq<char>) -> bool {
    ||| candidate == prefix
    ||| prefix.is_prefix_of(candidate) && candidate.len() > prefix.len() && {
        ||| candidate[prefix.len() as int] == '/'
        ||| prefix.len() > 0 && prefix.last() == '/'
    }
}

/// The strings that start with `s` are exactly those at or after `s` and
/// before `t`, where `t` is `s` with its last character replaced by the
/// next one.
proof fn lemma_prefix_range(s: Seq<char>, t: Seq<char>, c: Seq<char>)
    requires
        s.len() >= 1,
        t.len() == s.len(),
        forall|i: int| 0 <= i < s.len() - 1 ==> t[i] == s[i],
        (s.last() as u32) + 1 == (t.last() as u32),
    ensures
        s.is_prefix_of(c) <==> (!chars_lt(c, s) && chars_lt(c, t)),
    decreases s.len(),
{
    if c.len() > 0 {
        vstd::utf8::char_u32_cast(c[0], c[0] as u32);
        vstd::utf8::char_u32_cast(s[0], s[0] as u32);
        vstd::utf8::char_u32_cast(t[0], t[0] as u32);
    }
    if s.len() == 1 {
        if c.len() > 0 {
            assert(chars_lt(c.drop_first(), s.drop_first()) == false);
            assert(chars_lt(c.drop_first(), t.drop_first()) == false);
            if (c[0] as u32) == (s[0] as u32) {
                assert(s =~= c.take(1));
            }
        }
    } else {
        assert(t[0] == s[0]);
        if c.len() > 0 && c[0] == s[0] {
            let s1 = s.drop_first();
            let t1 = t.drop_first();
            assert forall|i: int| 0 <= i < s1.len() - 1 implies t1[i] == s1[i] by {
                assert(t1[i] == t[i + 1] && s1[i] == s[i + 1]);
            }
            lemma_prefix_range(s1, t1, c.drop_first());
            if s1.is_prefix_of(c.drop_first()) {
                assert forall|i: int| 0 <= i < s.len() implies s[i] == c[i] by {
                    if i > 0 {
                        assert(s1[i - 1] == c.drop_first()[i - 1]);
                    }
                }
            }
            if s.is_prefix_of(c) {
                assert forall|i: int| 0 <= i < s1.len() implies s1[i] == c.drop_first()[i] by {
                    assert(s[i + 1] == c[i + 1]);
                }
            }
        } else if c.len() > 0 {
            if s.is_prefix_of(c) {
                assert(s[0] == c[0]);
            }
        }
    }
}

/// The character range that holds the paths beneath `prefix`, for a store
/// that compares paths by their characters: every path equal to or beneath
/// `prefix` (as [`same_or_under`] says) is `prefix` itself or lies at or
/// after `lo` and before `hi`, and nothing else does. `lo` is `prefix`
/// followed by a `/` (or `prefix` itself when it already ends in one), and
/// `hi` ends in `0`, the character after `/`, where `lo` ends in `/`.
pub fn subtree_range(prefix: &str) -> (r: (String, String))
    ensures
        forall|c: Seq<char>| #[trigger] same_or_under(c, prefix@) <==> (c == prefix@
            || (!chars_lt(c, r.0@) && chars_lt(c, r.1@))),
{
    let mut lo = chars_of(prefix);
    let n = lo.len();
    if n == 0 || lo[n - 1] != '/' {
        lo.push('/');
    }
    let mut hi = lo.clone();
    let m = hi.len();
    hi.set(m - 1, '0');
    let ghost p = prefix@;
    proof {
        assert(lo@.last() == '/');
        assert(('/' as u32) + 1 == ('0' as u32));
        assert forall|c: Seq<char>| #[trigger] same_or_under(c, p) <==> (c == p
            || (!chars_lt(c, lo@) && chars_lt(c, hi@))) by {
            lemma_prefix_range(lo@, hi@, c);
            if n == 0 || p.last() != '/' {
                assert(lo@ == p.push('/'));
                if lo@.is_prefix_of(c) {
                    assert(p.is_prefix_of(c)) by {
                        assert forall|i: int| 0 <= i < p.len() implies p[i] == c[i] by {
                            assert(lo@[i] == p[i]);
                        }
                    }
                    assert(c[p.len() as int] == lo@[p.len() as int]);
                }
                if p.is_prefix_of(c) && c.len() > p.len() && c[p.len() as int] == '/' {
                    assert forall|i: int| 0 <= i < lo@.len() implies lo@[i] == c[i] by {
                        if i < p.len() {
                            assert(lo@[i] == p[i]);
                        }
                    }
                }
            } else {
                assert(lo@ == p);
                if p.is_prefix_of(c) && c.len() == p.len() {
                    assert(c =~= p);
                }
            }
        }
    }
    (string_from_chars(lo.as_slice()), string_from_chars(hi.as_slice()))
}

/// `true` when `candidate` is `prefix` itself or lives under it as a path
/// (component-boundary-aware: `/a/bc` is not under `/a/b`, `/a` is under `/`).
pub fn path_is_same_or_under(candidate: &str, prefix: &str) -> (r: bool)
    ensures
        r == same_or_under(candidate@, prefix@),
{
    let c = chars_of(candidate);
    let p = chars_of(prefix);
    if chars_eq(c.as_slice(), p.as_slice()) {
        return true;
    }
    chars_start_with(c.as_slice(), p.as_slice()) && c.len() > p.len()
        && (c[p.len()] == '/' || (p.len() > 0 && p[p.len() - 1] == '/'))
}

/// Breaks the path `s` into its components.
pub fn components(s: &str) -> (r: Vec<Part>)
    ensures
        parts_view(r@) == path_components(s@),
{
    let cs = chars_of(s);
    let segs = split_chars(cs.as_slice(), '/');
    let ghost gsegs = split_on(s@, '/');
    proof { lemma_split_on_nonempty(s@, '/'); }
    let mut out: Vec<Part> = Vec::new();
    let ghost lead: Seq<Component>;
    if cs.len() > 0 && cs[0] == '/' {
        out.push(Part::RootDir);
        proof { lead = seq![Component::RootDir]; }
    } else if segs[0].len() == 1 && segs[0][0] == '.' {
        assert(segs@[0]@ =~= seq!['.']);
        out.push(Part::CurDir);
        proof { lead = seq![Component::CurDir]; }
    } else {
        assert(segs@[0]@ != seq!['.']) by {
            if segs@[0]@ == seq!['.'] {
                assert(segs@[0]@.len() == 1 && segs@[0]@[0] == '.');
            }
        }
        proof { lead = Seq::empty(); }
    }
    assert(parts_view(out@) =~= lead + body_components(gsegs.take(0)));
    let mut i: usize = 0;
    while i < segs.len()
        invariant
            i <= segs@.len(),
            segs@.len() == gsegs.len(),
            forall|k: int| 0 <= k < segs@.len() ==> #[trigger] segs@[k]@ == gsegs[k],
            parts_view(out@) == lead + body_components(gsegs.take(i as int)),
        decreases segs@.len() - i,
    {
        let ghost before = parts_view(out@);
        assert(gsegs.take(i + 1).drop_last() =~= gsegs.take(i as int));
        assert(gsegs.take(i + 1).last() == gsegs[i as int]);
        let seg = &segs[i];
        let keep = seg.len() > 0 && !(seg.len() == 1 && seg[0] == '.');
        assert(keep == keeps_segment(gsegs[i as int])) by {
            if seg@ == seq!['.'] {
                assert(seg@.len() == 1 && seg@[0] == '.');
            }
            if seg@.len() == 1 && seg@[0] == '.' {
                assert(seg@ =~= seq!['.']);
            }
        }
        if keep {
            let dotdot = seg.len() == 2 && seg[0] == '.' && seg[1] == '.';
            assert(dotdot == (gsegs[i as int] == seq!['.', '.'])) by {
                if seg@ == seq!['.', '.'] {
                    assert(seg@.len() == 2 && seg@[0] == '.' && seg@[1] == '.');
                }
                if seg@.len() == 2 && seg@[0] == '.' && seg@[1] == '.' {
                    assert(seg@ =~= seq!['.', '.']);
                }
            }
            if dotdot {
                out.push(Part::ParentDir);
            } else {
                let name = seg.clone();
                out.push(Part::Normal(name));
            }
            assert(parts_view(out@) =~= before.push(out@.last().view()));
            assert(lead + body_components(gsegs.take(i + 1)) =~= (lead + body_components(gsegs.take(i as int))).push(segment_component(gsegs[i as int])));
        } else {
            assert(body_components(gsegs.take(i + 1)) == body_components(gsegs.take(i as int)));
        }
        i = i + 1;
    }
    assert(gsegs.take(segs@.len() as int) =~= gsegs);
    out
}


/// Lexicographic order of character sequences by code point (the byte
/// order of their UTF-8 encodings).
pub open spec fn chars_lt(a: Seq<char>, b: Seq<char>) -> bool
    decreases a.len(),
{
    if b.len() == 0 {
        false
    } else if a.len() == 0 {
        true
    } else if (a[0] as u32) < (b[0] as u32) {
        true
    } else if a[0] == b[0] {
        chars_lt(a.drop_first(), b.drop_first())
    } else {
        false
    }
}

/// Position of a component kind in `std::path::Component`'s declaration order.
pub open spec fn component_rank(c: Component) -> int {
    match c {
        Component::RootDir => 0,
        Component::CurDir => 1,
        Component::ParentDir => 2,
        Component::Normal(_) => 3,
    }
}

/// The order of single components: by kind, then normal names by their bytes.
pub open spec fn component_lt(a: Component, b: Component) -> bool {
    match (a, b) {
        (Component::Normal(x), Component::Normal(y)) => chars_lt(x, y),
        _ => component_rank(a) < component_rank(b),
    }
}

/// Lexicographic order of component sequences (`Path`'s `Ord`).
pub open spec fn components_lt(a: Seq<Component>, b: Seq<Component>) -> bool
    decreases a.len(),
{
    if b.len() == 0 {
        false
    } else if a.len() == 0 {
        true
    } else if component_lt(a[0], b[0]) {
        true
    } else if a[0] == b[0] {
        components_lt(a.drop_first(), b.drop_first())
    } else {
        false
    }
}

/// `chars_lt` is a strict total order.
pub proof fn lemma_chars_lt_order(a: Seq<char>, b: Seq<char>, c: Seq<char>)
    ensures
        !chars_lt(a, a),
        chars_lt(a, b) && chars_lt(b, c) ==> chars_lt(a, c),
        a != b ==> chars_lt(a, b) || chars_lt(b, a),
        chars_lt(a, b) ==> !chars_lt(b, a),
    decreases a.len(),
{
    if a.len() > 0 {
        lemma_chars_lt_order(a.drop_first(), a.drop_first(), a.drop_first());
    }
    if a.len() > 0 && b.len() > 0 {
        lemma_chars_lt_order(a.drop_first(), b.drop_first(), if c.len() > 0 { c.drop_first() } else { c });
        vstd::utf8::char_u32_cast(a[0], a[0] as u32);
        vstd::utf8::char_u32_cast(b[0], b[0] as u32);
        if a != b && a[0] == b[0] {
            if a.drop_first() == b.drop_first() {
                assert(a =~= seq![a[0]] + a.drop_first());
                assert(b =~= seq![b[0]] + b.drop_first());
            }
        }
    }
    if a.len() == 0 && b.len() == 0 {
        assert(a =~= b);
    }
}

/// `component_lt` is a strict total order.
pub proof fn lemma_component_lt_order(a: Component, b: Component, c: Component)
    ensures
        !component_lt(a, a),
        component_lt(a, b) && component_lt(b, c) ==> component_lt(a, c),
        a != b ==> component_lt(a, b) || component_lt(b, a),
        component_lt(a, b) ==> !component_lt(b, a),
{
    match (a, b, c) {
        (Component::Normal(x), Component::Normal(y), Component::Normal(z)) => {
            lemma_chars_lt_order(x, y, z);
        },
        (Component::Normal(x), Component::Normal(y), _) => {
            lemma_chars_lt_order(x, y, y);
        },
        (Component::Normal(x), _, _) => {
            lemma_chars_lt_order(x, x, x);
        },
        _ => {},
    }
}

/// `components_lt` is a strict total order.
pub proof fn lemma_components_lt_order(a: Seq<Component>, b: Seq<Component>, c: Seq<Component>)
    ensures
        !components_lt(a, a),
        components_lt(a, b) && components_lt(b, c) ==> components_lt(a, c),
        a != b ==> components_lt(a, b) || components_lt(b, a),
        components_lt(a, b) ==> !components_lt(b, a),
    decreases a.len(),
{
    if a.len() > 0 {
        lemma_component_lt_order(a[0], a[0], a[0]);
        lemma_components_lt_order(a.drop_first(), a.drop_first(), a.drop_first());
    }
    if a.len() > 0 && b.len() > 0 {
        if c.len() > 0 {
            lemma_component_lt_order(a[0], b[0], c[0]);
            lemma_components_lt_order(a.drop_first(), b.drop_first(), c.drop_first());
        } else {
            lemma_component_lt_order(a[0], b[0], b[0]);
            lemma_components_lt_order(a.drop_first(), b.drop_first(), b.drop_first());
        }
        if a != b && a[0] == b[0] {
            if a.drop_first() == b.drop_first() {
                assert(a =~= seq![a[0]] + a.drop_first());
                assert(b =~= seq![b[0]] + b.drop_first());
            }
        }
    }
    if a.len() == 0 && b.len() == 0 {
        assert(a =~= b);
    }
}

/// Whether `a` sorts before `b` by their character codes.
pub fn chars_before(a: &Vec<char>, b: &Vec<char>) -> (r: bool)
    ensures
        r == chars_lt(a@, b@),
{
    let mut i: usize = 0;
    assert(a@.skip(0) =~= a@);
    assert(b@.skip(0) =~= b@);
    while i < a.len() && i < b.len()
        invariant
            i <= a@.len(),
            i <= b@.len(),
            chars_lt(a@, b@) == chars_lt(a@.skip(i as int), b@.skip(i as int)),
        decreases a@.len() - i,
    {
        assert(a@.skip(i as int).drop_first() =~= a@.skip(i + 1));
        assert(b@.skip(i as int).drop_first() =~= b@.skip(i + 1));
        let x = a[i];
        let y = b[i];
        if (x as u32) < (y as u32) {
            return true;
        }
        if x != y {
            return false;
        }
        i = i + 1;
    }
    i < b.len()
}

/// The kind position of an executable component.
fn part_rank(p: &Part) -> (r: u8)
    ensures
        r as int == component_rank(p.view()),
{
    match p {
        Part::RootDir => 0,
        Part::CurDir => 1,
        Part::ParentDir => 2,
        Part::Normal(_) => 3,
    }
}

/// Equality of two components.
pub fn part_eq(a: &Part, b: &Part) -> (r: bool)
    ensures
        r == (a.view() == b.view()),
{
    match (a, b) {
        (Part::RootDir, Part::RootDir) => true,
        (Part::CurDir, Part::CurDir) => true,
        (Part::ParentDir, Part::ParentDir) => true,
        (Part::Normal(x), Part::Normal(y)) => chars_eq(x.as_slice(), y.as_slice()),
        _ => false,
    }
}

/// Whether component `a` sorts before `b`.
fn part_before(a: &Part, b: &Part) -> (r: bool)
    ensures
        r == component_lt(a.view(), b.view()),
{
    match (a, b) {
        (Part::Normal(x), Part::Normal(y)) => chars_before(x, y),
        _ => part_rank(a) < part_rank(b),
    }
}

/// Whether the component sequence `a` sorts before `b`.
pub fn parts_before(a: &Vec<Part>, b: &Vec<Part>) -> (r: bool)
    ensures
        r == components_lt(parts_view(a@), parts_view(b@)),
{
    let ghost ga = parts_view(a@);
    let ghost gb = parts_view(b@);
    let mut i: usize = 0;
    assert(ga.skip(0) =~= ga);
    assert(gb.skip(0) =~= gb);
    while i < a.len() && i < b.len()
        invariant
            i <= a@.len(),
            i <= b@.len(),
            ga == parts_view(a@),
            gb == parts_view(b@),
            components_lt(ga, gb) == components_lt(ga.skip(i as int), gb.skip(i as int)),
        decreases a@.len() - i,
    {
        assert(ga.skip(i as int).drop_first() =~= ga.skip(i + 1));
        assert(gb.skip(i as int).drop_first() =~= gb.skip(i + 1));
        assert(ga.skip(i as int)[0] == a@[i as int].view());
        assert(gb.skip(i as int)[0] == b@[i as int].view());
        if part_before(&a[i], &b[i]) {
            return true;
        }
        if !part_eq(&a[i], &b[i]) {
            return false;
        }
        i = i + 1;
    }
    i < b.len()
}

/// `prefix`'s components are a prefix of `c`'s.
pub fn parts_prefix(prefix: &Vec<Part>, c: &Vec<Part>) -> (r: bool)
    ensures
        r == parts_view(prefix@).is_prefix_of(parts_view(c@)),
{
    if prefix.len() > c.len() {
        return false;
    }
    let mut i: usize = 0;
    while i < prefix.len()
        invariant
            prefix@.len() <= c@.len(),
            i <= prefix@.len(),
            forall|k: int| 0 <= k < i ==> parts_view(prefix@)[k] == parts_view(c@)[k],
        decreases prefix@.len() - i,
    {
        if !part_eq(&prefix[i], &c[i]) {
            assert(parts_view(prefix@)[i as int] != parts_view(c@)[i as int]);
            return false;
        }
        i = i + 1;
    }
    true
}

/// Whether two component lists are equal.
pub fn parts_equal(a: &Vec<Part>, b: &Vec<Part>) -> (r: bool)
    ensures
        r == (parts_view(a@) == parts_view(b@)),
{
    if a.len() != b.len() {
        return false;
    }
    let r = parts_prefix(a, b);
    assert(r ==> parts_view(a@) =~= parts_view(b@));
    r
}

/// The component lists of a list of part lists.
pub open spec fn keys_view(keys: Seq<Vec<Part>>) -> Seq<Seq<Component>> {
    Seq::new(keys.len(), |i: int| parts_view(keys[i]@))
}

/// Strictly increasing in path order (so free of duplicates).
pub open spec fn parts_sorted(s: Seq<Seq<Component>>) -> bool {
    forall|i: int, j: int| 0 <= i < j < s.len() ==> components_lt(#[trigger] s[i], #[trigger] s[j])
}

/// Where `p` sits in a strictly sorted list of component lists.
pub open spec fn parts_slot(s: Seq<Seq<Component>>, p: Seq<Component>, pos: int, found: bool) -> bool {
    &&& 0 <= pos <= s.len()
    &&& forall|k: int| 0 <= k < pos ==> components_lt(#[trigger] s[k], p)
    &&& found ==> pos < s.len() && s[pos] == p
    &&& !found ==> forall|k: int| pos <= k < s.len() ==> components_lt(p, #[trigger] s[k])
}

/// Finds where `p` belongs in the strictly sorted `keys` (binary search).
pub fn find_parts_slot(keys: &Vec<Vec<Part>>, p: &Vec<Part>) -> (r: (bool, usize))
    requires
        parts_sorted(keys_view(keys@)),
    ensures
        parts_slot(keys_view(keys@), parts_view(p@), r.1 as int, r.0),
        r.0 <==> keys_view(keys@).contains(parts_view(p@)),
{
    let ghost s = keys_view(keys@);
    let ghost pv = parts_view(p@);
    let mut lo: usize = 0;
    let mut hi: usize = keys.len();
    while lo < hi
        invariant
            lo <= hi <= keys@.len(),
            s == keys_view(keys@),
            pv == parts_view(p@),
            parts_sorted(s),
            forall|m: int| 0 <= m < lo ==> components_lt(#[trigger] s[m], pv),
            forall|m: int| hi <= m < s.len() ==> !components_lt(#[trigger] s[m], pv),
        decreases hi - lo,
    {
        let mid = lo + (hi - lo) / 2;
        if parts_before(&keys[mid], p) {
            proof {
                assert forall|m: int| 0 <= m < mid + 1 implies components_lt(#[trigger] s[m], pv) by {
                    if m < mid {
                        lemma_components_lt_order(s[m], s[mid as int], pv);
                    }
                }
            }
            lo = mid + 1;
        } else {
            proof {
                assert forall|m: int| mid <= m < s.len() implies !components_lt(#[trigger] s[m], pv) by {
                    if m > mid && components_lt(s[m], pv) {
                        lemma_components_lt_order(s[mid as int], s[m], pv);
                    }
                }
            }
            hi = mid;
        }
    }
    let found = lo < keys.len() && parts_equal(&keys[lo], p);
    proof {
        if lo < s.len() && !found {
            lemma_components_lt_order(s[lo as int], pv, s[lo as int]);
            assert forall|m: int| lo <= m < s.len() implies components_lt(pv, #[trigger] s[m]) by {
                if m > lo {
                    lemma_components_lt_order(pv, s[lo as int], s[m]);
                }
            }
        }
        if found {
            assert(s[lo as int] == pv);
        } else if s.contains(pv) {
            let j = choose|j: int| 0 <= j < s.len() && s[j] == pv;
            lemma_components_lt_order(pv, pv, pv);
            if j < lo {
                assert(components_lt(s[j], pv));
            } else {
                assert(components_lt(pv, s[j]));
            }
        }
    }
    (found, lo)
}

/// Inserting at a slot keeps a list of component lists strictly sorted.
pub proof fn lemma_insert_parts_sorted(s: Seq<Seq<Component>>, p: Seq<Component>, pos: int)
    requires
        parts_sorted(s),
        parts_slot(s, p, pos, false),
    ensures
        parts_sorted(s.insert(pos, p)),
{
    let t = s.insert(pos, p);
    assert forall|i: int, j: int| 0 <= i < j < t.len() implies components_lt(#[trigger] t[i], #[trigger] t[j]) by {
        if j < pos {
        } else if j == pos {
        } else if i == pos {
            assert(t[j] == s[j - 1]);
        } else if i < pos {
            assert(t[j] == s[j - 1]);
            lemma_components_lt_order(s[i], p, s[j - 1]);
        } else {
            assert(t[i] == s[i - 1] && t[j] == s[j - 1]);
        }
    }
}

/// Every path is the same as or under itself.
pub proof fn lemma_same_or_under_reflexive(p: Seq<char>)
    ensures
        same_or_under(p, p),
{
}

/// Beneath is transitive: under something under `c` is under `c`.
pub proof fn lemma_same_or_under_transitive(a: Seq<char>, b: Seq<char>, c: Seq<char>)
    requires
        same_or_under(a, b),
        same_or_under(b, c),
    ensures
        same_or_under(a, c),
{
    if a != b && b != c {
        assert(c.is_prefix_of(a)) by {
            assert forall|i: int| 0 <= i < c.len() implies c[i] == a[i] by {
                assert(c[i] == b[i]);
                assert(b[i] == a[i]);
            }
        }
        assert(a[c.len() as int] == b[c.len() as int]);
        if c.len() > 0 {
            assert(c.last() == c[c.len() - 1]);
        }
    }
}

/// The relation respects component boundaries: a path that continues a
/// `prefix` not ending in `/` with anything but a `/` is not beneath it
/// (`/a/bc` is not under `/a/b`).
pub proof fn lemma_same_or_under_boundary(prefix: Seq<char>, rest: Seq<char>)
    requires
        rest.len() > 0,
        rest[0] != '/',
        prefix.len() == 0 || prefix.last() != '/',
    ensures
        !same_or_under(prefix + rest, prefix),
{
    assert((prefix + rest)[prefix.len() as int] == rest[0]);
    assert(prefix + rest != prefix) by {
        assert((prefix + rest).len() != prefix.len());
    }
}

/// A prefix ending in `/` holds every longer path it starts: `/a` is under
/// `/`.
pub proof fn lemma_same_or_under_slash_prefix(prefix: Seq<char>, rest: Seq<char>)
    requires
        prefix.len() > 0,
        prefix.last() == '/',
    ensures
        same_or_under(prefix + rest, prefix),
{
    assert(prefix.is_prefix_of(prefix + rest)) by {
        assert forall|i: int| 0 <= i < prefix.len() implies prefix[i] == (prefix + rest)[i] by {}
    }
    if rest.len() == 0 {
        assert(prefix + rest =~= prefix);
    }
}

} // verus!
