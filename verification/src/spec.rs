//! The ranking algorithm as typed data: decay shape, combine shape, the
//! phase pipeline, and the named instances every consumer selects from.

use vstd::prelude::*;
use crate::binary64::Binary64;
use crate::env::Timestamp;
use crate::matching::MatchProfile;
use crate::text::{chars_eq, chars_of};

verus! {

/// How a single visit's age (in days) decays into a recency weight.
#[derive(Debug, Clone, Copy, PartialEq, Eq, Structural)]
pub enum DecayKind {
    /// `1 / (1 + age_days)`.
    HyperbolicDays,
    /// `2^(-age_days / half_life_days)`.
    ExpHalfLife,
    /// Time buckets: within the hour ×4, the day ×2, the week ×0.5, else ×0.25.
    ZoxideLogBuckets,
}

/// How per-visit decayed weights and the visit count fold into one score.
#[derive(Debug, Clone, Copy, PartialEq, Eq, Structural)]
pub enum CombineKind {
    /// `recency_weight · Σ decayed + freq_weight · freq`.
    RecencySumPlusFreq,
    /// `recency_weight · freq · decay(age of the most recent visit)`.
    FreqTimesLatestDecay,
}

impl CombineKind {
    /// Every variant.
    pub const ALL: [CombineKind; 2] = [CombineKind::RecencySumPlusFreq, CombineKind::FreqTimesLatestDecay];
}

impl Default for CombineKind {
    fn default() -> (r: Self)
        ensures
            r == CombineKind::RecencySumPlusFreq,
    {
        CombineKind::RecencySumPlusFreq
    }
}

/// One step of the ranking pipeline.
#[derive(Debug, Clone, Copy, PartialEq, Eq, Structural)]
pub enum RankPhase {
    /// Seed the working set from the input entries.
    LoadEntries,
    /// Compute each visit's age in days against the current time.
    ComputeAge,
    /// Decay every age into a recency weight.
    ApplyDecay,
    /// Fold decayed weights and visit count into a score.
    Combine,
    /// Give discovered-only entries exactly the indexed floor score.
    FloorIndexed,
    /// Drop candidates the needle does not match and scale the rest.
    MatchNeedle,
    /// Keep at most `keep` descendants beneath each kept ancestor.
    CollapseDescendants { keep: usize },
    /// Sort by score, descending.
    SortDesc,
    /// Keep only the first `n`.
    TopK { n: usize },
}

/// The canonical pipeline shared by the named instances.
pub open spec fn spec_canonical_phases() -> Seq<RankPhase> {
    seq![
        RankPhase::LoadEntries,
        RankPhase::ComputeAge,
        RankPhase::ApplyDecay,
        RankPhase::Combine,
        RankPhase::FloorIndexed,
        RankPhase::MatchNeedle,
        RankPhase::SortDesc,
        RankPhase::CollapseDescendants { keep: 0 },
        RankPhase::TopK { n: 50 },
    ]
}

/// The pipeline of the `substring-legacy` instance: the canonical one
/// without descendant collapse.
pub open spec fn spec_legacy_phases() -> Seq<RankPhase> {
    seq![
        RankPhase::LoadEntries,
        RankPhase::ComputeAge,
        RankPhase::ApplyDecay,
        RankPhase::Combine,
        RankPhase::FloorIndexed,
        RankPhase::MatchNeedle,
        RankPhase::SortDesc,
        RankPhase::TopK { n: 50 },
    ]
}

/// The encoding of the indexed floor score `0.001` shared by every instance.
pub const INDEXED_EPSILON_BITS: u64 = 0x3f50_624d_d2f1_a9fc;

/// The full ranking algorithm as data. Binary64 fields hold the encodings
/// of the decimal parameters.
#[derive(Debug, Clone)]
pub struct FrecencyRankingSpec {
    /// Instance name.
    pub name: String,
    /// Per-visit recency decay shape.
    pub decay: DecayKind,
    /// Half-life in days, read by [`DecayKind::ExpHalfLife`].
    pub half_life_days: Binary64,
    /// Weight on the visit count, read by [`CombineKind::RecencySumPlusFreq`].
    pub freq_weight: Binary64,
    /// Weight on the recency term.
    pub recency_weight: Binary64,
    /// How decayed weights and the visit count fold into one score.
    pub combine: CombineKind,
    /// Floor score of discovered-only entries.
    pub indexed_epsilon: Binary64,
    /// How a needle matches a path.
    pub matching: MatchProfile,
    /// The ordered pipeline.
    pub phases: Vec<RankPhase>,
}

/// The parameters an instance is made of, besides its name.
pub open spec fn spec_has_parameters(
    s: FrecencyRankingSpec,
    decay: DecayKind,
    half_life_bits: u64,
    freq_weight_bits: u64,
    combine: CombineKind,
    matching: MatchProfile,
    phases: Seq<RankPhase>,
) -> bool {
    &&& s.decay == decay
    &&& s.half_life_days.bits == half_life_bits
    &&& s.freq_weight.bits == freq_weight_bits
    &&& s.recency_weight.bits == 0x3ff0_0000_0000_0000
    &&& s.combine == combine
    &&& s.indexed_epsilon.bits == INDEXED_EPSILON_BITS
    &&& s.matching == matching
    &&& s.phases@ == phases
}

/// `s` is the `skimtab-parity` instance: `Σ 1/(1+age_days)`.
pub open spec fn spec_is_skimtab_parity(s: FrecencyRankingSpec) -> bool {
    &&& s.name@ == "skimtab-parity"@
    &&& spec_has_parameters(s, DecayKind::HyperbolicDays, 0, 0, CombineKind::RecencySumPlusFreq,
        spec_anchored(), spec_canonical_phases())
}

/// `s` is the `zoxide-parity` instance: `Σ 2^(-age/30d) + visits`.
pub open spec fn spec_is_zoxide_parity(s: FrecencyRankingSpec) -> bool {
    &&& s.name@ == "zoxide-parity"@
    &&& spec_has_parameters(s, DecayKind::ExpHalfLife, 0x403e_0000_0000_0000, 0x3ff0_0000_0000_0000,
        CombineKind::RecencySumPlusFreq, spec_anchored(), spec_canonical_phases())
}

/// `s` is the `substring-legacy` instance: unanchored matching, no collapse.
pub open spec fn spec_is_substring_legacy(s: FrecencyRankingSpec) -> bool {
    &&& s.name@ == "substring-legacy"@
    &&& spec_has_parameters(s, DecayKind::HyperbolicDays, 0, 0, CombineKind::RecencySumPlusFreq,
        spec_legacy_profile(), spec_legacy_phases())
}

/// `s` is the `praca-parity` instance: `visits × bucket(age of the last visit)`.
pub open spec fn spec_is_praca_parity(s: FrecencyRankingSpec) -> bool {
    &&& s.name@ == "praca-parity"@
    &&& spec_has_parameters(s, DecayKind::ZoxideLogBuckets, 0, 0, CombineKind::FreqTimesLatestDecay,
        spec_anchored(), spec_canonical_phases())
}

/// The anchored match profile.
pub open spec fn spec_anchored() -> MatchProfile {
    MatchProfile {
        basename_exact: Binary64 { bits: 0x4020_0000_0000_0000 },
        basename_prefix: Binary64 { bits: 0x4010_0000_0000_0000 },
        basename_subsequence: Binary64 { bits: 0x3ff0_0000_0000_0000 },
        component_prefix: Binary64 { bits: 0x3fe0_0000_0000_0000 },
        substring_anywhere: Binary64 { bits: 0x3fb9_9999_9999_999a },
        require_at_least: crate::matching::MatchKind::ComponentPrefix,
    }
}

/// The legacy match profile.
pub open spec fn spec_legacy_profile() -> MatchProfile {
    MatchProfile {
        basename_exact: Binary64 { bits: 0x3ff0_0000_0000_0000 },
        basename_prefix: Binary64 { bits: 0x3ff0_0000_0000_0000 },
        basename_subsequence: Binary64 { bits: 0x3ff0_0000_0000_0000 },
        component_prefix: Binary64 { bits: 0x3ff0_0000_0000_0000 },
        substring_anywhere: Binary64 { bits: 0x3ff0_0000_0000_0000 },
        require_at_least: crate::matching::MatchKind::SubstringAnywhere,
    }
}

/// The four instance names are pairwise distinct.
pub proof fn lemma_instance_names_distinct()
    ensures
        "skimtab-parity"@ != "zoxide-parity"@,
        "skimtab-parity"@ != "substring-legacy"@,
        "skimtab-parity"@ != "praca-parity"@,
        "zoxide-parity"@ != "substring-legacy"@,
        "zoxide-parity"@ != "praca-parity"@,
        "substring-legacy"@ != "praca-parity"@,
{
    reveal_strlit("skimtab-parity");
    reveal_strlit("zoxide-parity");
    reveal_strlit("substring-legacy");
    reveal_strlit("praca-parity");
    assert("skimtab-parity"@[1] != "substring-legacy"@[1]);
    assert("skimtab-parity"@[0] != "zoxide-parity"@[0]);
    assert("skimtab-parity"@[0] != "praca-parity"@[0]);
    assert("zoxide-parity"@[0] != "substring-legacy"@[0]);
    assert("zoxide-parity"@[0] != "praca-parity"@[0]);
    assert("substring-legacy"@[0] != "praca-parity"@[0]);
}

impl FrecencyRankingSpec {
    /// The canonical pipeline shared by every named instance.
    pub fn canonical_phases() -> (r: Vec<RankPhase>)
        ensures
            r@ == spec_canonical_phases(),
    {
        let r = vec![
            RankPhase::LoadEntries,
            RankPhase::ComputeAge,
            RankPhase::ApplyDecay,
            RankPhase::Combine,
            RankPhase::FloorIndexed,
            RankPhase::MatchNeedle,
            RankPhase::SortDesc,
            RankPhase::CollapseDescendants { keep: 0 },
            RankPhase::TopK { n: 50 },
        ];
        assert(r@ =~= spec_canonical_phases());
        r
    }

    /// `Σ 1/(1+age_days)`, recency only. The fleet default.
    pub fn skimtab_parity() -> (r: Self)
        ensures
            spec_is_skimtab_parity(r),
    {
        let m = MatchProfile::anchored();
        FrecencyRankingSpec {
            name: "skimtab-parity".to_owned(),
            decay: DecayKind::HyperbolicDays,
            half_life_days: Binary64 { bits: 0 },
            freq_weight: Binary64 { bits: 0 },
            recency_weight: Binary64 { bits: 0x3ff0_0000_0000_0000 },
            combine: CombineKind::RecencySumPlusFreq,
            indexed_epsilon: Binary64 { bits: INDEXED_EPSILON_BITS },
            matching: m,
            phases: Self::canonical_phases(),
        }
    }

    /// `Σ 2^(-age/30d) + visits`.
    pub fn zoxide_parity() -> (r: Self)
        ensures
            spec_is_zoxide_parity(r),
    {
        let m = MatchProfile::anchored();
        FrecencyRankingSpec {
            name: "zoxide-parity".to_owned(),
            decay: DecayKind::ExpHalfLife,
            half_life_days: Binary64 { bits: 0x403e_0000_0000_0000 },
            freq_weight: Binary64 { bits: 0x3ff0_0000_0000_0000 },
            recency_weight: Binary64 { bits: 0x3ff0_0000_0000_0000 },
            combine: CombineKind::RecencySumPlusFreq,
            indexed_epsilon: Binary64 { bits: INDEXED_EPSILON_BITS },
            matching: m,
            phases: Self::canonical_phases(),
        }
    }

    /// Unanchored substring matching with no descendant collapse.
    pub fn substring_legacy() -> (r: Self)
        ensures
            spec_is_substring_legacy(r),
    {
        let m = MatchProfile::substring_legacy();
        let phases = vec![
            RankPhase::LoadEntries,
            RankPhase::ComputeAge,
            RankPhase::ApplyDecay,
            RankPhase::Combine,
            RankPhase::FloorIndexed,
            RankPhase::MatchNeedle,
            RankPhase::SortDesc,
            RankPhase::TopK { n: 50 },
        ];
        assert(phases@ =~= spec_legacy_phases());
        FrecencyRankingSpec {
            name: "substring-legacy".to_owned(),
            decay: DecayKind::HyperbolicDays,
            half_life_days: Binary64 { bits: 0 },
            freq_weight: Binary64 { bits: 0 },
            recency_weight: Binary64 { bits: 0x3ff0_0000_0000_0000 },
            combine: CombineKind::RecencySumPlusFreq,
            indexed_epsilon: Binary64 { bits: INDEXED_EPSILON_BITS },
            matching: m,
            phases,
        }
    }

    /// `visits × bucket(age of the last visit)`.
    pub fn praca_parity() -> (r: Self)
        ensures
            spec_is_praca_parity(r),
    {
        let m = MatchProfile::anchored();
        FrecencyRankingSpec {
            name: "praca-parity".to_owned(),
            decay: DecayKind::ZoxideLogBuckets,
            half_life_days: Binary64 { bits: 0 },
            freq_weight: Binary64 { bits: 0 },
            recency_weight: Binary64 { bits: 0x3ff0_0000_0000_0000 },
            combine: CombineKind::FreqTimesLatestDecay,
            indexed_epsilon: Binary64 { bits: INDEXED_EPSILON_BITS },
            matching: m,
            phases: Self::canonical_phases(),
        }
    }

    /// The instance named `name`, or `None` for an unknown name.
    pub fn by_name(name: &str) -> (r: Option<Self>)
        ensures
            name@ == "skimtab-parity"@ ==> (r matches Some(s) && spec_is_skimtab_parity(s)),
            name@ == "zoxide-parity"@ ==> (r matches Some(s) && spec_is_zoxide_parity(s)),
            name@ == "substring-legacy"@ ==> (r matches Some(s) && spec_is_substring_legacy(s)),
            name@ == "praca-parity"@ ==> (r matches Some(s) && spec_is_praca_parity(s)),
            r is None <==> (name@ != "skimtab-parity"@ && name@ != "zoxide-parity"@
                && name@ != "substring-legacy"@ && name@ != "praca-parity"@),
    {
        proof {
            lemma_instance_names_distinct();
        }
        let n = chars_of(name);
        if chars_eq(n.as_slice(), chars_of("skimtab-parity").as_slice()) {
            Some(Self::skimtab_parity())
        } else if chars_eq(n.as_slice(), chars_of("zoxide-parity").as_slice()) {
            Some(Self::zoxide_parity())
        } else if chars_eq(n.as_slice(), chars_of("substring-legacy").as_slice()) {
            Some(Self::substring_legacy())
        } else if chars_eq(n.as_slice(), chars_of("praca-parity").as_slice()) {
            Some(Self::praca_parity())
        } else {
            None
        }
    }

    /// The instance named `name` when there is one, else `skimtab-parity`.
    pub fn by_name_or_default(name: Option<&str>) -> (r: Self)
        ensures
            match name {
                Some(n) => if n@ == "zoxide-parity"@ {
                    spec_is_zoxide_parity(r)
                } else if n@ == "substring-legacy"@ {
                    spec_is_substring_legacy(r)
                } else if n@ == "praca-parity"@ {
                    spec_is_praca_parity(r)
                } else {
                    spec_is_skimtab_parity(r)
                },
                None => spec_is_skimtab_parity(r),
            },
    {
        match name {
            Some(n) => match Self::by_name(n) {
                Some(s) => s,
                None => Self::skimtab_parity(),
            },
            None => Self::skimtab_parity(),
        }
    }

    /// Every instance the spec ships.
    pub fn all() -> (r: Vec<Self>)
        ensures
            r@.len() == 4,
            spec_is_skimtab_parity(r@[0]),
            spec_is_zoxide_parity(r@[1]),
            spec_is_substring_legacy(r@[2]),
            spec_is_praca_parity(r@[3]),
    {
        let mut v: Vec<Self> = Vec::new();
        v.push(Self::skimtab_parity());
        v.push(Self::zoxide_parity());
        v.push(Self::substring_legacy());
        v.push(Self::praca_parity());
        v
    }
}

/// One candidate directory and the instants it was visited.
#[derive(Debug, Clone, PartialEq, Eq)]
pub struct DirEntry {
    /// Absolute path.
    pub path: String,
    /// Real-visit instants. Empty for a discovered-only entry.
    pub visits: Vec<Timestamp>,
    /// Surfaced by the indexer and never actually visited.
    pub discovered_only: bool,
}

/// A ranked directory and its score.
#[derive(Debug, Clone, PartialEq)]
pub struct RankedDir {
    /// Absolute path.
    pub path: String,
    /// Frecency score (higher = better).
    pub score: Binary64,
}

} // verus!
