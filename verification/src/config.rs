//! Typed, tiered configuration: `bare` (the documented floor), `discovered`
//! (`bare` plus what the machine reports: workspace roots, core count) and
//! the prescribed default (`discovered` plus curated indexer settings).
//!
//! Every tier resolves the same well-known store path, which is what lets
//! every consumer converge on one store with no configuration.

use vstd::prelude::*;
use crate::binary64::Binary64;
use crate::spec::{
    spec_is_praca_parity, spec_is_skimtab_parity, spec_is_substring_legacy, spec_is_zoxide_parity,
    FrecencyRankingSpec,
};
use crate::text::{chars_eq, chars_of, string_from_chars};
use crate::store::strings_view;

verus! {

/// Which configuration tier to materialize.
#[derive(Debug, Clone, Copy, PartialEq, Eq, Structural)]
pub enum ConfigTier {
    /// The documented floor: zero opinions, indexer off.
    Bare,
    /// `bare` plus runtime autodetect (data dir, workspace roots, core count).
    Discovered,
    /// `discovered` plus curated defaults.
    Default,
}

impl ConfigTier {
    /// The tier a `WADACHI_TIER` value selects: `bare`, `discovered`, and
    /// anything else (or no value) the prescribed default.
    pub fn from_name(value: Option<&str>) -> (r: Self)
        ensures
            r == (match value {
                Some(v) => if v@ == "bare"@ {
                    ConfigTier::Bare
                } else if v@ == "discovered"@ {
                    ConfigTier::Discovered
                } else {
                    ConfigTier::Default
                },
                None => ConfigTier::Default,
            }),
    {
        match value {
            Some(v) => {
                let c = chars_of(v);
                if chars_eq(c.as_slice(), chars_of("bare").as_slice()) {
                    ConfigTier::Bare
                } else if chars_eq(c.as_slice(), chars_of("discovered").as_slice()) {
                    ConfigTier::Discovered
                } else {
                    ConfigTier::Default
                }
            },
            None => ConfigTier::Default,
        }
    }
}

/// One directory tree the indexer walks, and how deep.
#[derive(Debug, Clone, PartialEq, Eq)]
pub struct IndexerRoot {
    /// The root directory.
    pub path: String,
    /// Levels below the root that are walked (1 = direct children).
    pub max_depth: usize,
}

impl IndexerRoot {
    /// The root `path`, walked `max_depth` levels deep.
    pub fn new(path: &str, max_depth: usize) -> (r: Self)
        ensures
            r.path@ == path@,
            r.max_depth == max_depth,
    {
        IndexerRoot { path: path.to_owned(), max_depth }
    }

    /// A copy of this root.
    pub fn copy(&self) -> (r: Self)
        ensures
            r.path@ == self.path@,
            r.max_depth == self.max_depth,
    {
        IndexerRoot { path: self.path.clone(), max_depth: self.max_depth }
    }
}

/// How the background indexer runs.
#[derive(Debug, Clone, PartialEq, Eq)]
pub struct IndexerConfig {
    /// Whether the indexer runs at all.
    pub enabled: bool,
    /// The trees it walks.
    pub roots: Vec<IndexerRoot>,
    /// Directory names it never records nor enters.
    pub ignore_names: Vec<String>,
    /// Whether `.`-prefixed directories are indexed.
    pub index_hidden: bool,
    /// Quiet window before a batch of watcher events is applied.
    pub debounce_ms: u64,
    /// Staleness bound: a root is re-walked at least this often.
    pub rewalk_interval_secs: u64,
    /// Bounded number of concurrent walks.
    pub concurrency: usize,
}

/// Where wadachi keeps its state and how it ranks and indexes.
#[derive(Debug, Clone, PartialEq)]
pub struct WadachiConfig {
    /// Path to the SQLite frecency database.
    pub db_path: String,
    /// Name of the ranking instance to rank with.
    pub ranking_instance: String,
    /// The background indexer's settings.
    pub indexer: IndexerConfig,
    /// Cap on stored entries (0 = uncapped).
    pub max_entries: usize,
    /// Visits older than this many days are eligible for cleanup (0 = never).
    pub cleanup_max_age_days: Binary64,
}

/// Depth at which a discovered workspace root (`~/code/<service>/<org>`)
/// is walked: the same reach as walking `~/code` six levels deep.
pub const WORKSPACE_ROOT_DEPTH: usize = 4;

/// Depth at which the prescribed `~/code` root is walked.
pub const CODE_ROOT_DEPTH: usize = 6;

/// Depth at which the prescribed home root is walked.
pub const HOME_ROOT_DEPTH: usize = 2;

/// The encoding of `180.0`, the prescribed cleanup age in days.
pub const PRESCRIBED_CLEANUP_DAYS_BITS: u64 = 0x4066_8000_0000_0000;

/// The characters of an optional string.
pub open spec fn opt_view(o: Option<String>) -> Option<Seq<char>> {
    match o {
        Some(s) => Some(s@),
        None => None,
    }
}

/// `PathBuf::push` of a relative `name` onto `base`: a separator is put
/// between them unless `base` is empty or already ends in one.
pub open spec fn spec_join(base: Seq<char>, name: Seq<char>) -> Seq<char> {
    if base.len() == 0 || base.last() == '/' {
        base + name
    } else {
        base + seq!['/'] + name
    }
}

/// The store path under the data directory `base` (`.` when there is none):
/// `<base>/wadachi/dirs.db`.
pub open spec fn spec_db_path_in(base: Option<Seq<char>>) -> Seq<char> {
    let b = match base {
        Some(b) => b,
        None => seq!['.'],
    };
    spec_join(spec_join(b, "wadachi"@), "dirs.db"@)
}

/// The ignore names of the prescribed tier, in order.
pub open spec fn spec_prescribed_ignores() -> Seq<Seq<char>> {
    seq![
        ".git"@, "node_modules"@, "target"@, "__pycache__"@, ".direnv"@, "result"@, ".cargo"@,
        ".rustup"@, ".cache"@, "Library"@, ".Trash"@,
    ]
}

/// `r` is the bare configuration: the store at `<base>/wadachi/dirs.db`
/// for some data directory `base`, the fleet's default ranking, the indexer
/// off with nothing configured, one walk at a time, no entry cap and no
/// cleanup.
pub open spec fn spec_bare(r: WadachiConfig) -> bool {
    &&& exists|base: Option<Seq<char>>| r.db_path@ == spec_db_path_in(base)
    &&& r.ranking_instance@ == "skimtab-parity"@
    &&& !r.indexer.enabled
    &&& r.indexer.roots@.len() == 0
    &&& r.indexer.ignore_names@.len() == 0
    &&& !r.indexer.index_hidden
    &&& r.indexer.debounce_ms == 0
    &&& r.indexer.rewalk_interval_secs == 0
    &&& r.indexer.concurrency == 1
    &&& r.max_entries == 0
    &&& r.cleanup_max_age_days.bits == 0
}

/// `r` is the bare configuration with the workspace directories
/// `workspace_roots` as indexer roots (walked [`WORKSPACE_ROOT_DEPTH`] deep)
/// and `parallelism` concurrent walks.
pub open spec fn spec_discovered(workspace_roots: Seq<Seq<char>>, parallelism: usize, r: WadachiConfig) -> bool {
    &&& exists|base: Option<Seq<char>>| r.db_path@ == spec_db_path_in(base)
    &&& r.ranking_instance@ == "skimtab-parity"@
    &&& !r.indexer.enabled
    &&& r.indexer.roots@.len() == workspace_roots.len()
    &&& forall|i: int| 0 <= i < workspace_roots.len() ==> {
        &&& (#[trigger] r.indexer.roots@[i]).path@ == workspace_roots[i]
        &&& r.indexer.roots@[i].max_depth == WORKSPACE_ROOT_DEPTH
    }
    &&& r.indexer.ignore_names@.len() == 0
    &&& !r.indexer.index_hidden
    &&& r.indexer.debounce_ms == 0
    &&& r.indexer.rewalk_interval_secs == 0
    &&& r.indexer.concurrency == parallelism
    &&& r.max_entries == 0
    &&& r.cleanup_max_age_days.bits == 0
}

/// `r` is `d` with the curated defaults applied for the home directory
/// `home`: the indexer on, `<home>/code` (deep) and `<home>` (shallow)
/// appended to the roots when there is a home directory, the standard ignore
/// set, a half-second debounce, a fifteen-minute re-walk bound, at least
/// eight concurrent walks, a cap of fifty thousand entries and a 180-day
/// cleanup age. Everything else is `d`'s.
pub open spec fn spec_prescribed(d: WadachiConfig, home: Option<Seq<char>>, r: WadachiConfig) -> bool {
    let n = d.indexer.roots@.len() as int;
    &&& r.db_path@ == d.db_path@
    &&& r.ranking_instance@ == d.ranking_instance@
    &&& r.indexer.enabled
    &&& r.indexer.index_hidden == d.indexer.index_hidden
    &&& r.indexer.roots@.len() == n + (if home is Some { 2int } else { 0int })
    &&& forall|i: int| 0 <= i < n ==> {
        &&& (#[trigger] r.indexer.roots@[i]).path@ == d.indexer.roots@[i].path@
        &&& r.indexer.roots@[i].max_depth == d.indexer.roots@[i].max_depth
    }
    &&& home matches Some(h) ==> {
        &&& r.indexer.roots@[n].path@ == spec_join(h, "code"@)
        &&& r.indexer.roots@[n].max_depth == CODE_ROOT_DEPTH
        &&& r.indexer.roots@[n + 1].path@ == h
        &&& r.indexer.roots@[n + 1].max_depth == HOME_ROOT_DEPTH
    }
    &&& r.indexer.ignore_names@.len() == spec_prescribed_ignores().len()
    &&& forall|i: int| 0 <= i < spec_prescribed_ignores().len() ==>
        (#[trigger] r.indexer.ignore_names@[i])@ == spec_prescribed_ignores()[i]
    &&& r.indexer.debounce_ms == 500
    &&& r.indexer.rewalk_interval_secs == 900
    &&& r.indexer.concurrency == (if d.indexer.concurrency < 8 { 8 } else { d.indexer.concurrency })
    &&& r.max_entries == 50_000
    &&& r.cleanup_max_age_days.bits == PRESCRIBED_CLEANUP_DAYS_BITS
}

/// `base` joined with the relative `name`, as [`spec_join`] describes.
pub fn join(base: &str, name: &str) -> (r: String)
    ensures
        r@ == spec_join(base@, name@),
{
    let mut out = chars_of(base);
    let needs_sep = out.len() > 0 && out[out.len() - 1] != '/';
    if needs_sep {
        out.push('/');
    }
    let ghost head = out@;
    let tail = chars_of(name);
    let mut i: usize = 0;
    while i < tail.len()
        invariant
            i <= tail@.len(),
            out@ == head + tail@.take(i as int),
        decreases tail@.len() - i,
    {
        out.push(tail[i]);
        i = i + 1;
        assert(out@ =~= head + tail@.take(i as int));
    }
    assert(tail@.take(tail@.len() as int) =~= tail@);
    proof {
        if needs_sep {
            assert(head =~= base@ + seq!['/']);
        } else {
            assert(head =~= base@);
        }
    }
    string_from_chars(out.as_slice())
}

/// The store path under the data directory `base`; see [`spec_db_path_in`].
pub fn db_path_in(base: Option<String>) -> (r: String)
    ensures
        r@ == spec_db_path_in(opt_view(base)),
{
    let b = match base {
        Some(b) => b,
        None => ".".to_owned(),
    };
    proof {
        reveal_strlit(".");
    }
    let dir = join(b.as_str(), "wadachi");
    join(dir.as_str(), "dirs.db")
}

/// The platform's per-user data directory (`dirs::data_dir`), as a string.
///
/// Nothing is claimed of it: it comes from the environment (`XDG_DATA_HOME`,
/// the home directory) and the platform.
#[verifier::external_body]
fn data_dir() -> (r: Option<String>) {
    dirs::data_dir().map(|p| p.to_string_lossy().into_owned())
}

/// The user's home directory (`dirs::home_dir`), as a string.
///
/// Nothing is claimed of it: it comes from the environment and the
/// platform's user database.
#[verifier::external_body]
fn home_dir() -> (r: Option<String>) {
    dirs::home_dir().map(|p| p.to_string_lossy().into_owned())
}

/// The well-known store path, `<data dir>/wadachi/dirs.db`, which every
/// consumer resolves to.
pub fn default_db_path() -> (r: String)
    ensures
        exists|base: Option<Seq<char>>| r@ == spec_db_path_in(base),
{
    let base = data_dir();
    let ghost b = opt_view(base);
    let r = db_path_in(base);
    assert(r@ == spec_db_path_in(b));
    r
}

impl WadachiConfig {
    /// The documented floor: the standard store path, the fleet's default
    /// ranking, the indexer off with nothing configured.
    pub fn bare() -> (r: Self)
        ensures
            spec_bare(r),
    {
        WadachiConfig {
            db_path: default_db_path(),
            ranking_instance: "skimtab-parity".to_owned(),
            indexer: IndexerConfig {
                enabled: false,
                roots: Vec::new(),
                ignore_names: Vec::new(),
                index_hidden: false,
                debounce_ms: 0,
                rewalk_interval_secs: 0,
                concurrency: 1,
            },
            max_entries: 0,
            cleanup_max_age_days: Binary64 { bits: 0 },
        }
    }

    /// `bare` plus what the machine reports: the workspace directories
    /// (`~/code/<service>/<org>`) as indexer roots, and the core count as the
    /// indexer's concurrency.
    pub fn discovered_from(workspace_roots: Vec<String>, parallelism: usize) -> (r: Self)
        ensures
            spec_discovered(strings_view(workspace_roots@), parallelism, r),
    {
        let mut c = Self::bare();
        let mut roots: Vec<IndexerRoot> = Vec::new();
        for w in it: workspace_roots
            invariant
                it.seq().len() == workspace_roots@.len(),
                forall|k: int| 0 <= k < workspace_roots@.len() ==> #[trigger] it.seq()[k] == workspace_roots@[k],
                roots@.len() == it.index(),
                forall|k: int| 0 <= k < roots@.len() ==> {
                    &&& (#[trigger] roots@[k]).path@ == workspace_roots@[k]@
                    &&& roots@[k].max_depth == WORKSPACE_ROOT_DEPTH
                },
        {
            let ghost idx = it.index() as int;
            assert(w == workspace_roots@[idx]);
            roots.push(IndexerRoot { path: w, max_depth: WORKSPACE_ROOT_DEPTH });
        }
        c.indexer.roots = roots;
        c.indexer.concurrency = parallelism;
        c
    }

    /// `discovered` plus the curated defaults (see [`spec_prescribed`]) for
    /// the home directory `home`.
    pub fn prescribed_from(discovered: Self, home: Option<String>) -> (r: Self)
        ensures
            spec_prescribed(discovered, opt_view(home), r),
    {
        let ghost hv = opt_view(home);
        let ghost d = discovered;
        let mut c = discovered;
        c.indexer.enabled = true;
        match home {
            Some(h) => {
                let code = join(h.as_str(), "code");
                c.indexer.roots.push(IndexerRoot { path: code, max_depth: CODE_ROOT_DEPTH });
                c.indexer.roots.push(IndexerRoot { path: h, max_depth: HOME_ROOT_DEPTH });
            },
            None => {},
        }
        let mut names: Vec<String> = Vec::new();
        names.push(".git".to_owned());
        names.push("node_modules".to_owned());
        names.push("target".to_owned());
        names.push("__pycache__".to_owned());
        names.push(".direnv".to_owned());
        names.push("result".to_owned());
        names.push(".cargo".to_owned());
        names.push(".rustup".to_owned());
        names.push(".cache".to_owned());
        names.push("Library".to_owned());
        names.push(".Trash".to_owned());
        c.indexer.ignore_names = names;
        c.indexer.debounce_ms = 500;
        c.indexer.rewalk_interval_secs = 900;
        if c.indexer.concurrency < 8 {
            c.indexer.concurrency = 8;
        }
        c.max_entries = 50_000;
        c.cleanup_max_age_days = Binary64 { bits: PRESCRIBED_CLEANUP_DAYS_BITS };
        assert(spec_prescribed(d, hv, c));
        c
    }

    /// `discovered` plus the curated defaults, for the user's home directory
    /// as the platform reports it.
    pub fn prescribed(discovered: Self) -> (r: Self)
        ensures
            exists|home: Option<Seq<char>>| spec_prescribed(discovered, home, r),
    {
        let home = home_dir();
        let ghost hv = opt_view(home);
        let r = Self::prescribed_from(discovered, home);
        assert(spec_prescribed(discovered, hv, r));
        r
    }

    /// The configuration of `tier`, given what the machine reports: its
    /// workspace roots and its core count (and, for the prescribed tier, the
    /// user's home directory as the platform reports it).
    pub fn for_tier(tier: ConfigTier, workspace_roots: Vec<String>, parallelism: usize) -> (r: Self)
        ensures
            tier is Bare ==> spec_bare(r),
            tier is Discovered ==> spec_discovered(strings_view(workspace_roots@), parallelism, r),
            tier is Default ==> exists|d: WadachiConfig, home: Option<Seq<char>>|
                spec_discovered(strings_view(workspace_roots@), parallelism, d) && #[trigger] spec_prescribed(d, home, r),
            exists|base: Option<Seq<char>>| r.db_path@ == spec_db_path_in(base),
    {
        match tier {
            ConfigTier::Bare => Self::bare(),
            ConfigTier::Discovered => Self::discovered_from(workspace_roots, parallelism),
            ConfigTier::Default => {
                let ghost ws = strings_view(workspace_roots@);
                let d = Self::discovered_from(workspace_roots, parallelism);
                let r = Self::prescribed(d);
                proof {
                    let home = choose|home: Option<Seq<char>>| spec_prescribed(d, home, r);
                    assert(spec_discovered(ws, parallelism, d) && spec_prescribed(d, home, r));
                    let base = choose|base: Option<Seq<char>>| d.db_path@ == spec_db_path_in(base);
                    assert(r.db_path@ == spec_db_path_in(base));
                }
                r
            },
        }
    }

    /// This configuration with the store path and the ranking instance
    /// replaced where an override is given (the `WADACHI_DB` and
    /// `WADACHI_RANKING` overlays).
    pub fn with_overrides(self, db_path: Option<String>, ranking: Option<String>) -> (r: Self)
        ensures
            r.db_path@ == (match db_path {
                Some(p) => p@,
                None => self.db_path@,
            }),
            r.ranking_instance@ == (match ranking {
                Some(n) => n@,
                None => self.ranking_instance@,
            }),
            r.indexer == self.indexer,
            r.max_entries == self.max_entries,
            r.cleanup_max_age_days == self.cleanup_max_age_days,
    {
        let mut c = self;
        match db_path {
            Some(p) => {
                c.db_path = p;
            },
            None => {},
        }
        match ranking {
            Some(n) => {
                c.ranking_instance = n;
            },
            None => {},
        }
        c
    }

    /// The ranking instance named by `ranking_instance`, or `skimtab-parity`
    /// for an unknown name.
    pub fn spec(&self) -> (r: FrecencyRankingSpec)
        ensures
            if self.ranking_instance@ == "zoxide-parity"@ {
                spec_is_zoxide_parity(r)
            } else if self.ranking_instance@ == "substring-legacy"@ {
                spec_is_substring_legacy(r)
            } else if self.ranking_instance@ == "praca-parity"@ {
                spec_is_praca_parity(r)
            } else {
                spec_is_skimtab_parity(r)
            },
    {
        FrecencyRankingSpec::by_name_or_default(Some(self.ranking_instance.as_str()))
    }
}

} // verus!
