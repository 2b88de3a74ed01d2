//! The in-process entry points every consumer calls: the shell records a
//! visit at each `cd`, pickers read the ranked store. They resolve the same
//! store path everywhere, which is what lets the tools share one store with
//! no configuration.

use vstd::prelude::*;
use crate::config::{default_db_path, spec_db_path_in};
use crate::store::{log_of, DirStore, StoreError};
use crate::env::Timestamp;

verus! {

/// The store path the per-`cd` path uses: the `WADACHI_DB` override when
/// one is set, else the well-known default.
pub fn runtime_db_path_from(override_path: Option<String>) -> (r: String)
    ensures
        override_path matches Some(p) ==> r@ == p@,
        override_path is None ==> exists|base: Option<Seq<char>>| r@ == spec_db_path_in(base),
{
    match override_path {
        Some(p) => p,
        None => default_db_path(),
    }
}

/// Records a visit to `path` into `store`: the shell's per-`cd` hook. In a
/// store with a model, one instant is appended to `path`'s visit log and the
/// discovered set is left alone; a failed write changes nothing.
pub fn record<S: DirStore>(store: &mut S, path: &str) -> (r: Result<(), StoreError>)
    ensures
        old(store).modeled() ==> (r is Ok ==> exists|t: Timestamp| final(store).visit_map()
            == old(store).visit_map().insert(path@, log_of(old(store).visit_map(), path@).push(t))),
        old(store).modeled() ==> (r is Ok ==> final(store).discovered_set() == old(store).discovered_set()),
        old(store).modeled() ==> (r is Err ==> final(store).visit_map() == old(store).visit_map()
            && final(store).discovered_set() == old(store).discovered_set()),
        old(store).never_fails() ==> r is Ok,
        final(store).modeled() == old(store).modeled(),
{
    store.record(path)
}

} // verus!
