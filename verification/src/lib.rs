//! A worktree resource-lifecycle registry.
//!
//! The registry tracks one metadata entry and one lifecycle-managed resource
//! slot per linked git worktree of a repository, enforces that at most one
//! worktree is active at a time, keeps idle resource handles warm for a grace
//! period, and reconciles its view against an external worktree listing
//! without ever destroying the active entry.

pub mod order;
pub mod laws;
pub mod registry;
pub mod shell_env;
pub mod sorting;

use vstd::prelude::*;

verus! {

/// Identity of a repository, derived from its root path and, where known,
/// the common git directory shared by all linked worktrees.
pub fn derive_repo_identity_path(repo_root_path: &str, git_common_dir: Option<&str>) -> (r: String)
    ensures
        git_common_dir is Some ==> r@ == git_common_dir->Some_0@,
        git_common_dir is None ==> r@ == repo_root_path@,
{
    match git_common_dir {
        Some(p) => p.to_owned(),
        None => repo_root_path.to_owned(),
    }
}

} // verus!
