//! The repository's metadata directory and the paths inside it.

use vstd::prelude::*;
use vstd::string::StringExecFns;

verus! {

/// The metadata directory at the root of a repository or partition.
pub const BLAZE_REPOSITORY_DIR: &'static str = ".blaze";

/// Where a command must run from: the repository root, the nearest
/// partition, or anywhere (`Unanchored`).
#[derive(Debug, Clone, Copy, PartialEq, Eq, Structural)]
pub enum RootType {
    Repository,
    Partition,
    Unanchored,
}

/// `sub_dir` inside the metadata directory.
pub fn fmt_sub(sub_dir: &str) -> (path: String)
    ensures
        path@ == BLAZE_REPOSITORY_DIR@ + "/"@ + sub_dir@,
{
    let mut path = String::from_str(BLAZE_REPOSITORY_DIR);
    path.append("/");
    path.append(sub_dir);
    path
}

/// `sub_dir` inside the metadata directory of the partition at `dir`.
pub fn fmt_partition_sub(dir: &str, sub_dir: &str) -> (path: String)
    ensures
        path@ == dir@ + "/"@ + BLAZE_REPOSITORY_DIR@ + "/"@ + sub_dir@,
{
    let mut path = String::from_str(dir);
    path.append("/");
    path.append(BLAZE_REPOSITORY_DIR);
    path.append("/");
    path.append(sub_dir);
    path
}

/// The file `file_name` in `sub_dir` inside the metadata directory.
pub fn fmt_file(sub_dir: &str, file_name: &str) -> (path: String)
    ensures
        path@ == BLAZE_REPOSITORY_DIR@ + "/"@ + sub_dir@ + "/"@ + file_name@,
{
    let mut path = fmt_sub(sub_dir);
    path.append("/");
    path.append(file_name);
    path
}

/// What moving to a command's root directory does next.
#[derive(Debug, Clone, Copy, PartialEq, Eq, Structural)]
pub enum CwdAction {
    /// Stay in the current directory: the command's root is reached.
    Stay,
    /// Move to the nearest directory, from the current one upwards, that holds
    /// a metadata directory.
    MoveToNearest,
    /// Move to the nearest directory above the current one that holds a
    /// metadata directory.
    MoveUp,
}

/// The next move towards the root of `root_type`. `arrived` is `None` before
/// any move, and after one tells whether the directory moved to is the root
/// repository (its metadata directory holds `db/root`). Only a repository
/// anchor climbs from a partition to the partition above it, until it reaches
/// the root repository.
pub open spec fn spec_cwd_next(root_type: RootType, arrived: Option<bool>) -> CwdAction {
    match arrived {
        None => if root_type == RootType::Unanchored {
            CwdAction::Stay
        } else {
            CwdAction::MoveToNearest
        },
        Some(is_root) => if root_type == RootType::Repository && !is_root {
            CwdAction::MoveUp
        } else {
            CwdAction::Stay
        },
    }
}

/// The next move towards the root of `root_type`; see `spec_cwd_next`.
pub fn cwd_next(root_type: RootType, arrived: Option<bool>) -> (action: CwdAction)
    ensures
        action == spec_cwd_next(root_type, arrived),
{
    match arrived {
        None => if root_type == RootType::Unanchored {
            CwdAction::Stay
        } else {
            CwdAction::MoveToNearest
        },
        Some(is_root) => if root_type == RootType::Repository && !is_root {
            CwdAction::MoveUp
        } else {
            CwdAction::Stay
        },
    }
}

/// Law: an anchored command first moves to the nearest metadata directory; a
/// partition anchor stops there, and a repository anchor stops exactly at a
/// directory that is the root repository, climbing otherwise. An unanchored
/// command never moves.
pub proof fn lemma_cwd_stops_at_its_root(root_type: RootType, is_root: bool)
    ensures
        spec_cwd_next(root_type, None) == CwdAction::Stay <==> root_type == RootType::Unanchored,
        spec_cwd_next(root_type, None) != CwdAction::Stay ==> spec_cwd_next(root_type, None) == CwdAction::MoveToNearest,
        spec_cwd_next(RootType::Partition, Some(is_root)) == CwdAction::Stay,
        spec_cwd_next(RootType::Repository, Some(is_root)) == CwdAction::Stay <==> is_root,
        spec_cwd_next(RootType::Repository, Some(is_root)) != CwdAction::Stay ==> spec_cwd_next(
            RootType::Repository,
            Some(is_root),
        ) == CwdAction::MoveUp,
{
}

} // verus!
