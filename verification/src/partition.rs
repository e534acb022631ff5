//! The commit graph of a partition: for each commit, its parents and its
//! children.

use vstd::prelude::*;
use vstd::string::StringExecFns;
use crate::commit::CommitHash;
use crate::vfs::BLAZE_REPOSITORY_DIR;

verus! {

/// A partition of the repository, with the last commit made in it.
pub struct Partition {
    pub path: String,
    pub latest_commit: CommitHash,
}

/// The edges of the commit graph at one commit.
pub struct CommitGraph {
    pub parents: Vec<CommitHash>,
    pub children: Vec<CommitHash>,
}

/// The two commit graph entries that linking a commit writes.
pub struct GraphUpdate {
    pub parent_path: String,
    pub parent_graph: CommitGraph,
    pub commit_path: String,
    pub commit_graph: CommitGraph,
}

/// Where the graph entry of commit `hash` of the partition at `path` is kept.
pub open spec fn graph_path(path: Seq<char>, hash: Seq<char>) -> Seq<char> {
    BLAZE_REPOSITORY_DIR@ + "/partition/"@ + path + "/graph/"@ + hash
}

impl Partition {
    /// Links a commit to its parent in the commit graph.
    ///
    /// Given the parent's graph entry as read, this yields the entries to
    /// write: the parent's, with `commit` added as its last child, and a new
    /// one for `commit`, with `parent` as its one parent and no children.
    pub fn link_commit(&self, commit: CommitHash, parent: CommitHash, parent_graph: CommitGraph) -> (update: GraphUpdate)
        ensures
            update.parent_path@ == graph_path(self.path@, parent@),
            update.commit_path@ == graph_path(self.path@, commit@),
            update.parent_graph.parents@ == parent_graph.parents@,
            update.parent_graph.children@ == parent_graph.children@.push(commit),
            update.commit_graph.parents@ == seq![parent],
            update.commit_graph.children@.len() == 0,
    {
        let parent_path = self.commit_graph_path(&parent);
        let commit_path = self.commit_graph_path(&commit);

        // Update the parent commit's graph
        let mut parent_graph = parent_graph;
        parent_graph.children.push(commit);

        // Create the new commit's graph
        let mut parents: Vec<CommitHash> = Vec::new();
        parents.push(parent);
        let commit_graph = CommitGraph { parents, children: Vec::new() };
        GraphUpdate { parent_path, parent_graph, commit_path, commit_graph }
    }

    /// Where the graph entry of commit `hash` is kept.
    pub fn commit_graph_path(&self, hash: &CommitHash) -> (path: String)
        ensures
            path@ == graph_path(self.path@, hash@),
    {
        let mut path = String::from_str(BLAZE_REPOSITORY_DIR);
        path.append("/partition/");
        path.append(self.path.as_str());
        path.append("/graph/");
        path.append(hash.as_str());
        path
    }
}

} // verus!
