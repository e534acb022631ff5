use std::collections::HashMap;
use blaze::commit::{commit_path, compute_hash, Author, Commit, Reference};
use blaze::partition::{CommitGraph, Partition};

fn sample(timestamp: u64) -> Commit {
    Commit::with_timestamp(
        Author { name: "Ada".to_string(), email: "ada@example.com".to_string() },
        "init".to_string(),
        "first commit".to_string(),
        Reference { path_map: HashMap::new() },
        timestamp,
    )
}

#[test]
fn commit_hash_is_sha512_of_author_text_and_time() {
    assert_eq!(
        compute_hash(&sample(1700000000)),
        "24f5c53c7cbc8efe3a8b211e81d94234db6911707d0f55cc2e72ae36a5aa9db3811b76bf3fc9e3e25acb76201cb100e21004b757ff558aeae9614e9116ac6fdd"
    );
}

#[test]
fn commit_hash_depends_on_time() {
    assert_ne!(compute_hash(&sample(1)), compute_hash(&sample(2)));
}

#[test]
fn new_commit_keeps_its_fields() {
    let c = Commit::new(
        Author { name: "n".to_string(), email: "e".to_string() },
        "t".to_string(),
        "m".to_string(),
        Reference { path_map: HashMap::new() },
    )
    .expect("the clock is after the epoch");
    assert_eq!(c.title, "t");
    assert_eq!(c.message, "m");
    assert_eq!(c.author.name, "n");
    assert!(c.timestamp > 1_600_000_000);
}

#[test]
fn commit_location() {
    assert_eq!(commit_path(&"abc".to_string()), ".blaze/commits/abc");
}

#[test]
fn linking_a_commit() {
    let partition = Partition { path: "docs".to_string(), latest_commit: "p".to_string() };
    assert_eq!(partition.commit_graph_path(&"h".to_string()), ".blaze/partition/docs/graph/h");
    let parent_graph = CommitGraph { parents: vec!["g".to_string()], children: vec!["c0".to_string()] };
    let update = partition.link_commit("c1".to_string(), "p".to_string(), parent_graph);
    assert_eq!(update.parent_path, ".blaze/partition/docs/graph/p");
    assert_eq!(update.commit_path, ".blaze/partition/docs/graph/c1");
    assert_eq!(update.parent_graph.parents, vec!["g".to_string()]);
    assert_eq!(update.parent_graph.children, vec!["c0".to_string(), "c1".to_string()]);
    assert_eq!(update.commit_graph.parents, vec!["p".to_string()]);
    assert!(update.commit_graph.children.is_empty());
}
