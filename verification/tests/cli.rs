use blaze::cli::{build_kv_command, partition_name, should_set_cwd, Action, FdiskSubCommand, KvPartitionArgGroup, KvSubCommand};
use blaze::command::{
    ensure_partition_is_new, is_partition_entry, partition_listing, validate_partition_path, KVCommand,
};
use blaze::kv::{KeyMetadata, KeyValueStore};
use blaze::vfs::{cwd_next, fmt_file, fmt_partition_sub, fmt_sub, CwdAction, RootType};

#[test]
fn partition_names() {
    assert_eq!(partition_name(None, true), "global");
    assert_eq!(partition_name(Some("docs".to_string()), true), "global");
    assert_eq!(partition_name(Some("docs".to_string()), false), "docs");
}

#[test]
fn kv_commands_from_the_command_line() {
    let get = build_kv_command(KvSubCommand::Get {
        group: KvPartitionArgGroup { global: true, partition: None },
        key: "k".to_string(),
    });
    assert!(matches!(get, KVCommand::Get { ref partition, ref key } if partition == "global" && key == "k"));
    let put = build_kv_command(KvSubCommand::Put {
        group: KvPartitionArgGroup { global: false, partition: Some("docs".to_string()) },
        key: "k".to_string(),
        value: "v".to_string(),
    });
    assert!(matches!(put, KVCommand::Put { ref partition, ref key, ref value }
        if partition == "docs" && key == "k" && value == "v"));
    let hash = build_kv_command(KvSubCommand::Hash { key: "k".to_string() });
    assert!(matches!(hash, KVCommand::Hash { ref key } if key == "k"));
}

#[test]
fn only_init_runs_anywhere() {
    assert!(!should_set_cwd(&Action::Init));
    assert!(should_set_cwd(&Action::Diff { first: "a".to_string(), second: "b".to_string() }));
    assert!(should_set_cwd(&Action::Fdisk { fdisk_sub_command: FdiskSubCommand::List }));
}

#[test]
fn store_of_a_partition_name() {
    let global = "global".to_string();
    assert!(matches!(KVCommand::get_kv_store(&global), KeyValueStore::Global));
    let docs = "docs".to_string();
    assert!(matches!(KVCommand::get_kv_store(&docs), KeyValueStore::Partition(p) if p == "docs"));
}

#[test]
fn new_partition_names() {
    assert!(ensure_partition_is_new(&None, "docs").is_ok());
    assert_eq!(
        ensure_partition_is_new(&Some("path".to_string()), "docs"),
        Err("partition docs already exists".to_string())
    );
}

#[test]
fn partition_directories() {
    assert!(validate_partition_path("d", true, true).is_ok());
    assert_eq!(validate_partition_path("d", false, true), Err("directory d does not exist".to_string()));
    assert_eq!(validate_partition_path("d", false, false), Err("directory d does not exist".to_string()));
    assert_eq!(validate_partition_path("d", true, false), Err("directory d is not empty".to_string()));
}

#[test]
fn partition_entries_of_the_global_store() {
    let md = |m: Option<&str>| KeyMetadata { key: "k".to_string(), metadata: m.map(|s| s.to_string()) };
    assert!(is_partition_entry(&md(Some("partition"))));
    assert!(!is_partition_entry(&md(Some("other"))));
    assert!(!is_partition_entry(&md(None)));
    assert_eq!(partition_listing("docs", "sub/docs"), "docs => sub/docs");
}

#[test]
fn metadata_paths() {
    assert_eq!(fmt_sub("db"), ".blaze/db");
    assert_eq!(fmt_partition_sub("docs", "db"), "docs/.blaze/db");
    assert_eq!(fmt_file("commits", "abc"), ".blaze/commits/abc");
}

#[test]
fn unanchored_commands_stay_where_they_are() {
    assert_eq!(cwd_next(RootType::Unanchored, None), CwdAction::Stay);
}

#[test]
fn a_partition_anchor_stops_at_the_nearest_metadata_directory() {
    assert_eq!(cwd_next(RootType::Partition, None), CwdAction::MoveToNearest);
    assert_eq!(cwd_next(RootType::Partition, Some(false)), CwdAction::Stay);
    assert_eq!(cwd_next(RootType::Partition, Some(true)), CwdAction::Stay);
}

#[test]
fn a_repository_anchor_climbs_to_the_root_repository() {
    assert_eq!(cwd_next(RootType::Repository, None), CwdAction::MoveToNearest);
    assert_eq!(cwd_next(RootType::Repository, Some(false)), CwdAction::MoveUp);
    assert_eq!(cwd_next(RootType::Repository, Some(true)), CwdAction::Stay);
}
