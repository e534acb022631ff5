use blaze::key::construct_key;
use blaze::kv::{ItemType, KeyValueStore, KeyValueStoreError, StoreStep};

#[test]
fn global_store_root() {
    assert_eq!(KeyValueStore::Global.get_db_root(None), ".blaze/db/global");
}

#[test]
fn partition_store_root_lies_in_the_partition() {
    let name = "docs".to_string();
    assert_eq!(KeyValueStore::Partition(&name).get_db_root(Some("sub/docs")), "sub/docs/.blaze/db");
}

#[test]
fn item_paths() {
    assert_eq!(
        KeyValueStore::get_kv_path(".blaze/db/global", "abc", ItemType::Value),
        ".blaze/db/global/abc/value"
    );
    assert_eq!(
        KeyValueStore::get_kv_path(".blaze/db/global", "abc", ItemType::Key),
        ".blaze/db/global/abc/key"
    );
    assert_eq!(KeyValueStore::get_key_dir("root", "abc"), "root/abc");
}

#[test]
fn item_paths_hash_the_key() {
    let hash = construct_key("name");
    assert_eq!(
        KeyValueStore::item_path("root", "name", ItemType::Value),
        format!("root/{}/value", hash)
    );
    assert_eq!(KeyValueStore::key_dir("root", "name"), format!("root/{}", hash));
}

#[test]
fn distinct_keys_and_items_have_distinct_paths() {
    let a_value = KeyValueStore::item_path("root", "a", ItemType::Value);
    let a_key = KeyValueStore::item_path("root", "a", ItemType::Key);
    let b_value = KeyValueStore::item_path("root", "b", ItemType::Value);
    assert_ne!(a_value, a_key);
    assert_ne!(a_value, b_value);
    assert_eq!(a_value, KeyValueStore::item_path("root", "a", ItemType::Value));
}

#[test]
fn store_error_message() {
    let err = KeyValueStoreError::new("failed to read db");
    assert_eq!(err.to_string(), "failed to read db");
}

#[test]
fn put_creates_the_key_directory_then_writes_metadata_then_value() {
    let hash = construct_key("name");
    let steps = KeyValueStore::put_steps("root", "name", "{\"key\":\"name\"}".to_string(), "v1");
    assert_eq!(steps.len(), 3);
    match &steps[0].step {
        StoreStep::CreateDir { path } => assert_eq!(path, &format!("root/{}", hash)),
        _ => panic!("the first step creates the key's directory"),
    }
    assert_eq!(steps[0].error, "failed to insert key structure");
    match &steps[1].step {
        StoreStep::WriteFile { path, contents } => {
            assert_eq!(path, &format!("root/{}/key", hash));
            assert_eq!(contents, "{\"key\":\"name\"}");
        }
        _ => panic!("the second step writes the metadata"),
    }
    assert_eq!(steps[1].error, "failed to insert key metadata");
    match &steps[2].step {
        StoreStep::WriteFile { path, contents } => {
            assert_eq!(path, &format!("root/{}/value", hash));
            assert_eq!(contents, "v1");
        }
        _ => panic!("the third step writes the value"),
    }
    assert_eq!(steps[2].error, "failed to insert key");
}

#[test]
fn item_files_lie_directly_in_the_key_directory() {
    let dir = KeyValueStore::key_dir("root", "name");
    for item in [ItemType::Key, ItemType::Value] {
        let path = KeyValueStore::item_path("root", "name", item);
        let rest = path.strip_prefix(&format!("{}/", dir)).expect("inside the key directory");
        assert!(!rest.contains('/'));
    }
}
