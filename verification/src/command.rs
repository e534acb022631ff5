//! The commands of the `blaze` tool, as data, and the decisions they make on
//! what they have read.

use vstd::prelude::*;
use vstd::string::StringExecFns;
use crate::kv::{KeyMetadata, KeyValueStore};

verus! {

/// Display the diff between two files.
pub struct DiffCommand {
    pub first: String,
    pub second: String,
}

/// 3-way merge between original (base), v1 and v2.
pub struct MergeCommand {
    pub original: String,
    pub v1: String,
    pub v2: String,
}

/// Initialize a new repository.
pub struct InitCommand;

/// Manage partitions.
pub enum FdiskCommand {
    List,
    Create { name: String, path: String },
}

/// Manipulate the internal key-value store.
pub enum KVCommand {
    Get { partition: String, key: String },
    Put { partition: String, key: String, value: String },
    Hash { key: String },
}

impl KVCommand {
    /// The store a partition name designates: `global` is the global store,
    /// any other name a partition's store.
    pub fn get_kv_store<'a>(partition: &'a String) -> (store: KeyValueStore<'a>)
        ensures
            partition@ == "global"@ ==> store is Global,
            partition@ != "global"@ ==> store == KeyValueStore::Partition(partition),
    {
        let global = String::from_str("global");
        if *partition == global {
            KeyValueStore::Global
        } else {
            KeyValueStore::Partition(partition)
        }
    }
}

/// The message when a partition name is taken.
pub open spec fn partition_exists_message(name: Seq<char>) -> Seq<char> {
    "partition "@ + name + " already exists"@
}

/// A new partition needs a name that the global store does not hold yet;
/// `existing` is what the store holds under `name`.
pub fn ensure_partition_is_new(existing: &Option<String>, name: &str) -> (res: Result<(), String>)
    ensures
        res is Ok <==> existing is None,
        res matches Err(msg) ==> msg@ == partition_exists_message(name@),
{
    if existing.is_some() {
        let mut msg = String::from_str("partition ");
        msg.append(name);
        msg.append(" already exists");
        Err(msg)
    } else {
        Ok(())
    }
}

/// The message when a partition directory is missing, and when it is not
/// empty.
pub open spec fn missing_dir_message(path: Seq<char>) -> Seq<char> {
    "directory "@ + path + " does not exist"@
}

pub open spec fn non_empty_dir_message(path: Seq<char>) -> Seq<char> {
    "directory "@ + path + " is not empty"@
}

/// A partition is created in an existing, empty directory; `exists` and
/// `is_empty` are what the file system says of `path`.
pub fn validate_partition_path(path: &str, exists: bool, is_empty: bool) -> (res: Result<(), String>)
    ensures
        res is Ok <==> (exists && is_empty),
        res matches Err(msg) ==> msg@ == (if !exists {
            missing_dir_message(path@)
        } else {
            non_empty_dir_message(path@)
        }),
{
    if !exists {
        let mut msg = String::from_str("directory ");
        msg.append(path);
        msg.append(" does not exist");
        return Err(msg);
    }
    /*
     * This is a temporary limitation to make partition creation easy; however,
     * long term, we want to support creating partitions in non-empty directories and
     * handle the history correctly.
     */
    if !is_empty {
        let mut msg = String::from_str("directory ");
        msg.append(path);
        msg.append(" is not empty");
        Err(msg)
    } else {
        Ok(())
    }
}

/// Whether a key of the global store names a partition: its metadata is
/// `partition`.
pub fn is_partition_entry(md: &KeyMetadata) -> (res: bool)
    ensures
        res <==> (md.metadata matches Some(m) && m@ == "partition"@),
{
    match &md.metadata {
        Some(m) => {
            let partition = String::from_str("partition");
            *m == partition
        },
        None => false,
    }
}

/// The listing line of a partition.
pub fn partition_listing(partition: &str, path: &str) -> (line: String)
    ensures
        line@ == partition@ + " => "@ + path@,
{
    let mut line = String::from_str(partition);
    line.append(" => ");
    line.append(path);
    line
}

} // verus!
