//! The command line of the `blaze` tool, as plain data, and how it turns into
//! commands.

use vstd::prelude::*;
use vstd::string::StringExecFns;
use crate::command::KVCommand;

verus! {

/// The action the command line asks for.
pub enum Action {
    /// Display the diff between two files.
    Diff { first: String, second: String },
    /// 3-way merge between original (base), v1 and v2.
    Merge { original: String, v1: String, v2: String },
    /// Initialize a new blaze repository.
    Init,
    /// Manipulate the internal key-value store.
    Kv { kv_sub_command: KvSubCommand },
    /// Manage partitions
    Fdisk { fdisk_sub_command: FdiskSubCommand },
}

/// The key-value store operations.
pub enum KvSubCommand {
    /// Get a value from the key-value store.
    Get { group: KvPartitionArgGroup, key: String },
    /// Insert a value into the key-value store.
    Put { group: KvPartitionArgGroup, key: String, value: String },
    /// View the hash of a key.
    Hash { key: String },
}

/// Which store an operation addresses: the global one, or a named partition's;
/// exactly one of the two is given.
pub struct KvPartitionArgGroup {
    /// Use the global key-value store if set to true
    pub global: bool,
    /// Use the specified partition if set
    pub partition: Option<String>,
}

/// The partition operations.
pub enum FdiskSubCommand {
    /// List all the local partitions in the repository
    List,
    /// Create a new partition
    Create { name: String, path: String },
}

/// The store name a partition argument group designates.
pub open spec fn spec_partition_name(partition: Option<String>, global: bool) -> Seq<char> {
    if global {
        "global"@
    } else {
        partition.unwrap()@
    }
}

/// The name of the store a command addresses: `global` for the global store,
/// otherwise the partition's name.
pub fn partition_name(partition: Option<String>, global: bool) -> (name: String)
    requires
        global || partition is Some,
    ensures
        name@ == spec_partition_name(partition, global),
{
    if global {
        String::from_str("global")
    } else {
        partition.unwrap()
    }
}

/// The store operation a key-value subcommand stands for.
pub fn build_kv_command(kv_sub_command: KvSubCommand) -> (command: KVCommand)
    requires
        kv_sub_command matches KvSubCommand::Get { group, .. } ==> group.global || group.partition is Some,
        kv_sub_command matches KvSubCommand::Put { group, .. } ==> group.global || group.partition is Some,
    ensures
        match kv_sub_command {
            KvSubCommand::Get { group, key } => command matches KVCommand::Get { partition: p, key: k }
                && p@ == spec_partition_name(group.partition, group.global) && k == key,
            KvSubCommand::Put { group, key, value } => command matches KVCommand::Put {
                partition: p,
                key: k,
                value: v,
            } && p@ == spec_partition_name(group.partition, group.global) && k == key && v == value,
            KvSubCommand::Hash { key } => command matches KVCommand::Hash { key: k } && k == key,
        },
{
    match kv_sub_command {
        KvSubCommand::Get { group, key } => KVCommand::Get {
            partition: partition_name(group.partition, group.global),
            key,
        },
        KvSubCommand::Put { group, key, value } => KVCommand::Put {
            partition: partition_name(group.partition, group.global),
            key,
            value,
        },
        KvSubCommand::Hash { key } => KVCommand::Hash { key },
    }
}

/// Whether the action runs from the repository root. Initializing a new
/// repository does not: there is no repository root yet.
pub fn should_set_cwd(action: &Action) -> (res: bool)
    ensures
        res <==> !(action is Init),
{
    match action {
        Action::Init => false,
        _ => true,
    }
}

} // verus!
