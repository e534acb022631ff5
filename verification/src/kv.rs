//! The layout of the key-value store on disk. Each key lives in a directory
//! named by its hash under the store's root, holding a `key` file with the key
//! and its metadata and a `value` file with the value. The store does not
//! support deletion.

use vstd::prelude::*;
use vstd::string::StringExecFns;
use crate::key::{construct_key, key_of};

verus! {

/// The directory of the stores, relative to a repository or partition root.
pub const KV_PREFIX: &'static str = ".blaze/db";

/// A key-value store: the repository-wide one, or the one local to the named
/// partition.
pub enum KeyValueStore<'a> {
    Global,
    Partition(&'a String),
}

/// A key together with optional metadata about it.
#[derive(Debug)]
pub struct KeyMetadata {
    pub key: String,
    pub metadata: Option<String>,
}

/// Why a store operation failed.
#[derive(Debug)]
pub struct KeyValueStoreError {
    msg: &'static str,
}

impl KeyValueStoreError {
    /// The message of the error.
    pub closed spec fn message(&self) -> Seq<char> {
        self.msg@
    }

    pub fn new(msg: &'static str) -> (res: Self)
        ensures
            res.message() == msg@,
    {
        Self { msg }
    }

    /// The message of the error, as its `Display` writes it.
    pub fn to_string(&self) -> (res: String)
        ensures
            res@ == self.message(),
    {
        String::from_str(self.msg)
    }
}

/// The two files of a key.
pub enum ItemType {
    Key,
    Value,
}

/// The file name of an item.
pub open spec fn item_name(item_type: ItemType) -> Seq<char> {
    match item_type {
        ItemType::Key => "key"@,
        ItemType::Value => "value"@,
    }
}

/// The path of an item of the key whose hash is `key`, under `db_root`.
pub open spec fn kv_path(db_root: Seq<char>, key: Seq<char>, item_type: ItemType) -> Seq<char> {
    db_root + "/"@ + key + "/"@ + item_name(item_type)
}

/// The root of the global store.
pub open spec fn global_db_root() -> Seq<char> {
    KV_PREFIX@ + "/global"@
}

/// The root of the store of the partition located at `partition_path`.
pub open spec fn partition_db_root(partition_path: Seq<char>) -> Seq<char> {
    partition_path + "/"@ + KV_PREFIX@
}

impl KeyValueStore<'_> {
    /// The root directory of this store. A partition's store lies under the
    /// partition's own directory, `partition_path`, which the global store
    /// records under the partition's name.
    pub fn get_db_root(&self, partition_path: Option<&str>) -> (root: String)
        requires
            self is Partition ==> partition_path is Some,
        ensures
            root@ == (match self {
                KeyValueStore::Global => global_db_root(),
                KeyValueStore::Partition(_) => partition_db_root(partition_path.unwrap()@),
            }),
    {
        match self {
            KeyValueStore::Global => {
                let mut root = String::from_str(KV_PREFIX);
                root.append("/global");
                root
            },
            KeyValueStore::Partition(_) => {
                let mut root = String::from_str(partition_path.unwrap());
                root.append("/");
                root.append(KV_PREFIX);
                root
            },
        }
    }

    /// The path of an item of the key whose hash is `key`.
    pub fn get_kv_path(db_root: &str, key: &str, item_type: ItemType) -> (path: String)
        ensures
            path@ == kv_path(db_root@, key@, item_type),
    {
        let item_name = match item_type {
            ItemType::Key => "key",
            ItemType::Value => "value",
        };
        let mut path = String::from_str(db_root);
        path.append("/");
        path.append(key);
        path.append("/");
        path.append(item_name);
        path
    }

    /// The directory of the key whose hash is `key`.
    pub fn get_key_dir(db_root: &str, key: &str) -> (dir: String)
        ensures
            dir@ == db_root@ + "/"@ + key@,
    {
        let mut dir = String::from_str(db_root);
        dir.append("/");
        dir.append(key);
        dir
    }

    /// The path of an item of `key`: the key is hashed first.
    pub fn item_path(db_root: &str, key: &str, item_type: ItemType) -> (path: String)
        ensures
            path@ == kv_path(db_root@, key_of(key), item_type),
    {
        let hash_key = construct_key(key);
        Self::get_kv_path(db_root, hash_key.as_str(), item_type)
    }

    /// The directory of `key`: the key is hashed first.
    pub fn key_dir(db_root: &str, key: &str) -> (dir: String)
        ensures
            dir@ == db_root@ + "/"@ + key_of(key),
    {
        let hash_key = construct_key(key);
        Self::get_key_dir(db_root, hash_key.as_str())
    }
}

/// Law: within one store, every key keeps each of its items in a file of its
/// own: two items share a path only when they are the same item of keys with
/// the same hash. So what `get` reads for a key is what `put` wrote for it, and
/// no other key's write can touch it.
pub proof fn lemma_item_paths_are_distinct(db_root: Seq<char>, k1: Seq<char>, t1: ItemType, k2: Seq<char>, t2: ItemType)
    ensures
        kv_path(db_root, k1, t1) == kv_path(db_root, k2, t2) <==> (k1 == k2 && t1 == t2),
{
    reveal_strlit("key");
    reveal_strlit("value");
    reveal_strlit("/");
    let p1 = kv_path(db_root, k1, t1);
    let p2 = kv_path(db_root, k2, t2);
    if p1 == p2 {
        let n1 = item_name(t1);
        let n2 = item_name(t2);
        if t1 != t2 {
            assert(p1[p1.len() - 1] == n1[n1.len() - 1]);
            assert(p2[p2.len() - 1] == n2[n2.len() - 1]);
            assert(false);
        } else {
            let front = db_root + "/"@;
            assert(p1 == front + k1 + ("/"@ + n1));
            assert(p2 == front + k2 + ("/"@ + n1));
            assert(k1.len() == k2.len());
            assert forall|i: int| 0 <= i < k1.len() implies k1[i] == k2[i] by {
                assert(p1[front.len() + i] == k1[i]);
                assert(p2[front.len() + i] == k2[i]);
            }
            assert(k1 =~= k2);
        }
    }
}

/// One file-system step of a store operation.
pub enum StoreStep {
    CreateDir { path: String },
    WriteFile { path: String, contents: String },
}

/// A step, with the message the operation fails with when the step fails.
pub struct PlannedStep {
    pub step: StoreStep,
    pub error: &'static str,
}

/// A step as a mathematical value.
pub enum StepView {
    CreateDir { path: Seq<char> },
    WriteFile { path: Seq<char>, contents: Seq<char> },
}

impl View for StoreStep {
    type V = StepView;

    open spec fn view(&self) -> StepView {
        match self {
            StoreStep::CreateDir { path } => StepView::CreateDir { path: path@ },
            StoreStep::WriteFile { path, contents } => StepView::WriteFile { path: path@, contents: contents@ },
        }
    }
}

/// The steps of `put` for `key`, under `db_root`: create the key's directory,
/// which fails when the key is already there (the store does not overwrite),
/// then write the key's metadata and then its value.
pub open spec fn put_plan(db_root: Seq<char>, key: &str, metadata: Seq<char>, value: Seq<char>) -> Seq<(StepView, Seq<char>)> {
    seq![
        (StepView::CreateDir { path: db_root + "/"@ + key_of(key) }, "failed to insert key structure"@),
        (StepView::WriteFile { path: kv_path(db_root, key_of(key), ItemType::Key), contents: metadata }, "failed to insert key metadata"@),
        (StepView::WriteFile { path: kv_path(db_root, key_of(key), ItemType::Value), contents: value }, "failed to insert key"@),
    ]
}

impl KeyValueStore<'_> {
    /// The file-system steps that insert `key` with its serialized metadata
    /// and its value, each with the message `put` fails with if it fails.
    pub fn put_steps(db_root: &str, key: &str, metadata_json: String, value: &str) -> (steps: Vec<PlannedStep>)
        ensures
            steps@.len() == 3,
            forall|i: int| 0 <= i < 3 ==> (#[trigger] steps@[i]).step@ == put_plan(db_root@, key, metadata_json@, value@)[i].0
                && steps@[i].error@ == put_plan(db_root@, key, metadata_json@, value@)[i].1,
    {
        let mut steps: Vec<PlannedStep> = Vec::new();
        steps.push(PlannedStep {
            step: StoreStep::CreateDir { path: Self::key_dir(db_root, key) },
            error: "failed to insert key structure",
        });
        steps.push(PlannedStep {
            step: StoreStep::WriteFile { path: Self::item_path(db_root, key, ItemType::Key), contents: metadata_json },
            error: "failed to insert key metadata",
        });
        steps.push(PlannedStep {
            step: StoreStep::WriteFile {
                path: Self::item_path(db_root, key, ItemType::Value),
                contents: String::from_str(value),
            },
            error: "failed to insert key",
        });
        steps
    }
}

/// The part of a file system the store sees: its directories and the
/// contents of its files.
pub struct Disk {
    pub dirs: Set<Seq<char>>,
    pub files: Map<Seq<char>, Seq<char>>,
}

/// The file system after a step, or `None` when the step fails: creating a
/// directory fails when it exists; a write replaces the file's contents.
pub open spec fn run_step(d: Disk, s: StepView) -> Option<Disk> {
    match s {
        StepView::CreateDir { path } => if d.dirs.contains(path) {
            None
        } else {
            Some(Disk { dirs: d.dirs.insert(path), files: d.files })
        },
        StepView::WriteFile { path, contents } => Some(Disk { dirs: d.dirs, files: d.files.insert(path, contents) }),
    }
}

/// Running the steps in order, stopping at the first that fails: the final
/// file system, or the message of the failed step and the file system as it
/// was left.
pub open spec fn run_plan(d: Disk, plan: Seq<(StepView, Seq<char>)>) -> Result<Disk, (Seq<char>, Disk)>
    decreases plan.len(),
{
    if plan.len() == 0 {
        Ok(d)
    } else {
        match run_step(d, plan[0].0) {
            Some(next) => run_plan(next, plan.drop_first()),
            None => Err((plan[0].1, d)),
        }
    }
}

/// What `get` reads for `key`: its value file.
pub open spec fn stored_value(d: Disk, db_root: Seq<char>, key: &str) -> Option<Seq<char>> {
    if d.files.contains_key(kv_path(db_root, key_of(key), ItemType::Value)) {
        Some(d.files[kv_path(db_root, key_of(key), ItemType::Value)])
    } else {
        None
    }
}

/// Law: a `put` of a key the store does not hold yet succeeds, after which a
/// `get` of the key reads the value put, and a `get` of any key with another
/// hash reads what it read before; a `put` of a key the store holds fails with
/// "failed to insert key structure" and changes nothing.
pub proof fn lemma_get_reads_what_put_wrote(d: Disk, db_root: Seq<char>, key: &str, metadata: Seq<char>, value: Seq<char>, other: &str)
    ensures
        !d.dirs.contains(db_root + "/"@ + key_of(key)) ==> {
            let r = run_plan(d, put_plan(db_root, key, metadata, value));
            &&& r is Ok
            &&& stored_value(r->Ok_0, db_root, key) == Some(value)
            &&& key_of(other) != key_of(key) ==> stored_value(r->Ok_0, db_root, other) == stored_value(d, db_root, other)
        },
        d.dirs.contains(db_root + "/"@ + key_of(key)) ==> run_plan(d, put_plan(db_root, key, metadata, value)) == Err::<Disk, (Seq<char>, Disk)>(
            ("failed to insert key structure"@, d),
        ),
{
    let plan = put_plan(db_root, key, metadata, value);
    let k = key_of(key);
    if !d.dirs.contains(db_root + "/"@ + k) {
        let d1 = Disk { dirs: d.dirs.insert(db_root + "/"@ + k), files: d.files };
        let d2 = Disk { dirs: d1.dirs, files: d1.files.insert(kv_path(db_root, k, ItemType::Key), metadata) };
        let d3 = Disk { dirs: d2.dirs, files: d2.files.insert(kv_path(db_root, k, ItemType::Value), value) };
        assert(plan.drop_first().drop_first().drop_first() =~= Seq::<(StepView, Seq<char>)>::empty());
        assert(run_plan(d, plan) == run_plan(d1, plan.drop_first()));
        assert(run_plan(d1, plan.drop_first()) == run_plan(d2, plan.drop_first().drop_first()));
        assert(run_plan(d2, plan.drop_first().drop_first()) == run_plan(d3, plan.drop_first().drop_first().drop_first()));
        let o = key_of(other);
        if o != k {
            lemma_item_paths_are_distinct(db_root, o, ItemType::Value, k, ItemType::Value);
            lemma_item_paths_are_distinct(db_root, o, ItemType::Value, k, ItemType::Key);
        }
    }
}

/// `path` names an entry directly inside the directory `dir`: `dir`, a
/// slash, and a name without a slash.
pub open spec fn lies_in(path: Seq<char>, dir: Seq<char>) -> bool {
    &&& dir.len() < path.len()
    &&& path.subrange(0, dir.len() as int) == dir
    &&& path[dir.len() as int] == '/'
    &&& forall|x: int| dir.len() < x < path.len() ==> path[x] != '/'
}

/// Every file lies in a directory of the disk.
pub open spec fn disk_well_formed(d: Disk) -> bool {
    forall|path: Seq<char>, dir: Seq<char>|
        #[trigger] d.files.contains_key(path) && #[trigger] lies_in(path, dir) ==> d.dirs.contains(dir)
}

/// An entry lies in one directory only.
proof fn lemma_parent_is_unique(path: Seq<char>, d1: Seq<char>, d2: Seq<char>)
    requires
        lies_in(path, d1),
        lies_in(path, d2),
    ensures
        d1 == d2,
{
    if d1.len() < d2.len() {
        assert(path[d2.len() as int] == '/');
    } else if d2.len() < d1.len() {
        assert(path[d1.len() as int] == '/');
    } else {
        assert(d1 =~= d2) by {
            assert forall|i: int| 0 <= i < d1.len() implies d1[i] == d2[i] by {
                assert(path.subrange(0, d1.len() as int)[i] == path[i]);
                assert(path.subrange(0, d2.len() as int)[i] == path[i]);
            }
        }
    }
}

/// The item files of a key lie in the key's directory.
proof fn lemma_item_lies_in_key_dir(db_root: Seq<char>, k: Seq<char>, t: ItemType)
    ensures
        lies_in(kv_path(db_root, k, t), db_root + "/"@ + k),
{
    reveal_strlit("key");
    reveal_strlit("value");
    reveal_strlit("/");
    let dir = db_root + "/"@ + k;
    let name = item_name(t);
    let p = kv_path(db_root, k, t);
    assert(p =~= dir + ("/"@ + name));
    assert(p.subrange(0, dir.len() as int) =~= dir);
    assert forall|x: int| dir.len() < x < p.len() implies p[x] != '/' by {
        assert(p[x] == name[x - dir.len() - 1]);
    }
}

/// Law: on a well-formed disk, a `put` of a key whose value the store already
/// holds fails with "failed to insert key structure" and leaves the disk as
/// it was, so a `get` of the key still reads the value there before, and its
/// metadata is unchanged.
pub proof fn lemma_put_does_not_overwrite(d: Disk, db_root: Seq<char>, key: &str, metadata: Seq<char>, value: Seq<char>)
    requires
        disk_well_formed(d),
        stored_value(d, db_root, key) is Some,
    ensures
        run_plan(d, put_plan(db_root, key, metadata, value)) == Err::<Disk, (Seq<char>, Disk)>(
            ("failed to insert key structure"@, d),
        ),
{
    lemma_item_lies_in_key_dir(db_root, key_of(key), ItemType::Value);
    assert(d.files.contains_key(kv_path(db_root, key_of(key), ItemType::Value)));
    assert(d.dirs.contains(db_root + "/"@ + key_of(key)));
    lemma_get_reads_what_put_wrote(d, db_root, key, metadata, value, key);
}

/// Law: a `put` that succeeds on a well-formed disk leaves it well-formed:
/// it writes the key's files only into the key's directory, which it created.
pub proof fn lemma_put_keeps_disk_well_formed(d: Disk, db_root: Seq<char>, key: &str, metadata: Seq<char>, value: Seq<char>)
    requires
        disk_well_formed(d),
        run_plan(d, put_plan(db_root, key, metadata, value)) is Ok,
    ensures
        disk_well_formed(run_plan(d, put_plan(db_root, key, metadata, value))->Ok_0),
{
    let k = key_of(key);
    let dir = db_root + "/"@ + k;
    lemma_get_reads_what_put_wrote(d, db_root, key, metadata, value, key);
    assert(!d.dirs.contains(dir));
    let plan = put_plan(db_root, key, metadata, value);
    let d1 = Disk { dirs: d.dirs.insert(dir), files: d.files };
    let d2 = Disk { dirs: d1.dirs, files: d1.files.insert(kv_path(db_root, k, ItemType::Key), metadata) };
    let d3 = Disk { dirs: d2.dirs, files: d2.files.insert(kv_path(db_root, k, ItemType::Value), value) };
    assert(plan.drop_first().drop_first().drop_first() =~= Seq::<(StepView, Seq<char>)>::empty());
    assert(run_plan(d, plan) == run_plan(d1, plan.drop_first()));
    assert(run_plan(d1, plan.drop_first()) == run_plan(d2, plan.drop_first().drop_first()));
    assert(run_plan(d2, plan.drop_first().drop_first()) == run_plan(d3, plan.drop_first().drop_first().drop_first()));
    assert(run_plan(d, plan)->Ok_0 == d3);
    lemma_item_lies_in_key_dir(db_root, k, ItemType::Key);
    lemma_item_lies_in_key_dir(db_root, k, ItemType::Value);
    assert forall|path: Seq<char>, pd: Seq<char>| #[trigger] d3.files.contains_key(path) && #[trigger] lies_in(path, pd)
        implies d3.dirs.contains(pd) by {
        if path == kv_path(db_root, k, ItemType::Key) {
            lemma_parent_is_unique(path, pd, dir);
        } else if path == kv_path(db_root, k, ItemType::Value) {
            lemma_parent_is_unique(path, pd, dir);
        } else {
            assert(d.files.contains_key(path));
        }
    }
}

} // verus!
