//! Commits: who made them, what they say, when, and what they reference; a
//! commit is stored under the hex SHA-512 digest of its author, text and
//! time.

use vstd::prelude::*;
use vstd::string::StringExecFns;
use vstd::string::StringSliceAdditionalSpecFns;
use vstd::utf8::encode_utf8;
use vstd::bytes::{spec_u64_to_le_bytes, u64_to_le_bytes};
use std::collections::HashMap;
use crate::key::{hex_lower, sha512, sha512_digest, to_hex_lower};
use crate::vfs::BLAZE_REPOSITORY_DIR;

verus! {

/// The name a commit is stored under.
pub type CommitHash = String;

/// The commit each tracked path was last changed in.
pub struct Reference {
    pub path_map: HashMap<String, CommitHash>,
}

/// Who made a commit.
pub struct Author {
    pub name: String,
    pub email: String,
}

/// A commit.
pub struct Commit {
    pub author: Author,
    pub title: String,
    pub message: String,
    pub timestamp: u64,
    pub reference: Reference,
}

/// Calls `std::time::UNIX_EPOCH.elapsed()` and reads the whole seconds of the
/// duration; `None` when the clock is before the epoch (the call's error).
/// Nothing is claimed of the value: it is the current time.
#[verifier::external_body]
fn seconds_since_epoch() -> Option<u64> {
    match std::time::UNIX_EPOCH.elapsed() {
        Ok(d) => Some(d.as_secs()),
        Err(_) => None,
    }
}

impl Commit {
    /// A commit made at `timestamp`, in seconds since the epoch.
    pub fn with_timestamp(author: Author, title: String, message: String, reference: Reference, timestamp: u64) -> (c: Self)
        ensures
            c == (Commit { author, title, message, timestamp, reference }),
    {
        Commit { author, title, message, reference, timestamp }
    }

    /// A commit made now; `None` when the clock reads a time before the epoch.
    pub fn new(author: Author, title: String, message: String, reference: Reference) -> (c: Option<Self>)
        ensures
            c matches Some(c) ==> c.author == author && c.title == title && c.message == message && c.reference
                == reference,
    {
        match seconds_since_epoch() {
            Some(timestamp) => Some(Self::with_timestamp(author, title, message, reference, timestamp)),
            None => None,
        }
    }
}

/// The bytes a commit's name is computed from: the author's name and email,
/// the title and the message in UTF-8, then the time as 8 little-endian bytes.
pub open spec fn commit_bytes(commit: &Commit) -> Seq<u8> {
    encode_utf8(commit.author.name@) + encode_utf8(commit.author.email@) + encode_utf8(commit.title@) + encode_utf8(
        commit.message@,
    ) + spec_u64_to_le_bytes(commit.timestamp)
}

/// Appends `bytes` to `out`.
fn append_bytes(out: &mut Vec<u8>, bytes: &[u8])
    ensures
        final(out)@ == old(out)@ + bytes@,
{
    let mut k: usize = 0;
    while k < bytes.len()
        invariant
            0 <= k <= bytes@.len(),
            out@ == old(out)@ + bytes@.take(k as int),
        decreases bytes@.len() - k,
    {
        out.push(bytes[k]);
        proof {
            assert(out@ =~= old(out)@ + bytes@.take(k + 1));
        }
        k += 1;
    }
    proof {
        assert(bytes@.take(bytes@.len() as int) =~= bytes@);
    }
}

/// The name a commit is stored under: the lower-case hex SHA-512 digest of
/// its author, title, message and time.
pub fn compute_hash(commit: &Commit) -> (hash: CommitHash)
    ensures
        hash@ == hex_lower(sha512(commit_bytes(commit))),
{
    let mut data: Vec<u8> = Vec::new();
    append_bytes(&mut data, commit.author.name.as_str().as_bytes());
    append_bytes(&mut data, commit.author.email.as_str().as_bytes());
    append_bytes(&mut data, commit.title.as_str().as_bytes());
    append_bytes(&mut data, commit.message.as_str().as_bytes());
    let time = u64_to_le_bytes(commit.timestamp);
    append_bytes(&mut data, time.as_slice());
    let digest = sha512_digest(data.as_slice());
    proof {
        assert(data@ =~= commit_bytes(commit));
    }
    to_hex_lower(&digest)
}

/// Where the commit named `hash` is stored.
pub fn commit_path(hash: &CommitHash) -> (path: String)
    ensures
        path@ == BLAZE_REPOSITORY_DIR@ + "/commits/"@ + hash@,
{
    let mut path = String::from_str(BLAZE_REPOSITORY_DIR);
    path.append("/commits/");
    path.append(hash.as_str());
    path
}

} // verus!
