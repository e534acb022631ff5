//! Content keys: the SHA-256 digest of a payload, written as lower-case hex.

use vstd::prelude::*;
use vstd::string::StringExecFns;
use vstd::string::StrSliceExecFns;
use vstd::string::StringSliceAdditionalSpecFns;
use sha2::{Digest, Sha256, Sha512};

verus! {

/// The SHA-256 digest of `data`, as `sha2` computes it.
pub uninterp spec fn sha256(data: Seq<u8>) -> Seq<u8>;

/// The SHA-512 digest of `data`, as `sha2` computes it.
pub uninterp spec fn sha512(data: Seq<u8>) -> Seq<u8>;

/// Calls `<sha2::Sha256 as Digest>::digest`, which in `digest` 0.10 is a fresh
/// hasher, one `update` with `data` and `finalize`. The contract claims that
/// the result is the function `sha256` of the bytes alone, and that it is 32
/// bytes long (the output type is a `GenericArray<u8, U32>`).
#[verifier::external_body]
pub(crate) fn sha256_digest(data: &[u8]) -> (digest: Vec<u8>)
    ensures
        digest@ == sha256(data@),
        digest@.len() == 32,
{
    Sha256::digest(data).to_vec()
}

/// Calls `<sha2::Sha512 as Digest>::digest`, which in `digest` 0.10 is a fresh
/// hasher, one `update` with `data` and `finalize`. The contract claims that
/// the result is the function `sha512` of the bytes alone, and that it is 64
/// bytes long (the output type is a `GenericArray<u8, U64>`).
#[verifier::external_body]
pub(crate) fn sha512_digest(data: &[u8]) -> (digest: Vec<u8>)
    ensures
        digest@ == sha512(data@),
        digest@.len() == 64,
{
    Sha512::digest(data).to_vec()
}

/// The lower-case hex digit of `n`, for `0 <= n < 16`.
pub open spec fn hex_char(n: int) -> char {
    seq!['0', '1', '2', '3', '4', '5', '6', '7', '8', '9', 'a', 'b', 'c', 'd', 'e', 'f'][n]
}

/// `bytes` in lower-case hex, two digits per byte, high digit first, as
/// `{:x}` formats a digest.
pub open spec fn hex_lower(bytes: Seq<u8>) -> Seq<char>
    decreases bytes.len(),
{
    if bytes.len() == 0 {
        seq![]
    } else {
        hex_lower(bytes.drop_last()) + seq![hex_char((bytes.last() / 16) as int), hex_char((bytes.last() % 16) as int)]
    }
}

/// The key of a payload: the hex SHA-256 digest of its UTF-8 bytes.
pub open spec fn key_of(payload: &str) -> Seq<char> {
    hex_lower(sha256(payload.spec_bytes()))
}

/// `hash` is the key of `payload`.
pub open spec fn payload_verifies(hash: Seq<char>, payload: &str) -> bool {
    key_of(payload) == hash
}

/// `c` is a lower-case hex digit.
pub open spec fn is_hex_char(c: char) -> bool {
    ('0' <= c && c <= '9') || ('a' <= c && c <= 'f')
}

proof fn lemma_hex_lower_shape(bytes: Seq<u8>)
    ensures
        hex_lower(bytes).len() == 2 * bytes.len(),
        forall|i: int| 0 <= i < hex_lower(bytes).len() ==> is_hex_char(#[trigger] hex_lower(bytes)[i]),
    decreases bytes.len(),
{
    if bytes.len() > 0 {
        lemma_hex_lower_shape(bytes.drop_last());
        let front = hex_lower(bytes.drop_last());
        let hi = bytes.last() / 16;
        let lo = bytes.last() % 16;
        let tail = seq![hex_char(hi as int), hex_char(lo as int)];
        assert(is_hex_char(hex_char(hi as int))) by {
            assert(0 <= hi < 16);
        }
        assert(is_hex_char(hex_char(lo as int))) by {
            assert(0 <= lo < 16);
        }
        assert forall|i: int| 0 <= i < hex_lower(bytes).len() implies is_hex_char(#[trigger] hex_lower(bytes)[i]) by {
            if i < front.len() {
                assert(hex_lower(bytes)[i] == front[i]);
            } else {
                assert(hex_lower(bytes)[i] == tail[i - front.len()]);
            }
        }
    }
}

/// Appends the hex digit of `n` to `out`.
fn push_hex_digit(out: &mut String, n: u8)
    requires
        n < 16,
    ensures
        final(out)@ == old(out)@.push(hex_char(n as int)),
{
    let digits = "0123456789abcdef";
    proof {
        reveal_strlit("0123456789abcdef");
    }
    let d = digits.substring_char(n as usize, n as usize + 1);
    out.append(d);
    proof {
        assert(d@ =~= seq![hex_char(n as int)]);
    }
}

/// `bytes` in lower-case hex.
pub fn to_hex_lower(bytes: &Vec<u8>) -> (res: String)
    ensures
        res@ == hex_lower(bytes@),
{
    let mut res = String::new();
    let mut k: usize = 0;
    proof {
        assert(bytes@.take(0) =~= Seq::<u8>::empty());
    }
    while k < bytes.len()
        invariant
            0 <= k <= bytes@.len(),
            res@ == hex_lower(bytes@.take(k as int)),
        decreases bytes@.len() - k,
    {
        let b = bytes[k];
        push_hex_digit(&mut res, b / 16);
        push_hex_digit(&mut res, b % 16);
        proof {
            let next = bytes@.take(k + 1);
            assert(next.drop_last() =~= bytes@.take(k as int));
            assert(next.last() == b);
            assert(res@ =~= hex_lower(next));
        }
        k += 1;
    }
    proof {
        assert(bytes@.take(bytes@.len() as int) =~= bytes@);
    }
    res
}

/// Construct a key for the given payload: the SHA-256 digest of its bytes, in
/// lower-case hex, 64 characters long.
pub fn construct_key(payload: &str) -> (key: String)
    ensures
        key@ == key_of(payload),
        key@.len() == 64,
        forall|i: int| 0 <= i < key@.len() ==> is_hex_char(#[trigger] key@[i]),
{
    let digest = sha256_digest(payload.as_bytes());
    let hash_str = to_hex_lower(&digest);
    proof {
        lemma_hex_lower_shape(digest@);
    }
    hash_str
}

/// Verify the payload against the given hash: true exactly when `hash` is the
/// key of `payload`.
pub fn verify_payload(hash: &str, payload: &str) -> (res: bool)
    ensures
        res == payload_verifies(hash@, payload),
{
    let hash_str = construct_key(payload);
    let expected = String::from_str(hash);
    hash_str == expected
}

/// Law: the key that `construct_key` gives a payload is accepted by
/// `verify_payload` for that payload.
pub proof fn lemma_key_verifies_its_payload(payload: &str)
    ensures
        payload_verifies(key_of(payload), payload),
{
}

} // verus!
