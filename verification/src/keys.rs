//! Key derivation: a plaintext is mapped to its storage key by hashing the
//! application namespace followed by the plaintext with Keccak-256 and
//! rendering the digest as lowercase hexadecimal.

use vstd::prelude::*;
use vstd::string::StringExecFns;

verus! {

/// The hexadecimal rendering of the Keccak-256 digest of the UTF-8 encoding
/// of `preimage`. The digest is a pure function of the characters alone, so
/// the rendering is left as a name rather than spelled out.
pub uninterp spec fn keccak256_hex(preimage: Seq<char>) -> Seq<char>;

/// A lowercase hexadecimal digit.
pub open spec fn is_hex_digit(c: char) -> bool {
    ('0' as u32 <= c as u32 && c as u32 <= '9' as u32) || ('a' as u32 <= c as u32 && c as u32
        <= 'f' as u32)
}

/// Relies on cryptoxide's `sha3::Keccak256` through its `digest::Digest`
/// trait: `result_str` renders the 32-byte digest of the input bytes as 64
/// lowercase hexadecimal characters, and the digest depends on the input
/// alone.
#[verifier::external_body]
fn keccak256_hex_str(preimage: &str) -> (r: String)
    ensures
        r@ == keccak256_hex(preimage@),
        r@.len() == 64,
        forall|i: int| 0 <= i < r@.len() ==> is_hex_digit(#[trigger] r@[i]),
{
    let mut ctx = cryptoxide::sha3::Keccak256::new();
    cryptoxide::digest::Digest::input(&mut ctx, preimage.as_bytes());
    cryptoxide::digest::Digest::result_str(&mut ctx)
}

/// The namespace that scopes every key this library derives on its own.
pub open spec fn spec_app_name() -> Seq<char> {
    "storage_example"@
}

/// Executable access to the namespace constant.
pub fn app_name() -> (r: &'static str)
    ensures
        r@ == spec_app_name(),
{
    "storage_example"
}

/// The key that namespace `ns` and plaintext `data` derive: the hexadecimal
/// Keccak-256 digest of the namespace followed by the plaintext.
pub open spec fn spec_derive_key(ns: Seq<char>, data: Seq<char>) -> Seq<char> {
    keccak256_hex(ns + data)
}

/// Derive the storage key for `plaintext` under `namespace`: hash the
/// concatenation of the two and render it as 64 lowercase hex characters.
pub fn derive_key(namespace: &str, plaintext: &str) -> (r: String)
    ensures
        r@ == spec_derive_key(namespace@, plaintext@),
        r@.len() == 64,
        forall|i: int| 0 <= i < r@.len() ==> is_hex_digit(#[trigger] r@[i]),
{
    let mut preimage = namespace.to_owned();
    preimage.append(plaintext);
    keccak256_hex_str(preimage.as_str())
}

/// Law: key derivation is deterministic. Two keys derived from the same
/// namespace and the same plaintext are equal.
pub proof fn lemma_derive_key_deterministic(
    ns: Seq<char>,
    data: Seq<char>,
    k1: Seq<char>,
    k2: Seq<char>,
)
    requires
        k1 == spec_derive_key(ns, data),
        k2 == spec_derive_key(ns, data),
    ensures
        k1 == k2,
{
}

} // verus!
