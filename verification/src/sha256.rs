//! The SHA-256 family of primitives that yescrypt is built on: plain SHA-256,
//! HMAC-SHA256 and PBKDF2-HMAC-SHA256. Each is computed by the RustCrypto
//! crates `sha2`, `hmac` and `pbkdf2`; what they return is given a name, and
//! the rest of the library is proved over those names.

use vstd::prelude::*;

verus! {

/// The SHA-256 digest of `data`.
pub uninterp spec fn sha256_digest(data: Seq<u8>) -> Seq<u8>;

/// The HMAC-SHA256 tag of `msg` under `key`.
pub uninterp spec fn hmac_sha256_tag(key: Seq<u8>, msg: Seq<u8>) -> Seq<u8>;

/// The first `len` bytes that PBKDF2 with HMAC-SHA256 and `rounds` iterations
/// derives from `password` and `salt`.
pub uninterp spec fn pbkdf2_sha256_key(password: Seq<u8>, salt: Seq<u8>, rounds: u32, len: usize) -> Seq<u8>;

/// Calls `sha2::Sha256::digest`. Trusted: the result is the SHA-256 digest of
/// `data`, which is 32 bytes long.
#[verifier::external_body]
pub(crate) fn sha256(data: &[u8]) -> (res: Vec<u8>)
    ensures
        res@ == sha256_digest(data@),
        res@.len() == 32,
{
    <sha2::Sha256 as sha2::Digest>::digest(data).to_vec()
}

/// Calls `hmac::Hmac::<sha2::Sha256>` (`new_from_slice`, `update`,
/// `finalize`). Trusted: the result is the HMAC-SHA256 tag of `msg` under
/// `key`, 32 bytes long. HMAC accepts keys of every length, so the key is
/// never refused.
#[verifier::external_body]
pub(crate) fn hmac_sha256(key: &[u8], msg: &[u8]) -> (res: Vec<u8>)
    ensures
        res@ == hmac_sha256_tag(key@, msg@),
        res@.len() == 32,
{
    let mut mac = match <hmac::Hmac<sha2::Sha256> as hmac::Mac>::new_from_slice(key) {
        Ok(mac) => mac,
        Err(_) => return Vec::new(),
    };
    hmac::Mac::update(&mut mac, msg);
    hmac::Mac::finalize(mac).into_bytes().to_vec()
}

/// Calls `pbkdf2::pbkdf2_hmac::<sha2::Sha256>` into a fresh buffer of `len`
/// bytes. Trusted: the result is the PBKDF2-HMAC-SHA256 key of that length,
/// and the key of any shorter length is its start (the crate fills the
/// buffer 32 bytes at a time, block `i` depending only on `i`).
/// The crate numbers the 32-byte output blocks with a `u32` counter that
/// overflows past `2^32 - 1` blocks, so `len` is kept below that.
#[verifier::external_body]
pub(crate) fn pbkdf2_sha256(password: &[u8], salt: &[u8], rounds: u32, len: usize) -> (res: Vec<u8>)
    requires
        len <= 32 * 0xffff_ffffusize,
    ensures
        res@ == pbkdf2_sha256_key(password@, salt@, rounds, len),
        res@.len() == len,
        forall|l: usize| l <= len ==> #[trigger] pbkdf2_sha256_key(password@, salt@, rounds, l) == res@.subrange(0, l as int),
{
    let mut out = vec![0u8; len];
    pbkdf2::pbkdf2_hmac::<sha2::Sha256>(password, salt, rounds, &mut out);
    out
}

} // verus!
