//! The yescrypt key derivation: parameter checks, the optional pre-hash
//! stage, and the body that runs PBKDF2, `smix` and the final PBKDF2.

use vstd::prelude::*;
use crate::common::{blk, le32_words, le32_bytes, words_from_le_bytes, le_bytes_from_words};
use crate::sha256::{sha256, sha256_digest, hmac_sha256, hmac_sha256_tag, pbkdf2_sha256, pbkdf2_sha256_key};
use crate::params::{
    params_ok,
    check_params,
    YESCRYPT_RW,
    YESCRYPT_INIT_SHARED,
    YESCRYPT_ALLOC_ONLY,
    YESCRYPT_PREHASH,
    YESCRYPT_MODE_MASK,
    flavor_ok,
};
use crate::smix::{smix, smix_spec, zero_words, law_smix_keeps_password_unless_rw};
use crate::scrypt::{scrypt_spec, lemma_scrypt_mode_is_scrypt};

verus! {

/// Why a derivation produced no key.
#[derive(Clone, Copy, Debug, PartialEq, Eq, Structural)]
pub enum KdfError {
    /// The parameters are not accepted, or the arrays they ask for cannot be
    /// allocated.
    Rejected,
    /// Only the local region was to be allocated.
    AllocOnly,
}

/// The caller's local region: the array `V` when it is kept between calls,
/// empty while nothing has been allocated.
pub struct Local {
    pub v: Vec<u32>,
}

/// A fresh local region, with nothing allocated.
pub fn yescrypt_init_local() -> (local: Local)
    ensures
        local.v@.len() == 0,
{
    Local { v: Vec::new() }
}

/// "yescrypt-prehash", the HMAC key of the first step (its first 8 bytes,
/// "yescrypt", unless this is the pre-hash stage).
pub open spec fn prehash_key(prehash: bool) -> Seq<u8> {
    let full = seq![
        0x79u8, 0x65, 0x73, 0x63, 0x72, 0x79, 0x70, 0x74,
        0x2d, 0x70, 0x72, 0x65, 0x68, 0x61, 0x73, 0x68,
    ];
    if prehash {
        full
    } else {
        full.subrange(0, 8)
    }
}

/// "Client Key", the message of the final HMAC.
pub open spec fn client_key_label() -> Seq<u8> {
    seq![0x43u8, 0x6c, 0x69, 0x65, 0x6e, 0x74, 0x20, 0x4b, 0x65, 0x79]
}

/// Whether the arrays of the derivation can be allocated: `V` of
/// `128 * r * N` bytes and `B` of `128 * r * p` bytes, each within the
/// largest allocation (`isize::MAX` bytes).
pub open spec fn sizes_fit(n: u64, r: u32, p: u32) -> bool {
    &&& 128 * (r as int) * (n as int) <= isize::MAX
    &&& 128 * (r as int) * (p as int) <= isize::MAX
}

/// The lanes of the non-read-write modes, one `smix` each, in turn.
pub open spec fn lanes_spec(
    b: Seq<u32>,
    v: Seq<u32>,
    pw: Seq<u8>,
    r: nat,
    n: u64,
    t: u32,
    flags: u32,
    i: nat,
) -> (Seq<u32>, Seq<u32>, Seq<u8>)
    decreases i,
{
    if i == 0 {
        (b, v, pw)
    } else {
        let st = lanes_spec(b, v, pw, r, n, t, flags, (i - 1) as nat);
        smix_spec(st.0, st.1, st.2, (i - 1) * (32 * r as int), r, n, 1, t, flags)
    }
}

/// The `V` array that the body starts from: when `V` is kept in the local
/// region and the region already holds at least as many words, the region
/// itself; otherwise freshly allocated zero words.
pub open spec fn body_v0(local: Seq<u32>, flags: u32, n: u64, r: u32) -> Seq<u32> {
    let vwords = 32 * (r as int) * (n as int);
    if flags & YESCRYPT_INIT_SHARED != 0 && local.len() >= vwords {
        local
    } else {
        zero_words(vwords as nat)
    }
}

/// The mixing part of the body, from `V` as `v0`: the password (HMACed
/// unless in scrypt mode) and salt go through PBKDF2 into `B`, whose lanes
/// are mixed with `smix` (in read-write mode all at once, which also rekeys
/// the password). The result is the mixed `B`, `V` after it, and the password
/// for the final PBKDF2.
pub open spec fn body_mixed(
    passwd: Seq<u8>,
    salt: Seq<u8>,
    flags: u32,
    n: u64,
    r: u32,
    p: u32,
    t: u32,
    v0: Seq<u32>,
) -> (Seq<u32>, Seq<u32>, Seq<u8>) {
    let pw1 = if flags != 0 {
        hmac_sha256_tag(prehash_key(flags & YESCRYPT_PREHASH != 0), passwd)
    } else {
        passwd
    };
    let bbytes = pbkdf2_sha256_key(pw1, salt, 1, (128 * (r as int) * (p as int)) as usize);
    let bw = le32_words(bbytes);
    let pw2 = if flags != 0 {
        bbytes.subrange(0, 32)
    } else {
        pw1
    };
    if flags & YESCRYPT_RW != 0 {
        smix_spec(bw, v0, pw2, 0, r as nat, n, p, t, flags)
    } else {
        lanes_spec(bw, v0, pw2, r as nat, n, t, flags, p as nat)
    }
}

/// The password for the final PBKDF2 and the mixed `B` as bytes.
pub open spec fn body_mix(
    passwd: Seq<u8>,
    salt: Seq<u8>,
    flags: u32,
    n: u64,
    r: u32,
    p: u32,
    t: u32,
    v0: Seq<u32>,
) -> (Seq<u8>, Seq<u8>) {
    let m = body_mixed(passwd, salt, flags, n, r, p, t, v0);
    (m.2, le32_bytes(m.0))
}

/// Law: outside scrypt mode (`flags != 0`, WORM and read-write alike) the
/// password enters the body only through HMAC-SHA256 keyed by "yescrypt"
/// (or "yescrypt-prehash" in the pre-hash stage): two passwords with the same
/// tag give the same mixing.
pub proof fn law_password_enters_through_hmac(
    p1: Seq<u8>,
    p2: Seq<u8>,
    salt: Seq<u8>,
    flags: u32,
    n: u64,
    r: u32,
    p: u32,
    t: u32,
    v0: Seq<u32>,
)
    requires
        flags != 0,
        hmac_sha256_tag(prehash_key(flags & YESCRYPT_PREHASH != 0), p1) == hmac_sha256_tag(
            prehash_key(flags & YESCRYPT_PREHASH != 0),
            p2,
        ),
    ensures
        body_mixed(p1, salt, flags, n, r, p, t, v0) == body_mixed(p2, salt, flags, n, r, p, t, v0),
{
}

/// Law of WORM mode (`flags != 0`, not read-write): the password of the final
/// PBKDF2 is the first 32 bytes of PBKDF2 of HMAC-SHA256("yescrypt", password)
/// and the salt, the same PBKDF2 that fills `B`.
pub proof fn law_worm_final_password(
    passwd: Seq<u8>,
    salt: Seq<u8>,
    flags: u32,
    n: u64,
    r: u32,
    p: u32,
    t: u32,
    v0: Seq<u32>,
)
    requires
        flags != 0,
        flags & YESCRYPT_RW == 0,
    ensures
        body_mix(passwd, salt, flags, n, r, p, t, v0).0 == pbkdf2_sha256_key(
            hmac_sha256_tag(prehash_key(flags & YESCRYPT_PREHASH != 0), passwd),
            salt,
            1,
            (128 * (r as int) * (p as int)) as usize,
        ).subrange(0, 32),
{
    let pw1 = hmac_sha256_tag(prehash_key(flags & YESCRYPT_PREHASH != 0), passwd);
    let bbytes = pbkdf2_sha256_key(pw1, salt, 1, (128 * (r as int) * (p as int)) as usize);
    lemma_lanes_keep_password(le32_words(bbytes), v0, bbytes.subrange(0, 32), r as nat, n, t, flags, p as nat);
}

/// Outside read-write mode the lanes leave the password as it was.
proof fn lemma_lanes_keep_password(
    b: Seq<u32>,
    v: Seq<u32>,
    pw: Seq<u8>,
    r: nat,
    n: u64,
    t: u32,
    flags: u32,
    i: nat,
)
    requires
        flags & YESCRYPT_RW == 0,
    ensures
        lanes_spec(b, v, pw, r, n, t, flags, i).2 == pw,
    decreases i,
{
    if i > 0 {
        lemma_lanes_keep_password(b, v, pw, r, n, t, flags, (i - 1) as nat);
        let st = lanes_spec(b, v, pw, r, n, t, flags, (i - 1) as nat);
        law_smix_keeps_password_unless_rw(st.0, st.1, st.2, (i - 1) * (32 * r as int), r, n, 1, t, flags);
    }
}

/// The last part of the body: PBKDF2 of the password and the mixed `B` is the
/// key; outside scrypt mode and the pre-hash stage its first bytes are
/// replaced by SHA-256 of the HMAC of "Client Key" under its first 32 bytes.
pub open spec fn body_finish(pw: Seq<u8>, bfinal: Seq<u8>, flags: u32, buflen: usize) -> Seq<u8> {
    let out = pbkdf2_sha256_key(pw, bfinal, 1, buflen);
    if flags != 0 && flags & YESCRYPT_PREHASH == 0 {
        let dkp = if buflen < 32 {
            pbkdf2_sha256_key(pw, bfinal, 1, 32)
        } else {
            out.subrange(0, 32)
        };
        let ck = sha256_digest(hmac_sha256_tag(dkp, client_key_label()));
        let clen: int = if buflen < 32 {
            buflen as int
        } else {
            32
        };
        ck.subrange(0, clen) + out.subrange(clen, buflen as int)
    } else {
        out
    }
}

/// Law of the last step: PBKDF2 of the password and the mixed block gives
/// the key; in scrypt mode and in the pre-hash stage that is all, otherwise
/// its first `min(len, 32)` bytes are replaced by SHA-256 of HMAC-SHA256 of
/// "Client Key" keyed by the first 32 bytes of PBKDF2's output.
pub proof fn law_client_key(pw: Seq<u8>, bfinal: Seq<u8>, flags: u32, buflen: usize)
    requires
        pbkdf2_sha256_key(pw, bfinal, 1, buflen).len() == buflen,
        buflen >= 32 ==> pbkdf2_sha256_key(pw, bfinal, 1, buflen).subrange(0, 32) == pbkdf2_sha256_key(pw, bfinal, 1, 32),
    ensures
        (flags == 0 || flags & YESCRYPT_PREHASH != 0) ==> body_finish(pw, bfinal, flags, buflen)
            == pbkdf2_sha256_key(pw, bfinal, 1, buflen),
        (flags != 0 && flags & YESCRYPT_PREHASH == 0) ==> ({
            let ck = sha256_digest(hmac_sha256_tag(pbkdf2_sha256_key(pw, bfinal, 1, 32), seq![0x43u8, 0x6c, 0x69, 0x65, 0x6e, 0x74, 0x20, 0x4b, 0x65, 0x79]));
            let clen: int = if buflen < 32 { buflen as int } else { 32 };
            body_finish(pw, bfinal, flags, buflen) == ck.subrange(0, clen) + pbkdf2_sha256_key(pw, bfinal, 1, buflen).subrange(clen, buflen as int)
        }),
{
    assert(client_key_label() =~= seq![0x43u8, 0x6c, 0x69, 0x65, 0x6e, 0x74, 0x20, 0x4b, 0x65, 0x79]);
}

/// The key that the body derives from accepted parameters and `V` as `v0`.
pub open spec fn body_output(
    passwd: Seq<u8>,
    salt: Seq<u8>,
    flags: u32,
    n: u64,
    r: u32,
    p: u32,
    t: u32,
    buflen: usize,
    v0: Seq<u32>,
) -> Seq<u8> {
    let m = body_mix(passwd, salt, flags, n, r, p, t, v0);
    body_finish(m.0, m.1, flags, buflen)
}

/// The key of a shorter length is the start of the key of a longer one, as
/// long as PBKDF2's keys are (which they are: its output is a sequence of
/// independent 32-byte blocks).
pub proof fn lemma_body_finish_prefix(pw: Seq<u8>, bfinal: Seq<u8>, flags: u32, buflen: usize, l: usize)
    requires
        l <= buflen,
        forall|m: usize| m <= buflen ==> #[trigger] pbkdf2_sha256_key(pw, bfinal, 1, m) == pbkdf2_sha256_key(pw, bfinal, 1, buflen).subrange(0, m as int),
        pbkdf2_sha256_key(pw, bfinal, 1, buflen).len() == buflen,
        flags != 0 && flags & YESCRYPT_PREHASH == 0 && buflen < 32 ==> pbkdf2_sha256_key(pw, bfinal, 1, 32).len() == 32,
        flags != 0 && flags & YESCRYPT_PREHASH == 0 ==> sha256_digest(
            hmac_sha256_tag(pbkdf2_sha256_key(pw, bfinal, 1, 32), client_key_label()),
        ).len() == 32,
    ensures
        body_finish(pw, bfinal, flags, l) == body_finish(pw, bfinal, flags, buflen).subrange(0, l as int),
{
    let out = pbkdf2_sha256_key(pw, bfinal, 1, buflen);
    let outl = pbkdf2_sha256_key(pw, bfinal, 1, l);
    assert(outl == out.subrange(0, l as int));
    if buflen >= 32 {
        assert(pbkdf2_sha256_key(pw, bfinal, 1, 32) == out.subrange(0, 32));
    }
    if flags != 0 && flags & YESCRYPT_PREHASH == 0 {
        let dk = pbkdf2_sha256_key(pw, bfinal, 1, 32);
        let ck = sha256_digest(hmac_sha256_tag(dk, client_key_label()));
        let fb = body_finish(pw, bfinal, flags, buflen);
        let fl = body_finish(pw, bfinal, flags, l);
        let clen_b: int = if buflen < 32 { buflen as int } else { 32 };
        assert(fb == ck.subrange(0, clen_b) + out.subrange(clen_b, buflen as int));
        if l < 32 {
            assert(fl == ck.subrange(0, l as int) + outl.subrange(l as int, l as int));
            assert(fl =~= fb.subrange(0, l as int));
        } else {
            assert(outl.subrange(0, 32) =~= dk);
            assert(fl == ck.subrange(0, 32) + outl.subrange(32, l as int));
            assert(fl =~= fb.subrange(0, l as int));
        }
    } else {
        assert(body_finish(pw, bfinal, flags, l) =~= body_finish(pw, bfinal, flags, buflen).subrange(0, l as int));
    }
}

/// Whether the body is refused outright: parameters not accepted, arrays
/// that cannot be allocated, or `V` to be kept in a local region that holds
/// something, but less than `V`.
pub open spec fn body_refused(local: Seq<u32>, flags: u32, n: u64, r: u32, p: u32, t: u32, buflen: usize) -> bool {
    ||| !params_ok(flags, n, r, p, t, buflen)
    ||| !sizes_fit(n, r, p)
    ||| (flags & YESCRYPT_INIT_SHARED != 0 && local.len() != 0 && local.len() < 32 * (r as int) * (n as int))
}

/// What the body returns, given the local region.
pub open spec fn body_result(
    local: Seq<u32>,
    passwd: Seq<u8>,
    salt: Seq<u8>,
    flags: u32,
    n: u64,
    r: u32,
    p: u32,
    t: u32,
    buflen: usize,
) -> Result<Seq<u8>, KdfError> {
    if body_refused(local, flags, n, r, p, t, buflen) {
        Err(KdfError::Rejected)
    } else if flags & YESCRYPT_INIT_SHARED != 0 && flags & YESCRYPT_ALLOC_ONLY != 0 {
        Err(KdfError::AllocOnly)
    } else {
        Ok(body_output(passwd, salt, flags, n, r, p, t, buflen, body_v0(local, flags, n, r)))
    }
}

/// What the local region holds after the body: unchanged unless `V` is kept
/// there; when it is, `V` (zeros if only allocated, else `V` after the
/// mixing).
pub open spec fn body_local_after(
    local: Seq<u32>,
    passwd: Seq<u8>,
    salt: Seq<u8>,
    flags: u32,
    n: u64,
    r: u32,
    p: u32,
    t: u32,
    buflen: usize,
) -> Seq<u32> {
    if body_refused(local, flags, n, r, p, t, buflen) || flags & YESCRYPT_INIT_SHARED == 0 {
        local
    } else if flags & YESCRYPT_ALLOC_ONLY != 0 {
        body_v0(local, flags, n, r)
    } else {
        body_mixed(passwd, salt, flags, n, r, p, t, body_v0(local, flags, n, r)).1
    }
}

/// The view of a result that carries bytes, cut to its first `l` bytes.
pub open spec fn result_prefix(res: Result<Vec<u8>, KdfError>, l: int) -> Result<Seq<u8>, KdfError> {
    match res {
        Ok(v) => Ok(v@.subrange(0, l)),
        Err(e) => Err(e),
    }
}

/// The view of a result that carries bytes.
pub open spec fn result_view(res: Result<Vec<u8>, KdfError>) -> Result<Seq<u8>, KdfError> {
    match res {
        Ok(v) => Ok(v@),
        Err(e) => Err(e),
    }
}

fn prehash_key_bytes(prehash: bool) -> (k: Vec<u8>)
    ensures
        k@ == prehash_key(prehash),
{
    let mut k: Vec<u8> = vec![0x79u8, 0x65, 0x73, 0x63, 0x72, 0x79, 0x70, 0x74];
    if prehash {
        k.push(0x2d);
        k.push(0x70);
        k.push(0x72);
        k.push(0x65);
        k.push(0x68);
        k.push(0x61);
        k.push(0x73);
        k.push(0x68);
    }
    assert(k@ =~= prehash_key(prehash));
    k
}

fn client_key_bytes() -> (k: Vec<u8>)
    ensures
        k@ == client_key_label(),
{
    let k: Vec<u8> = vec![0x43u8, 0x6c, 0x69, 0x65, 0x6e, 0x74, 0x20, 0x4b, 0x65, 0x79];
    assert(k@ =~= client_key_label());
    k
}

fn prefix(v: &Vec<u8>, len: usize) -> (res: Vec<u8>)
    requires
        len <= v@.len(),
    ensures
        res@ == v@.subrange(0, len as int),
{
    let mut res: Vec<u8> = Vec::new();
    let mut i: usize = 0;
    while i < len
        invariant
            len <= v@.len(),
            i <= len,
            res@ == v@.subrange(0, i as int),
        decreases len - i,
    {
        res.push(v[i]);
        i = i + 1;
        assert(res@ =~= v@.subrange(0, i as int));
    }
    res
}

proof fn lemma_div_mul_le(x: int, d: int)
    by (nonlinear_arith)
    requires
        0 <= x,
        1 <= d,
    ensures
        (x / d) * d <= x,
{
}

proof fn lemma_mul_le_mono(a: int, b: int, c: int)
    by (nonlinear_arith)
    requires
        0 <= a <= b,
        0 <= c,
    ensures
        a * c <= b * c,
{
}

proof fn lemma_rw_bit(flags: u32)
    by (bit_vector)
    requires
        flags & 3u32 == 2u32,
    ensures
        flags & 2u32 != 0u32,
{
}

/// Facts that follow from accepted parameters and allocatable sizes.
proof fn lemma_params_facts(flags: u32, n: u64, r: u32, p: u32, t: u32, buflen: usize)
    requires
        params_ok(flags, n, r, p, t, buflen),
        sizes_fit(n, r, p),
    ensures
        128 * (n as int) <= u64::MAX,
        (n as int) * (t as int + 1) <= u64::MAX,
        32 * (r as int) * (n as int) <= usize::MAX,
        32 * (r as int) * (p as int) <= usize::MAX,
        (n as int) * (32 * (r as int)) == 32 * (r as int) * (n as int),
        (p as int) * (32 * (r as int)) == 32 * (r as int) * (p as int),
        (r as int) * (n as int) >= n,
        4 * (32 * (r as int) * (p as int)) <= isize::MAX,
        4 * (32 * (r as int) * (p as int)) <= 32 * 0xffff_ffff,
        flags & YESCRYPT_INIT_SHARED != 0 ==> flags & YESCRYPT_RW != 0,
        flags & YESCRYPT_RW == 0 ==> flags == 0 || flags == 1,
{
    lemma_div_mul_le(0xffff_ffff_ffff_ffffint / 128, r as int);
    lemma_mul_le_mono(n as int, 0xffff_ffff_ffff_ffffint / 128 / (r as int), r as int);
    lemma_mul_le_mono(1, r as int, n as int);
    lemma_div_mul_le(0xffff_ffff_ffff_ffffint, t as int + 1);
    lemma_mul_le_mono(n as int, 0xffff_ffff_ffff_ffffint / (t as int + 1), t as int + 1);
    assert((n as int) * (32 * (r as int)) == 32 * (r as int) * (n as int)) by (nonlinear_arith);
    assert((p as int) * (32 * (r as int)) == 32 * (r as int) * (p as int)) by (nonlinear_arith);
    assert(32 * (r as int) * (n as int) * 4 == 128 * (r as int) * (n as int)) by (nonlinear_arith);
    assert(32 * (r as int) * (p as int) * 4 == 128 * (r as int) * (p as int)) by (nonlinear_arith);
    assert(isize::MAX as int <= usize::MAX as int);
    assert(128 * (r as int) * (p as int) == 128 * ((r as int) * (p as int))) by (nonlinear_arith);
    if flags & YESCRYPT_MODE_MASK == 2 {
        lemma_rw_bit(flags);
    }
    if flags & YESCRYPT_INIT_SHARED != 0 {
        lemma_shared_mode(flags);
    }
}

proof fn lemma_zero_flags()
    by (bit_vector)
    ensures
        0u32 & 2u32 == 0u32,
        0u32 & 0x100_0000u32 == 0u32,
        0u32 & 0x800_0000u32 == 0u32,
        0u32 & 0x1000_0000u32 == 0u32,
{
}

proof fn lemma_shared_mode(flags: u32)
    by (bit_vector)
    requires
        flags & 0x100_0000u32 != 0u32,
    ensures
        flags != 0u32,
        flags != 1u32,
{
}

fn copy_bytes(v: &[u8]) -> (res: Vec<u8>)
    ensures
        res@ == v@,
{
    let mut res: Vec<u8> = Vec::new();
    let mut i: usize = 0;
    while i < v.len()
        invariant
            i <= v@.len(),
            res@ == v@.subrange(0, i as int),
        decreases v@.len() - i,
    {
        res.push(v[i]);
        i = i + 1;
        assert(res@ =~= v@.subrange(0, i as int));
    }
    assert(res@ =~= v@);
    res
}

fn mix_lanes(
    b: &mut Vec<u32>,
    r: usize,
    n: u64,
    p: u32,
    t: u32,
    flags: u32,
    v: &mut Vec<u32>,
    passwd: &mut Vec<u8>,
)
    requires
        r >= 1,
        p >= 1,
        n >= 2,
        128 * n <= u64::MAX,
        n * (t + 1) <= u64::MAX,
        flags & YESCRYPT_RW == 0,
        flags & YESCRYPT_INIT_SHARED == 0,
        old(b)@.len() == p * (32 * r),
        old(v)@.len() == n * (32 * r),
    ensures
        final(b)@ == lanes_spec(old(b)@, old(v)@, old(passwd)@, r as nat, n, t, flags, p as nat).0,
        final(v)@ == lanes_spec(old(b)@, old(v)@, old(passwd)@, r as nat, n, t, flags, p as nat).1,
        final(passwd)@ == lanes_spec(old(b)@, old(v)@, old(passwd)@, r as nat, n, t, flags, p as nat).2,
        final(b)@.len() == old(b)@.len(),
        final(v)@.len() == old(v)@.len(),
{
    let ghost b0 = b@;
    let ghost v0 = v@;
    let ghost pw0 = passwd@;
    let blen = b.len();
    proof {
        lemma_mul_le_mono(1, p as int, 32 * r as int);
    }
    let s = 32 * r;
    let mut i: u32 = 0;
    while i < p
        invariant
            s == 32 * r,
            r >= 1,
            n >= 2,
            128 * n <= u64::MAX,
            n * (t + 1) <= u64::MAX,
            flags & YESCRYPT_RW == 0,
            flags & YESCRYPT_INIT_SHARED == 0,
            blen == b0.len(),
            b0.len() == p * s,
            v0.len() == n * s,
            i <= p,
            b@.len() == b0.len(),
            v@.len() == v0.len(),
            b@ == lanes_spec(b0, v0, pw0, r as nat, n, t, flags, i as nat).0,
            v@ == lanes_spec(b0, v0, pw0, r as nat, n, t, flags, i as nat).1,
            passwd@ == lanes_spec(b0, v0, pw0, r as nat, n, t, flags, i as nat).2,
        decreases p - i,
    {
        proof {
            lemma_mul_le_mono((i + 1) as int, p as int, s as int);
            assert((i + 1) * s == i * s + s) by (nonlinear_arith);
        }
        let boff = (i as usize) * s;
        smix(b, boff, r, n, 1, t, flags, v, passwd);
        i = i + 1;
    }
}

/// The body of yescrypt on accepted-or-not parameters, with the caller's
/// local region (empty, or smaller than the `V` that these parameters need).
pub fn yescrypt_kdf_body(
    local: &mut Local,
    passwd: &[u8],
    salt: &[u8],
    flags: u32,
    n: u64,
    r: u32,
    p: u32,
    t: u32,
    buflen: usize,
) -> (res: Result<Vec<u8>, KdfError>)
    ensures
        result_view(res) == body_result(old(local).v@, passwd@, salt@, flags, n, r, p, t, buflen),
        final(local).v@ == body_local_after(old(local).v@, passwd@, salt@, flags, n, r, p, t, buflen),
        res matches Ok(out) ==> out@.len() == buflen,
        flags == 0 && res is Ok ==> pbkdf2_sha256_key(passwd@, salt@, 1, (128 * (r as int) * (p as int)) as usize).len()
            == 128 * (r as int) * (p as int),
        forall|l: usize|
            l <= buflen && buflen <= 0x1f_ffff_ffe0 ==> #[trigger] body_result(
                old(local).v@,
                passwd@,
                salt@,
                flags,
                n,
                r,
                p,
                t,
                l,
            ) == result_prefix(res, l as int),
{
    if !check_params(flags, n, r, p, t, buflen) {
        return Err(KdfError::Rejected);
    }
    proof {
        lemma_u32_product_bound(r, p);
        lemma_u32_u64_product_bound(r, n);
    }
    // `V` and `B` must be allocatable; an array beyond the largest allocation
    // is refused as a failed allocation is.
    let vbytes: u128 = 128u128 * (r as u128) * (n as u128);
    let bbytes_len: u128 = 128u128 * (r as u128) * (p as u128);
    if vbytes > isize::MAX as u128 || bbytes_len > isize::MAX as u128 {
        return Err(KdfError::Rejected);
    }
    proof {
        lemma_params_facts(flags, n, r, p, t, buflen);
        lemma_mul_le_mono(1, n as int, 32 * (r as int));
        lemma_mul_le_mono(1, p as int, 32 * (r as int));
        lemma_mul_le_mono(1, r as int, n as int);
        assert((n as int) <= 32 * (r as int) * (n as int)) by (nonlinear_arith)
            requires
                r >= 1,
                n >= 0,
        ;
        assert(32 * (r as int) * (n as int) > 0) by (nonlinear_arith)
            requires
                r >= 1,
                n >= 1,
        ;
    }
    let ru = r as usize;
    let vwords: usize = 32 * ru * (n as usize);
    let bwords: usize = 32 * ru * (p as usize);
    let rw = flags & YESCRYPT_RW != 0;
    let shared = flags & YESCRYPT_INIT_SHARED != 0;
    // Every entry of `V` is written before it is read; it starts as zeros.
    let ghost local0 = local.v@;
    let mut v: Vec<u32> = Vec::new();
    if shared {
        // A region that already holds `V` is used as it is; an empty one is
        // filled with a fresh `V`.
        if local.v.len() < vwords {
            if local.v.len() != 0 {
                return Err(KdfError::Rejected);
            }
            local.v = vec![0u32; vwords];
            assert(local.v@ =~= zero_words((32 * (r as int) * (n as int)) as nat));
        }
        if flags & YESCRYPT_ALLOC_ONLY != 0 {
            return Err(KdfError::AllocOnly);
        }
        std::mem::swap(&mut v, &mut local.v);
    } else {
        v = vec![0u32; vwords];
        assert(v@ =~= zero_words((32 * (r as int) * (n as int)) as nat));
    }
    assert(v@ == body_v0(local0, flags, n, r));
    assert(v@.len() >= 32 * (r as int) * (n as int));
    let pw1: Vec<u8> = if flags != 0 {
        let key = prehash_key_bytes(flags & YESCRYPT_PREHASH != 0);
        hmac_sha256(key.as_slice(), passwd)
    } else {
        copy_bytes(passwd)
    };
    assert(4 * bwords == 128 * (r as int) * (p as int)) by (nonlinear_arith)
        requires
            bwords == 32 * (r as int) * (p as int),
    ;
    let bbytes = pbkdf2_sha256(pw1.as_slice(), salt, 1, 4 * bwords);
    let mut bw = words_from_le_bytes(&bbytes);
    let mut pw2: Vec<u8> = if flags != 0 {
        prefix(&bbytes, 32)
    } else {
        pw1
    };
    if rw {
        smix(&mut bw, 0, ru, n, p, t, flags, &mut v, &mut pw2);
    } else {
        mix_lanes(&mut bw, ru, n, p, t, flags, &mut v, &mut pw2);
    }
    if shared {
        std::mem::swap(&mut v, &mut local.v);
    }
    let bfinal = le_bytes_from_words(&bw, 0, bwords);
    assert(blk(bw@, 0, bwords as int) =~= bw@);
    let mut dkp: Vec<u8> = Vec::new();
    if flags != 0 && buflen < 32 {
        dkp = pbkdf2_sha256(pw2.as_slice(), bfinal.as_slice(), 1, 32);
    }
    let mut out = pbkdf2_sha256(pw2.as_slice(), bfinal.as_slice(), 1, buflen);
    if flags != 0 && flags & YESCRYPT_PREHASH == 0 {
        if buflen >= 32 {
            dkp = prefix(&out, 32);
        }
        let label = client_key_bytes();
        let h = hmac_sha256(dkp.as_slice(), label.as_slice());
        let d = sha256(h.as_slice());
        let clen: usize = if buflen < 32 {
            buflen
        } else {
            32
        };
        let ghost out0 = out@;
        let mut i: usize = 0;
        while i < clen
            invariant
                clen <= 32,
                clen <= buflen,
                d@.len() == 32,
                out@.len() == out0.len(),
                out0.len() == buflen,
                i <= clen,
                forall|k: int| 0 <= k < i ==> out@[k] == d@[k],
                forall|k: int| i <= k < out0.len() ==> out@[k] == out0[k],
            decreases clen - i,
        {
            out.set(i, d[i]);
            i = i + 1;
        }
        assert(out@ =~= d@.subrange(0, clen as int) + out0.subrange(clen as int, buflen as int));
        assert(dkp@ == pbkdf2_sha256_key(pw2@, bfinal@, 1, 32));
    }
    assert forall|l: usize| l <= buflen implies #[trigger] body_finish(pw2@, bfinal@, flags, l) == out@.subrange(0, l as int) by {
        lemma_body_finish_prefix(pw2@, bfinal@, flags, buflen, l);
    }
    Ok(out)
}

proof fn lemma_u32_u64_product_bound(r: u32, n: u64)
    by (nonlinear_arith)
    ensures
        128 * (r as int) * (n as int) < 0x1_0000_0000_0000_0000_0000_0000_0000_0000,
{
}

proof fn lemma_u32_product_bound(r: u32, p: u32)
    by (nonlinear_arith)
    ensures
        128 * (r as int) * (p as int) < 0x1_0000_0000_0000_0000_0000,
{
}

/// Whether a read-write derivation first runs a smaller pre-hash stage: at
/// least `2^8` blocks per lane and `2^17` blocks of 128 bytes per lane-width
/// (counted modulo `2^64`).
pub open spec fn prehash_applies(flags: u32, n: u64, r: u32, p: u32) -> bool {
    &&& flags & YESCRYPT_RW != 0
    &&& p >= 1
    &&& n as int / p as int >= 0x100
    &&& ((n as int / p as int) * (r as int)) % 0x1_0000_0000_0000_0000 >= 0x2_0000
}

/// What the derivation returns: rejected when `g` is not zero; otherwise,
/// when the pre-hash stage applies, the body on `N / 64` with no extra time
/// produces a 32-byte password for the main body (sharing the local region);
/// else the body alone.
pub open spec fn kdf_inner_result(
    local: Seq<u32>,
    passwd: Seq<u8>,
    salt: Seq<u8>,
    flags: u32,
    n: u64,
    r: u32,
    p: u32,
    t: u32,
    g: u32,
    buflen: usize,
) -> Result<Seq<u8>, KdfError> {
    if g != 0 {
        Err(KdfError::Rejected)
    } else if prehash_applies(flags, n, r, p) {
        let pre_flags = flags | YESCRYPT_PREHASH;
        let pre_n = (n / 64) as u64;
        match body_result(local, passwd, salt, pre_flags, pre_n, r, p, 0, 32) {
            Err(e) => Err(e),
            Ok(dk) => body_result(
                body_local_after(local, passwd, salt, pre_flags, pre_n, r, p, 0, 32),
                dk,
                salt,
                flags,
                n,
                r,
                p,
                t,
                buflen,
            ),
        }
    } else {
        body_result(local, passwd, salt, flags, n, r, p, t, buflen)
    }
}

/// What the local region holds after the derivation: as it was when `g` is
/// not zero; otherwise as the body (or the pre-hash body and then the main
/// body) leaves it.
pub open spec fn kdf_inner_local(
    local: Seq<u32>,
    passwd: Seq<u8>,
    salt: Seq<u8>,
    flags: u32,
    n: u64,
    r: u32,
    p: u32,
    t: u32,
    g: u32,
    buflen: usize,
) -> Seq<u32> {
    if g != 0 {
        local
    } else if prehash_applies(flags, n, r, p) {
        let pre_flags = flags | YESCRYPT_PREHASH;
        let pre_n = (n / 64) as u64;
        let local1 = body_local_after(local, passwd, salt, pre_flags, pre_n, r, p, 0, 32);
        match body_result(local, passwd, salt, pre_flags, pre_n, r, p, 0, 32) {
            Err(_) => local1,
            Ok(dk) => body_local_after(local1, dk, salt, flags, n, r, p, t, buflen),
        }
    } else {
        body_local_after(local, passwd, salt, flags, n, r, p, t, buflen)
    }
}

/// Law of the pre-hash stage: when it applies and its body yields `dk`, the
/// derivation is the main body run with `dk` as the password (on the local
/// region as the pre-hash body left it).
pub proof fn law_prehash_feeds_main_body(
    local: Seq<u32>,
    passwd: Seq<u8>,
    salt: Seq<u8>,
    flags: u32,
    n: u64,
    r: u32,
    p: u32,
    t: u32,
    buflen: usize,
    dk: Seq<u8>,
)
    requires
        prehash_applies(flags, n, r, p),
        body_result(local, passwd, salt, flags | YESCRYPT_PREHASH, (n / 64) as u64, r, p, 0, 32) == Ok::<
            Seq<u8>,
            KdfError,
        >(dk),
    ensures
        kdf_inner_result(local, passwd, salt, flags, n, r, p, t, 0, buflen) == body_result(
            body_local_after(local, passwd, salt, flags | YESCRYPT_PREHASH, (n / 64) as u64, r, p, 0, 32),
            dk,
            salt,
            flags,
            n,
            r,
            p,
            t,
            buflen,
        ),
{
}

/// Law of the pre-hash stage: when it applies, the password reaches the main
/// body only through the pre-hash result: two passwords whose pre-hash stage
/// ends alike (same result, same local region) give the same derivation.
pub proof fn law_prehash_hides_password(
    local: Seq<u32>,
    p1: Seq<u8>,
    p2: Seq<u8>,
    salt: Seq<u8>,
    flags: u32,
    n: u64,
    r: u32,
    p: u32,
    t: u32,
    buflen: usize,
)
    requires
        prehash_applies(flags, n, r, p),
        body_result(local, p1, salt, flags | YESCRYPT_PREHASH, (n / 64) as u64, r, p, 0, 32) == body_result(
            local,
            p2,
            salt,
            flags | YESCRYPT_PREHASH,
            (n / 64) as u64,
            r,
            p,
            0,
            32,
        ),
        body_local_after(local, p1, salt, flags | YESCRYPT_PREHASH, (n / 64) as u64, r, p, 0, 32) == body_local_after(
            local,
            p2,
            salt,
            flags | YESCRYPT_PREHASH,
            (n / 64) as u64,
            r,
            p,
            0,
            32,
        ),
    ensures
        kdf_inner_result(local, p1, salt, flags, n, r, p, t, 0, buflen) == kdf_inner_result(
            local,
            p2,
            salt,
            flags,
            n,
            r,
            p,
            t,
            0,
            buflen,
        ),
{
}

/// The key that `yescrypt_kdf` returns: the derived key, or `dstlen` zero
/// bytes when the derivation is refused.
pub open spec fn yescrypt_kdf_spec(
    passwd: Seq<u8>,
    salt: Seq<u8>,
    flags: u32,
    n: u64,
    r: u32,
    p: u32,
    t: u32,
    g: u32,
    dstlen: usize,
) -> Seq<u8> {
    match kdf_inner_result(Seq::empty(), passwd, salt, flags, n, r, p, t, g, dstlen) {
        Ok(key) => key,
        Err(_) => Seq::new(dstlen as nat, |i: int| 0u8),
    }
}

proof fn lemma_shift6(n: u64)
    by (bit_vector)
    ensures
        n >> 6u64 == n / 64,
{
}

/// The derivation with a local region, as the library runs it: the optional
/// pre-hash stage and then the body.
pub fn yescrypt_kdf_inner(
    local: &mut Local,
    passwd: &[u8],
    salt: &[u8],
    flags: u32,
    n: u64,
    r: u32,
    p: u32,
    t: u32,
    g: u32,
    buflen: usize,
) -> (res: Result<Vec<u8>, KdfError>)
    ensures
        result_view(res) == kdf_inner_result(old(local).v@, passwd@, salt@, flags, n, r, p, t, g, buflen),
        final(local).v@ == kdf_inner_local(old(local).v@, passwd@, salt@, flags, n, r, p, t, g, buflen),
        res matches Ok(out) ==> out@.len() == buflen,
        flags == 0 && res is Ok ==> pbkdf2_sha256_key(passwd@, salt@, 1, (128 * (r as int) * (p as int)) as usize).len()
            == 128 * (r as int) * (p as int),
        forall|l: usize|
            l <= buflen && buflen <= 0x1f_ffff_ffe0 ==> #[trigger] kdf_inner_result(
                old(local).v@,
                passwd@,
                salt@,
                flags,
                n,
                r,
                p,
                t,
                g,
                l,
            ) == result_prefix(res, l as int),
{
    if g != 0 {
        return Err(KdfError::Rejected);
    }
    if flags & YESCRYPT_RW != 0 && p >= 1 && n / (p as u64) >= 0x100 && (n / (p as u64)).wrapping_mul(
        r as u64,
    ) >= 0x2_0000 {
        proof {
            lemma_shift6(n);
        }
        proof {
            lemma_zero_flags();
        }
        let pre = yescrypt_kdf_body(local, passwd, salt, flags | YESCRYPT_PREHASH, n >> 6u32, r, p, 0, 32);
        match pre {
            Err(e) => {
                return Err(e);
            },
            Ok(dk) => {
                return yescrypt_kdf_body(local, dk.as_slice(), salt, flags, n, r, p, t, buflen);
            },
        }
    }
    yescrypt_kdf_body(local, passwd, salt, flags, n, r, p, t, buflen)
}

/// yescrypt key derivation: derives `dstlen` bytes from `passwd` and `salt`
/// with the mode `flags`, `N` blocks of `V` (`n`), block size `r`,
/// parallelism `p` and extra time `t`; `g` must be 0. When the parameters
/// are refused the result is `dstlen` zero bytes.
pub fn yescrypt_kdf(
    passwd: &[u8],
    salt: &[u8],
    flags: u32,
    n: u64,
    r: u32,
    p: u32,
    t: u32,
    g: u32,
    dstlen: usize,
) -> (res: Vec<u8>)
    ensures
        res@ == yescrypt_kdf_spec(passwd@, salt@, flags, n, r, p, t, g, dstlen),
        res@.len() == dstlen,
        g != 0 || !params_ok(flags, n, r, p, t, dstlen) ==> res@ == Seq::new(dstlen as nat, |i: int| 0u8),
        flags == 0 && t == 0 && g == 0 && params_ok(flags, n, r, p, t, dstlen) && sizes_fit(n, r, p) ==> res@
            == scrypt_spec(passwd@, salt@, n, r, p, dstlen),
        forall|l: usize|
            l <= dstlen && dstlen <= 0x1f_ffff_ffe0 ==> #[trigger] yescrypt_kdf_spec(
                passwd@,
                salt@,
                flags,
                n,
                r,
                p,
                t,
                g,
                l,
            ) == res@.subrange(0, l as int),
{
    let mut local = yescrypt_init_local();
    assert(local.v@ =~= Seq::<u32>::empty());
    match yescrypt_kdf_inner(&mut local, passwd, salt, flags, n, r, p, t, g, dstlen) {
        Ok(key) => {
            proof {
                if flags == 0 && t == 0 && g == 0 && params_ok(flags, n, r, p, t, dstlen) && sizes_fit(n, r, p) {
                    lemma_scrypt_mode_is_scrypt(passwd@, salt@, n, r, p, dstlen);
                }
            }
            key
        },
        Err(_) => {
            proof {
                lemma_zero_flags();
            }
            let zeros = vec![0u8; dstlen];
            assert(zeros@ =~= Seq::new(dstlen as nat, |i: int| 0u8));
            assert forall|l: usize| l <= dstlen && dstlen <= 0x1f_ffff_ffe0 implies #[trigger] yescrypt_kdf_spec(
                passwd@,
                salt@,
                flags,
                n,
                r,
                p,
                t,
                g,
                l,
            ) == zeros@.subrange(0, l as int) by {
                assert(Seq::new(l as nat, |i: int| 0u8) =~= zeros@.subrange(0, l as int));
            }
            zeros
        },
    }
}

} // verus!
