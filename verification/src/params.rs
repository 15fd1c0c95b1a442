//! The flags of yescrypt and the rules that its parameters must meet.

use vstd::prelude::*;

verus! {

/// Write-once-read-many mode: classic scrypt with optional extra passes.
pub const YESCRYPT_WORM: u32 = 0x1;
/// Read-write mode: pwxform, S-boxes and writes back into `V`.
pub const YESCRYPT_RW: u32 = 0x2;
/// The bits that select the mode.
pub const YESCRYPT_MODE_MASK: u32 = 0x3;
/// The bits that select the read-write flavor.
pub const YESCRYPT_RW_FLAVOR_MASK: u32 = 0x3fc;
/// The only flavor supported: 6 rounds, gather 4, simple 2, 12 KiB S-boxes.
pub const YESCRYPT_RW_DEFAULT_FLAVOR: u32 = 0xb4;
/// A shared ROM was preallocated.
pub const YESCRYPT_SHARED_PREALLOCATED: u32 = 0x10000;
/// `V` lives in the caller's local region and is kept there.
pub const YESCRYPT_INIT_SHARED: u32 = 0x100_0000;
/// Only allocate the local region, compute nothing.
pub const YESCRYPT_ALLOC_ONLY: u32 = 0x800_0000;
/// The inner hash of a two-stage computation.
pub const YESCRYPT_PREHASH: u32 = 0x1000_0000;
/// Every flag that read-write mode knows.
pub const YESCRYPT_KNOWN_FLAGS: u32 = 0x1901_03ff;

/// Whether `flags` (and `t`) name a supported mode: scrypt (`0`, no extra
/// time), WORM (`1` alone), or read-write with the default flavor and only
/// known flags.
pub open spec fn flavor_ok(flags: u32, t: u32) -> bool {
    let mode = flags & YESCRYPT_MODE_MASK;
    if mode == 0 {
        flags == 0 && t == 0
    } else if mode == 1 {
        flags == YESCRYPT_WORM
    } else if mode == 2 {
        flags == flags & YESCRYPT_KNOWN_FLAGS && flags & YESCRYPT_RW_FLAVOR_MASK == YESCRYPT_RW_DEFAULT_FLAVOR
    } else {
        false
    }
}

/// Whether the parameters are accepted: a supported mode, an output of at
/// most `2^32 - 1` SHA-256 blocks, `r * p < 2^30`, `N` a power of two above
/// 1, `r, p >= 1`, `128 * r * p` and `128 * r * N` within 64 bits, `N * (t + 1)`
/// within 64 bits, and in read-write mode at least two blocks per lane.
pub open spec fn params_ok(flags: u32, n: u64, r: u32, p: u32, t: u32, buflen: usize) -> bool {
    &&& flavor_ok(flags, t)
    &&& buflen <= 0x1f_ffff_ffe0
    &&& (r as int) * (p as int) < 0x4000_0000
    &&& n > 1
    &&& n & ((n - 1) as u64) == 0
    &&& r >= 1
    &&& p >= 1
    &&& r as int <= (0xffff_ffff_ffff_ffffint / 128) / (p as int)
    &&& n as int <= (0xffff_ffff_ffff_ffffint / 128) / (r as int)
    &&& n as int <= 0xffff_ffff_ffff_ffffint / (t as int + 1)
    &&& (flags & YESCRYPT_RW != 0 ==> n as int / p as int > 1)
}

proof fn lemma_u32_product(a: u32, b: u32)
    by (nonlinear_arith)
    ensures
        a as int * b as int <= 0xffff_fffe_0000_0001,
{
}

/// Whether `flags` and `t` name a supported mode.
pub fn check_flavor(flags: u32, t: u32) -> (ok: bool)
    ensures
        ok == flavor_ok(flags, t),
{
    match flags & YESCRYPT_MODE_MASK {
        0 => flags == 0 && t == 0,
        1 => flags == YESCRYPT_WORM,
        2 => flags == flags & YESCRYPT_KNOWN_FLAGS && flags & YESCRYPT_RW_FLAVOR_MASK
            == YESCRYPT_RW_DEFAULT_FLAVOR,
        _ => false,
    }
}

/// Whether the parameters are accepted (see `params_ok`).
pub fn check_params(flags: u32, n: u64, r: u32, p: u32, t: u32, buflen: usize) -> (ok: bool)
    ensures
        ok == params_ok(flags, n, r, p, t, buflen),
{
    if !check_flavor(flags, t) {
        return false;
    }
    if buflen as u64 > 0x1f_ffff_ffe0u64 {
        return false;
    }
    proof {
        lemma_u32_product(r, p);
    }
    if (r as u64) * (p as u64) >= 0x4000_0000u64 {
        return false;
    }
    if n & n.wrapping_sub(1) != 0 || n <= 1 || r < 1 || p < 1 {
        return false;
    }
    if r as u64 > u64::MAX / 128 / (p as u64) || n > u64::MAX / 128 / (r as u64) {
        return false;
    }
    if n > u64::MAX / ((t as u64) + 1) {
        return false;
    }
    // Read-write mode also wants `r` at least one pwxform block and `p` small
    // enough for the S-boxes and their contexts to be counted in 64 bits; a
    // `u32` count always is.
    if flags & YESCRYPT_RW != 0 && n / (p as u64) <= 1 {
        return false;
    }
    true
}

} // verus!
