//! The sequential memory-hard mixing of yescrypt (scrypt's ROMix, extended):
//! `smix1` fills the array `V`, `smix2` reads it back at data-dependent
//! places, and `smix` runs both over the parallel lanes of `B`.

use vstd::prelude::*;
use crate::common::{blk, put_blk, xor_words, blkcpy, blkxor, wrap, wrap_spec, prev_pow2, prev_power_of_two, lemma_and_le, lemma_wrap_below};
use crate::salsa20::{blockmix_salsa8, blockmix_salsa8_spec};
use crate::common::{le32_bytes, le_bytes_from_words};
use crate::pwxform::{PwxformCtx, sbox_wf, blockmix_pwxform, blockmix_pwxform_spec};
use crate::salsa20::salsa20_core;
use crate::sha256::{hmac_sha256, hmac_sha256_tag};
use crate::params::{YESCRYPT_RW, YESCRYPT_INIT_SHARED};

verus! {

/// BlockMix with pwxform when `pwx` holds, else BlockMix with Salsa20/8
/// (which leaves the S-box state alone).
pub open spec fn blockmix_spec(
    x: Seq<u32>,
    c: (Seq<u32>, Seq<u32>, Seq<u32>, nat),
    r: nat,
    pwx: bool,
) -> (Seq<u32>, (Seq<u32>, Seq<u32>, Seq<u32>, nat)) {
    if pwx {
        blockmix_pwxform_spec(x, c, r)
    } else {
        (blockmix_salsa8_spec(x, r), c)
    }
}

/// The 64-bit number read from the first two words of the last sub-block (in
/// Salsa20's order they sit at shuffled places 0 and 13).
pub open spec fn integerify_spec(x: Seq<u32>, r: nat) -> u64 {
    (x[16 * (2 * r - 1) + 13] as int * 0x1_0000_0000 + x[16 * (2 * r - 1)] as int) as u64
}

/// BlockMix gives a block of the same length.
pub proof fn lemma_blockmix_len(x: Seq<u32>, c: (Seq<u32>, Seq<u32>, Seq<u32>, nat), r: nat, pwx: bool)
    requires
        r >= 1,
        x.len() == 32 * r,
    ensures
        blockmix_spec(x, c, r, pwx).0.len() == 32 * r,
{
    reveal(salsa20_core);
}

/// A block of `2 * r` sub-blocks put into the shuffled order.
pub open spec fn shuffle_block(b: Seq<u32>, r: nat) -> Seq<u32> {
    Seq::new(32 * r, |w: int| b[16 * (w / 16) + (5 * (w % 16)) % 16])
}

/// A block of `2 * r` sub-blocks put back from the shuffled order.
pub open spec fn unshuffle_block(x: Seq<u32>, r: nat) -> Seq<u32> {
    Seq::new(32 * r, |w: int| x[16 * (w / 16) + (13 * (w % 16)) % 16])
}

/// `smix1` after `i` steps, on the shuffled block `x`: each step stores the
/// block as entry `k` of the region of `V` at `voff`, in read-write mode mixes
/// in an earlier entry chosen by `wrap`, and applies BlockMix.
pub open spec fn smix1_loop(
    x: Seq<u32>,
    v: Seq<u32>,
    c: (Seq<u32>, Seq<u32>, Seq<u32>, nat),
    r: nat,
    voff: int,
    rw: bool,
    pwx: bool,
    i: nat,
) -> (Seq<u32>, Seq<u32>, (Seq<u32>, Seq<u32>, Seq<u32>, nat))
    decreases i,
{
    if i == 0 {
        (x, v, c)
    } else {
        let st = smix1_loop(x, v, c, r, voff, rw, pwx, (i - 1) as nat);
        let k = i - 1;
        let s: int = 32 * r as int;
        let v1 = put_blk(st.1, voff + k * s, st.0);
        let x1 = if rw && k > 1 {
            xor_words(st.0, blk(v1, voff + wrap_spec(integerify_spec(st.0, r), k as u64) * s, s))
        } else {
            st.0
        };
        let m = blockmix_spec(x1, st.2, r, pwx);
        (m.0, v1, m.1)
    }
}

proof fn lemma_smix1_entries_upto(
    x: Seq<u32>,
    v: Seq<u32>,
    c: (Seq<u32>, Seq<u32>, Seq<u32>, nat),
    r: nat,
    voff: int,
    rw: bool,
    pwx: bool,
    n: nat,
    i: nat,
)
    requires
        r >= 1,
        x.len() == 32 * r,
        0 <= voff,
        voff + n * (32 * r) <= v.len(),
        n <= u64::MAX,
        i <= n,
    ensures
        smix1_loop(x, v, c, r, voff, rw, pwx, i).0.len() == 32 * r,
        smix1_loop(x, v, c, r, voff, rw, pwx, i).1.len() == v.len(),
        forall|k: int|
            0 <= k < i ==> #[trigger] blk(smix1_loop(x, v, c, r, voff, rw, pwx, i).1, voff + k * (32 * r as int), 32 * r as int)
                == smix1_loop(x, v, c, r, voff, rw, pwx, k as nat).0,
    decreases i,
{
    let s = 32 * r as int;
    if i > 0 {
        lemma_smix1_entries_upto(x, v, c, r, voff, rw, pwx, n, (i - 1) as nat);
        let st = smix1_loop(x, v, c, r, voff, rw, pwx, (i - 1) as nat);
        let v1 = put_blk(st.1, voff + (i - 1) * s, st.0);
        lemma_block_end(i - 1, n as int, s);
        if rw && i - 1 > 1 {
            let j = wrap_spec(integerify_spec(st.0, r), (i - 1) as u64);
            lemma_wrap_below(integerify_spec(st.0, r), (i - 1) as u64);
            lemma_block_end(j as int, i - 1, s);
            lemma_blockmix_len(xor_words(st.0, blk(v1, voff + j * s, s)), st.2, r, pwx);
        } else {
            lemma_blockmix_len(st.0, st.2, r, pwx);
        }
        assert forall|k: int| 0 <= k < i implies #[trigger] blk(v1, voff + k * s, s) == smix1_loop(
            x,
            v,
            c,
            r,
            voff,
            rw,
            pwx,
            k as nat,
        ).0 by {
            if k < i - 1 {
                lemma_block_end(k, i - 1, s);
                assert(blk(v1, voff + k * s, s) =~= blk(st.1, voff + k * s, s));
            } else {
                assert(blk(v1, voff + k * s, s) =~= st.0);
            }
        }
    }
}

/// Law of `smix1`'s array: after `n` steps, entry `k` (`k < n`) of the
/// region of `V` at `voff` holds the block as it stood at the start of step
/// `k`, before any read-write mixing of that step; later steps never
/// overwrite it.
pub proof fn law_smix1_entries(
    x: Seq<u32>,
    v: Seq<u32>,
    c: (Seq<u32>, Seq<u32>, Seq<u32>, nat),
    r: nat,
    voff: int,
    rw: bool,
    pwx: bool,
    n: nat,
)
    requires
        r >= 1,
        x.len() == 32 * r,
        0 <= voff,
        voff + n * (32 * r) <= v.len(),
        n <= u64::MAX,
    ensures
        forall|k: int|
            0 <= k < n ==> #[trigger] blk(smix1_loop(x, v, c, r, voff, rw, pwx, n).1, voff + k * (32 * r as int), 32 * r as int)
                == smix1_loop(x, v, c, r, voff, rw, pwx, k as nat).0,
{
    lemma_smix1_entries_upto(x, v, c, r, voff, rw, pwx, n, n);
}

/// Law of `smix1`'s steps, in terms of the blocks alone: `X[k + 1]` is
/// BlockMix of `X[k]`, except that in read-write mode from step 2 on it is
/// BlockMix of `X[k] xor X[j]` with `j = wrap(Integerify(X[k]), k) < k`.
pub proof fn law_smix1_step(
    x: Seq<u32>,
    v: Seq<u32>,
    c: (Seq<u32>, Seq<u32>, Seq<u32>, nat),
    r: nat,
    voff: int,
    rw: bool,
    pwx: bool,
    n: nat,
    k: nat,
)
    requires
        r >= 1,
        x.len() == 32 * r,
        0 <= voff,
        voff + n * (32 * r) <= v.len(),
        n <= u64::MAX,
        k < n,
    ensures
        ({
            let xk = smix1_loop(x, v, c, r, voff, rw, pwx, k).0;
            let ck = smix1_loop(x, v, c, r, voff, rw, pwx, k).2;
            let j = wrap_spec(integerify_spec(xk, r), k as u64);
            let mixed = if rw && k > 1 {
                xor_words(xk, smix1_loop(x, v, c, r, voff, rw, pwx, j as nat).0)
            } else {
                xk
            };
            &&& (rw && k > 1 ==> j < k)
            &&& smix1_loop(x, v, c, r, voff, rw, pwx, k + 1).0 == blockmix_spec(mixed, ck, r, pwx).0
            &&& smix1_loop(x, v, c, r, voff, rw, pwx, k + 1).2 == blockmix_spec(mixed, ck, r, pwx).1
        }),
{
    let s = 32 * r as int;
    lemma_smix1_entries_upto(x, v, c, r, voff, rw, pwx, n, k);
    let st = smix1_loop(x, v, c, r, voff, rw, pwx, k);
    if rw && k > 1 {
        let j = wrap_spec(integerify_spec(st.0, r), k as u64);
        lemma_wrap_below(integerify_spec(st.0, r), k as u64);
        lemma_block_end(j as int, k as int, s);
        lemma_block_end(k as int, n as int, s);
        let v1 = put_blk(st.1, voff + k * s, st.0);
        assert(blk(v1, voff + j * s, s) =~= blk(st.1, voff + j * s, s));
    }
}

/// `smix1` on the lane `b` with `n` steps: the lane after it, `V`, and the
/// S-box state.
#[verifier::opaque]
pub open spec fn smix1_spec(
    b: Seq<u32>,
    v: Seq<u32>,
    c: (Seq<u32>, Seq<u32>, Seq<u32>, nat),
    r: nat,
    n: nat,
    voff: int,
    rw: bool,
    pwx: bool,
) -> (Seq<u32>, Seq<u32>, (Seq<u32>, Seq<u32>, Seq<u32>, nat)) {
    let st = smix1_loop(shuffle_block(b, r), v, c, r, voff, rw, pwx, n);
    (unshuffle_block(st.0, r), st.1, st.2)
}

/// `smix2` after `i` steps over a region of `n` entries of `V` at `voff`:
/// each step mixes in the entry that `integerify` picks, in read-write mode
/// stores the result back there, and applies BlockMix.
pub open spec fn smix2_loop(
    x: Seq<u32>,
    v: Seq<u32>,
    c: (Seq<u32>, Seq<u32>, Seq<u32>, nat),
    r: nat,
    n: u64,
    voff: int,
    rw: bool,
    pwx: bool,
    i: nat,
) -> (Seq<u32>, Seq<u32>, (Seq<u32>, Seq<u32>, Seq<u32>, nat))
    decreases i,
{
    if i == 0 {
        (x, v, c)
    } else {
        let st = smix2_loop(x, v, c, r, n, voff, rw, pwx, (i - 1) as nat);
        let s: int = 32 * r as int;
        let j = integerify_spec(st.0, r) & ((n - 1) as u64);
        let x1 = xor_words(st.0, blk(st.1, voff + j * s, s));
        let v1 = if rw {
            put_blk(st.1, voff + j * s, x1)
        } else {
            st.1
        };
        let m = blockmix_spec(x1, st.2, r, pwx);
        (m.0, v1, m.1)
    }
}

proof fn lemma_smix2_lens(
    x: Seq<u32>,
    v: Seq<u32>,
    c: (Seq<u32>, Seq<u32>, Seq<u32>, nat),
    r: nat,
    n: u64,
    voff: int,
    rw: bool,
    pwx: bool,
    k: nat,
)
    requires
        r >= 1,
        n >= 1,
        0 <= voff,
        voff + n * (32 * r) <= v.len(),
        x.len() == 32 * r,
    ensures
        smix2_loop(x, v, c, r, n, voff, rw, pwx, k).0.len() == 32 * r,
        smix2_loop(x, v, c, r, n, voff, rw, pwx, k).1.len() == v.len(),
    decreases k,
{
    let s = 32 * r as int;
    if k > 0 {
        lemma_smix2_lens(x, v, c, r, n, voff, rw, pwx, (k - 1) as nat);
        let st = smix2_loop(x, v, c, r, n, voff, rw, pwx, (k - 1) as nat);
        let j = integerify_spec(st.0, r) & ((n - 1) as u64);
        lemma_and_le(integerify_spec(st.0, r), (n - 1) as u64);
        lemma_block_end(j as int, n as int, s);
        lemma_blockmix_len(xor_words(st.0, blk(st.1, voff + j * s, s)), st.2, r, pwx);
    }
}

/// Law of `smix2`'s steps: step `k` picks entry `j = Integerify(X) mod N`
/// (`N` a power of two; `j < N`), mixes it in (`X xor V[j]`), applies
/// BlockMix, and in read-write mode stores the mixed block (before BlockMix)
/// back as entry `j`, changing nothing else of `V`; otherwise `V` stays.
pub proof fn law_smix2_step(
    x: Seq<u32>,
    v: Seq<u32>,
    c: (Seq<u32>, Seq<u32>, Seq<u32>, nat),
    r: nat,
    n: u64,
    voff: int,
    rw: bool,
    pwx: bool,
    k: nat,
)
    requires
        r >= 1,
        n >= 1,
        n & ((n - 1) as u64) == 0,
        0 <= voff,
        voff + n * (32 * r) <= v.len(),
        x.len() == 32 * r,
    ensures
        ({
            let s = 32 * r as int;
            let st = smix2_loop(x, v, c, r, n, voff, rw, pwx, k);
            let j = integerify_spec(st.0, r) % n;
            let mixed = xor_words(st.0, st.1.subrange(voff + j * s, voff + j * s + s));
            let next = smix2_loop(x, v, c, r, n, voff, rw, pwx, k + 1);
            &&& j < n
            &&& next.0 == blockmix_spec(mixed, st.2, r, pwx).0
            &&& next.2 == blockmix_spec(mixed, st.2, r, pwx).1
            &&& next.1.len() == v.len()
            &&& (rw ==> next.1.subrange(voff + j * s, voff + j * s + s) == mixed)
            &&& (forall|m: int|
                0 <= m < v.len() && !(rw && voff + j * s <= m < voff + j * s + s) ==> #[trigger] next.1[m] == st.1[m])
        }),
{
    let s = 32 * r as int;
    lemma_smix2_lens(x, v, c, r, n, voff, rw, pwx, k);
    let st = smix2_loop(x, v, c, r, n, voff, rw, pwx, k);
    crate::common::lemma_and_mask_is_mod(integerify_spec(st.0, r), n);
    let j = integerify_spec(st.0, r) % n;
    lemma_block_end(j as int, n as int, s);
    let mixed = xor_words(st.0, blk(st.1, voff + j * s, s));
    if rw {
        assert(put_blk(st.1, voff + j * s, mixed).subrange(voff + j * s, voff + j * s + s) =~= mixed);
    }
}

/// `smix2` on the lane `b` with `nloop` steps.
#[verifier::opaque]
pub open spec fn smix2_spec(
    b: Seq<u32>,
    v: Seq<u32>,
    c: (Seq<u32>, Seq<u32>, Seq<u32>, nat),
    r: nat,
    n: u64,
    nloop: nat,
    voff: int,
    rw: bool,
    pwx: bool,
) -> (Seq<u32>, Seq<u32>, (Seq<u32>, Seq<u32>, Seq<u32>, nat)) {
    let st = smix2_loop(shuffle_block(b, r), v, c, r, n, voff, rw, pwx, nloop);
    (unshuffle_block(st.0, r), st.1, st.2)
}

/// `a * s + s <= b * s` whenever `a < b`.
proof fn lemma_block_end(a: int, b: int, s: int)
    by (nonlinear_arith)
    requires
        0 <= a < b,
        1 <= s,
    ensures
        a * s + s <= b * s,
        0 <= a * s,
        a <= a * s,
{
}

fn integerify(x: &Vec<u32>, r: usize) -> (res: u64)
    requires
        r >= 1,
        x@.len() == 32 * r,
    ensures
        res == integerify_spec(x@, r as nat),
{
    let len = x.len();
    let base = (2 * r - 1) * 16;
    (x[base + 13] as u64) * 0x1_0000_0000u64 + (x[base] as u64)
}

#[verifier::spinoff_prover]
#[verifier::rlimit(30)]
fn shuffle_in(b: &Vec<u32>, boff: usize, r: usize) -> (x: Vec<u32>)
    requires
        r >= 1,
        boff + 32 * r <= b@.len(),
    ensures
        x@ == shuffle_block(blk(b@, boff as int, 32 * r), r as nat),
{
    let len = b.len();
    let s = 32 * r;
    let mut x: Vec<u32> = Vec::new();
    let mut w: usize = 0;
    while w < s
        invariant
            s == 32 * r,
            len == b@.len(),
            boff + s <= len,
            w <= s,
            x@.len() == w,
            forall|k: int| 0 <= k < w ==> x@[k] == b@[boff + 16 * (k / 16) + (5 * (k % 16)) % 16],
        decreases s - w,
    {
        x.push(b[boff + 16 * (w / 16) + (5 * (w % 16)) % 16]);
        w = w + 1;
    }
    assert(x@ =~= shuffle_block(blk(b@, boff as int, 32 * r), r as nat));
    x
}

#[verifier::spinoff_prover]
#[verifier::rlimit(30)]
fn unshuffle_out(b: &mut Vec<u32>, boff: usize, x: &Vec<u32>, r: usize)
    requires
        r >= 1,
        boff + 32 * r <= old(b)@.len(),
        x@.len() == 32 * r,
    ensures
        final(b)@ == put_blk(old(b)@, boff as int, unshuffle_block(x@, r as nat)),
{
    let ghost b0 = b@;
    let len = b.len();
    let s = 32 * r;
    let mut w: usize = 0;
    while w < s
        invariant
            s == 32 * r,
            len == b0.len(),
            b@.len() == b0.len(),
            x@.len() == s,
            boff + s <= len,
            w <= s,
            forall|k: int| 0 <= k < boff || boff + w <= k < b0.len() ==> b@[k] == b0[k],
            forall|k: int| boff <= k < boff + w ==> b@[k] == x@[16 * ((k - boff) / 16) + (13 * ((k - boff) % 16)) % 16],
        decreases s - w,
    {
        b.set(boff + w, x[16 * (w / 16) + (13 * (w % 16)) % 16]);
        w = w + 1;
    }
    assert(b@ =~= put_blk(b0, boff as int, unshuffle_block(x@, r as nat)));
}

fn blockmix(x: &mut Vec<u32>, ctx: &mut PwxformCtx, r: usize, pwx: bool)
    requires
        r >= 1,
        old(x)@.len() == 32 * r,
        pwx ==> sbox_wf(old(ctx)@),
    ensures
        final(x)@.len() == 32 * r,
        pwx ==> sbox_wf(final(ctx)@),
        (final(x)@, final(ctx)@) == blockmix_spec(old(x)@, old(ctx)@, r as nat, pwx),
{
    if pwx {
        blockmix_pwxform(x, ctx, r);
    } else {
        blockmix_salsa8(x, r);
        proof {
            assert(blockmix_salsa8_spec(old(x)@, r as nat).len() == 32 * r);
        }
    }
}

/// `smix1` on the lane of `b` at `boff`: runs `n` steps that fill entries
/// `0 .. n` of the region of `v` at `voff`.
#[verifier::spinoff_prover]
pub fn smix1(
    b: &mut Vec<u32>,
    boff: usize,
    r: usize,
    n: u64,
    rw: bool,
    pwx: bool,
    v: &mut Vec<u32>,
    voff: usize,
    ctx: &mut PwxformCtx,
)
    requires
        r >= 1,
        boff + 32 * r <= old(b)@.len(),
        voff + n * (32 * r) <= old(v)@.len(),
        pwx ==> sbox_wf(old(ctx)@),
    ensures
        final(v)@.len() == old(v)@.len(),
        pwx ==> sbox_wf(final(ctx)@),
        smix1_spec(blk(old(b)@, boff as int, 32 * r), old(v)@, old(ctx)@, r as nat, n as nat, voff as int, rw, pwx).0.len() == 32 * r,
        final(b)@ == put_blk(
            old(b)@,
            boff as int,
            smix1_spec(blk(old(b)@, boff as int, 32 * r), old(v)@, old(ctx)@, r as nat, n as nat, voff as int, rw, pwx).0,
        ),
        final(v)@ == smix1_spec(blk(old(b)@, boff as int, 32 * r), old(v)@, old(ctx)@, r as nat, n as nat, voff as int, rw, pwx).1,
        final(ctx)@ == smix1_spec(blk(old(b)@, boff as int, 32 * r), old(v)@, old(ctx)@, r as nat, n as nat, voff as int, rw, pwx).2,
{
    let ghost v0 = v@;
    let ghost c0 = ctx@;
    let vlen = v.len();
    let blen = b.len();
    let s = 32 * r;
    let mut x = shuffle_in(b, boff, r);
    let ghost x0 = x@;
    let mut i: u64 = 0;
    while i < n
        invariant
            s == 32 * r,
            r >= 1,
            vlen == v0.len(),
            v@.len() == v0.len(),
            voff + n * s <= vlen,
            i <= n,
            x@.len() == s,
            pwx ==> sbox_wf(ctx@),
            (x@, v@, ctx@) == smix1_loop(x0, v0, c0, r as nat, voff as int, rw, pwx, i as nat),
        decreases n - i,
    {
        let ghost st = (x@, v@, ctx@);
        proof {
            lemma_block_end(i as int, n as int, s as int);
        }
        let vi = voff + (i as usize) * s;
        blkcpy(v, vi, &x, 0, s);
        assert(blk(x@, 0, s as int) =~= x@);
        if rw && i > 1 {
            let j = wrap(integerify(&x, r), i);
            proof {
                lemma_block_end(j as int, i as int, s as int);
            }
            blkxor(&mut x, 0, v, voff + (j as usize) * s, s);
            assert(x@ =~= xor_words(st.0, blk(v@, voff + j * s, s as int)));
        }
        blockmix(&mut x, ctx, r, pwx);
        i = i + 1;
    }
    unshuffle_out(b, boff, &x, r);
    proof {
        reveal(smix1_spec);
        reveal(smix2_spec);
    }
}

/// `smix2` on the lane of `b` at `boff`: runs `nloop` steps that read (and
/// in read-write mode write) entries `0 .. n` of the region of `v` at `voff`.
#[verifier::spinoff_prover]
pub fn smix2(
    b: &mut Vec<u32>,
    boff: usize,
    r: usize,
    n: u64,
    nloop: u64,
    rw: bool,
    pwx: bool,
    v: &mut Vec<u32>,
    voff: usize,
    ctx: &mut PwxformCtx,
)
    requires
        r >= 1,
        boff + 32 * r <= old(b)@.len(),
        voff + n * (32 * r) <= old(v)@.len(),
        nloop > 0 ==> n >= 1,
        pwx ==> sbox_wf(old(ctx)@),
    ensures
        final(v)@.len() == old(v)@.len(),
        pwx ==> sbox_wf(final(ctx)@),
        smix2_spec(blk(old(b)@, boff as int, 32 * r), old(v)@, old(ctx)@, r as nat, n, nloop as nat, voff as int, rw, pwx).0.len() == 32 * r,
        final(b)@ == put_blk(
            old(b)@,
            boff as int,
            smix2_spec(blk(old(b)@, boff as int, 32 * r), old(v)@, old(ctx)@, r as nat, n, nloop as nat, voff as int, rw, pwx).0,
        ),
        final(v)@ == smix2_spec(blk(old(b)@, boff as int, 32 * r), old(v)@, old(ctx)@, r as nat, n, nloop as nat, voff as int, rw, pwx).1,
        final(ctx)@ == smix2_spec(blk(old(b)@, boff as int, 32 * r), old(v)@, old(ctx)@, r as nat, n, nloop as nat, voff as int, rw, pwx).2,
{
    let ghost v0 = v@;
    let ghost c0 = ctx@;
    let vlen = v.len();
    let blen = b.len();
    let s = 32 * r;
    let mut x = shuffle_in(b, boff, r);
    let ghost x0 = x@;
    let mut i: u64 = 0;
    while i < nloop
        invariant
            s == 32 * r,
            r >= 1,
            vlen == v0.len(),
            v@.len() == v0.len(),
            voff + n * s <= vlen,
            nloop > 0 ==> n >= 1,
            i <= nloop,
            x@.len() == s,
            pwx ==> sbox_wf(ctx@),
            (x@, v@, ctx@) == smix2_loop(x0, v0, c0, r as nat, n, voff as int, rw, pwx, i as nat),
        decreases nloop - i,
    {
        let ghost st = (x@, v@, ctx@);
        let j = integerify(&x, r) & (n - 1);
        proof {
            lemma_and_le(integerify_spec(x@, r as nat), (n - 1) as u64);
            lemma_block_end(j as int, n as int, s as int);
        }
        let vj = voff + (j as usize) * s;
        blkxor(&mut x, 0, v, vj, s);
        assert(x@ =~= xor_words(st.0, blk(st.1, voff + j * s, s as int)));
        if rw {
            blkcpy(v, vj, &x, 0, s);
            assert(blk(x@, 0, s as int) =~= x@);
        }
        blockmix(&mut x, ctx, r, pwx);
        i = i + 1;
    }
    unshuffle_out(b, boff, &x, r);
    proof {
        reveal(smix1_spec);
        reveal(smix2_spec);
    }
}

/// `x` rounded down to an even number.
pub open spec fn even_down(x: int) -> int {
    x / 2 * 2
}

/// `x` rounded up to an even number.
pub open spec fn even_up(x: int) -> int {
    (x + 1) / 2 * 2
}

/// The number of `smix2` steps before rounding, from the blocks per lane and
/// the time parameter `t`: read-write mode spends about a third (`t == 0`),
/// two thirds (`t == 1`) or `t - 1` times the lane; the other modes one and a
/// half (`t == 1`) or `t` times it.
pub open spec fn nloop_base(nchunk: int, t: int, rw: bool) -> int {
    if rw {
        if t <= 1 {
            ((if t != 0 {
                nchunk * 2
            } else {
                nchunk
            }) + 2) / 3
        } else {
            nchunk * (t - 1)
        }
    } else if t != 0 {
        (if t == 1 {
            nchunk + (nchunk + 1) / 2
        } else {
            nchunk
        }) * t
    } else {
        nchunk
    }
}

/// All `smix2` steps of a lane, rounded up to an even number.
pub open spec fn smix_nloop_all(n: u64, p: u32, t: u32, flags: u32) -> int {
    even_up(nloop_base(n as int / p as int, t as int, flags & YESCRYPT_RW != 0))
}

/// The `smix2` steps of a lane that may write into `V`: all of them when `V`
/// is kept in the local region, a `p`-th of them in read-write mode, else
/// none; rounded up to an even number.
pub open spec fn smix_nloop_rw(n: u64, p: u32, t: u32, flags: u32) -> int {
    let base = nloop_base(n as int / p as int, t as int, flags & YESCRYPT_RW != 0);
    even_up(
        if flags & YESCRYPT_INIT_SHARED != 0 {
            base
        } else if flags & YESCRYPT_RW != 0 {
            base / p as int
        } else {
            0
        },
    )
}

proof fn lemma_clear_low_bit(x: u64)
    by (bit_vector)
    ensures
        x & !1u64 == (x / 2) * 2,
{
}

proof fn lemma_counts_bounds(nc: int, n: int, t: int)
    by (nonlinear_arith)
    requires
        0 <= nc <= n,
        1 <= n,
        0 <= t,
        n * (t + 1) <= 0xffff_ffff_ffff_ffff,
    ensures
        t >= 2 ==> nc * (t - 1) + 2 * n <= n * (t + 1),
        t >= 1 ==> nc * t + n <= n * (t + 1),
        nc * t <= n * t,
{
}

fn smix_counts(n: u64, p: u32, t: u32, flags: u32) -> (res: (u64, u64, u64))
    requires
        p >= 1,
        n >= 2,
        128 * n <= u64::MAX,
        n * (t + 1) <= u64::MAX,
    ensures
        res.0 == even_down(n as int / p as int),
        res.1 == smix_nloop_all(n, p, t, flags),
        res.2 == smix_nloop_rw(n, p, t, flags),
        res.2 <= res.1,
{
    let rw = flags & YESCRYPT_RW != 0;
    let mut nchunk = n / (p as u64);
    let ghost base = nloop_base(n as int / p as int, t as int, rw);
    proof {
        lemma_counts_bounds(nchunk as int, n as int, t as int);
    }
    let mut nloop_all = nchunk;
    if rw {
        if t <= 1 {
            if t != 0 {
                nloop_all = nloop_all * 2;
            }
            nloop_all = (nloop_all + 2) / 3;
        } else {
            nloop_all = nloop_all * ((t - 1) as u64);
        }
    } else if t != 0 {
        if t == 1 {
            nloop_all = nloop_all + (nloop_all + 1) / 2;
        }
        nloop_all = nloop_all * (t as u64);
    }
    assert(nloop_all == base);
    let mut nloop_rw: u64 = 0;
    if flags & YESCRYPT_INIT_SHARED != 0 {
        nloop_rw = nloop_all;
    } else if rw {
        nloop_rw = nloop_all / (p as u64);
    }
    proof {
        lemma_clear_low_bit(nchunk);
        lemma_clear_low_bit((nloop_all + 1) as u64);
        lemma_clear_low_bit((nloop_rw + 1) as u64);
    }
    nchunk = nchunk & !1u64;
    nloop_all = (nloop_all + 1) & !1u64;
    nloop_rw = (nloop_rw + 1) & !1u64;
    (nchunk, nloop_all, nloop_rw)
}

/// The S-box state made from the 3072 words that `smix1` filled: the last
/// third is read first, the first third is written first.
pub open spec fn sbox_from_init(sv: Seq<u32>) -> (Seq<u32>, Seq<u32>, Seq<u32>, nat) {
    (sv.subrange(2048, 3072), sv.subrange(1024, 2048), sv.subrange(0, 1024), 0nat)
}

/// The state of a lane that does not use pwxform.
pub open spec fn empty_sbox() -> (Seq<u32>, Seq<u32>, Seq<u32>, nat) {
    (Seq::empty(), Seq::empty(), Seq::empty(), 0nat)
}

/// `n` zero words.
pub open spec fn zero_words(n: nat) -> Seq<u32> {
    Seq::new(n, |i: int| 0u32)
}

/// The entries of `V` that lane `l` of `p` fills: `nce` each, and the last
/// lane takes what is left of `n`.
pub open spec fn lane_np(n: int, p: int, nce: int, l: int) -> int {
    if l < p - 1 {
        nce
    } else {
        n - l * nce
    }
}

/// One lane `l` of the first pass of `smix`: in read-write mode it first
/// fills its S-boxes (running `smix1` on the start of the lane) and, for lane
/// 0, replaces `pw` by an HMAC of it keyed by the end of the lane; then it runs
/// `smix1` and `smix2` on its own region of `V`. The result is the block, `V`,
/// the lane's S-box state, and `pw`.
pub open spec fn smix_lane1(
    b: Seq<u32>,
    v: Seq<u32>,
    pw: Seq<u8>,
    boff: int,
    r: nat,
    n: u64,
    p: u32,
    rw: bool,
    nloop_rw: nat,
    l: int,
) -> (Seq<u32>, Seq<u32>, (Seq<u32>, Seq<u32>, Seq<u32>, nat), Seq<u8>) {
    let s = 32 * r as int;
    let bp = boff + l * s;
    let nce = even_down(n as int / p as int);
    let vp = l * nce * s;
    let np = lane_np(n as int, p as int, nce, l);
    let init = smix1_spec(blk(b, bp, 32), zero_words(3072), empty_sbox(), 1, 96, 0, false, false);
    let b1 = if rw {
        put_blk(b, bp, init.0)
    } else {
        b
    };
    let c = if rw {
        sbox_from_init(init.1)
    } else {
        empty_sbox()
    };
    let pw1 = if rw && l == 0 {
        hmac_sha256_tag(le32_bytes(blk(b1, bp + s - 16, 16)), pw)
    } else {
        pw
    };
    let m1 = smix1_spec(blk(b1, bp, s), v, c, r, np as nat, vp, rw, rw);
    let m2 = smix2_spec(m1.0, m1.1, m1.2, r, prev_pow2(np as nat) as u64, nloop_rw, vp, rw, rw);
    (put_blk(b1, bp, m2.0), m2.1, m2.2, pw1)
}

/// Law of the rekeying: in read-write mode lane 0 replaces the password by
/// HMAC-SHA256 of it keyed by the last 64 bytes (16 words, little-endian) of
/// lane 0 as the S-box fill left it; when the lane is longer than the 32 words
/// that the fill rewrites (`r >= 2`), those are the lane's last 64 bytes as
/// they came in.
pub proof fn law_lane0_rekeys_password(
    b: Seq<u32>,
    v: Seq<u32>,
    pw: Seq<u8>,
    boff: int,
    r: nat,
    n: u64,
    p: u32,
    nloop_rw: nat,
)
    requires
        r >= 1,
        0 <= boff,
        boff + 32 * r <= b.len(),
    ensures
        ({
            let fill = smix1_spec(b.subrange(boff, boff + 32), zero_words(3072), empty_sbox(), 1, 96, 0, false, false).0;
            let filled = b.subrange(0, boff) + fill + b.subrange(boff + 32, b.len() as int);
            smix_lane1(b, v, pw, boff, r, n, p, true, nloop_rw, 0).3 == hmac_sha256_tag(
                le32_bytes(filled.subrange(boff + 32 * r - 16, boff + 32 * r)),
                pw,
            )
        }),
        r >= 2 ==> smix_lane1(b, v, pw, boff, r, n, p, true, nloop_rw, 0).3 == hmac_sha256_tag(
            le32_bytes(b.subrange(boff + 32 * r - 16, boff + 32 * r)),
            pw,
        ),
{
    reveal(smix1_spec);
    let s = 32 * r as int;
    let fill = smix1_spec(b.subrange(boff, boff + 32), zero_words(3072), empty_sbox(), 1, 96, 0, false, false).0;
    assert(fill.len() == 32);
    let filled = b.subrange(0, boff) + fill + b.subrange(boff + 32, b.len() as int);
    assert(put_blk(b, boff, fill) =~= filled);
    assert(blk(filled, boff + s - 16, 16) =~= filled.subrange(boff + s - 16, boff + s));
    if r >= 2 {
        assert(filled.subrange(boff + s - 16, boff + s) =~= b.subrange(boff + s - 16, boff + s));
    }
}

/// Law: outside read-write mode, and in every lane but the first, a lane
/// leaves the password as it was.
pub proof fn law_lane_keeps_password(
    b: Seq<u32>,
    v: Seq<u32>,
    pw: Seq<u8>,
    boff: int,
    r: nat,
    n: u64,
    p: u32,
    rw: bool,
    nloop_rw: nat,
    l: int,
)
    requires
        !rw || l != 0,
    ensures
        smix_lane1(b, v, pw, boff, r, n, p, rw, nloop_rw, l).3 == pw,
{
}

/// Outside read-write mode the first pass of `smix` leaves the password as it was.
proof fn lemma_pass1_keeps_password(
    b: Seq<u32>,
    v: Seq<u32>,
    pw: Seq<u8>,
    boff: int,
    r: nat,
    n: u64,
    p: u32,
    nloop_rw: nat,
    i: nat,
)
    ensures
        smix_pass1(b, v, pw, boff, r, n, p, false, nloop_rw, i).3 == pw,
    decreases i,
{
    if i > 0 {
        lemma_pass1_keeps_password(b, v, pw, boff, r, n, p, nloop_rw, (i - 1) as nat);
    }
}

/// Law: outside read-write mode `smix` leaves the password as it was.
pub proof fn law_smix_keeps_password_unless_rw(
    b: Seq<u32>,
    v: Seq<u32>,
    pw: Seq<u8>,
    boff: int,
    r: nat,
    n: u64,
    p: u32,
    t: u32,
    flags: u32,
)
    requires
        flags & YESCRYPT_RW == 0,
    ensures
        smix_spec(b, v, pw, boff, r, n, p, t, flags).2 == pw,
{
    lemma_pass1_keeps_password(
        b,
        v,
        pw,
        boff,
        r,
        n,
        p,
        smix_nloop_rw(n, p, t, flags) as nat,
        p as nat,
    );
}

/// The first pass of `smix` over lanes `0 .. i`: the block, `V`, the S-box
/// states of the lanes, and the password buffer.
pub open spec fn smix_pass1(
    b: Seq<u32>,
    v: Seq<u32>,
    pw: Seq<u8>,
    boff: int,
    r: nat,
    n: u64,
    p: u32,
    rw: bool,
    nloop_rw: nat,
    i: nat,
) -> (Seq<u32>, Seq<u32>, Seq<(Seq<u32>, Seq<u32>, Seq<u32>, nat)>, Seq<u8>)
    decreases i,
{
    if i == 0 {
        (b, v, Seq::empty(), pw)
    } else {
        let st = smix_pass1(b, v, pw, boff, r, n, p, rw, nloop_rw, (i - 1) as nat);
        let m = smix_lane1(st.0, st.1, st.3, boff, r, n, p, rw, nloop_rw, i - 1);
        (m.0, m.1, st.2.push(m.2), m.3)
    }
}

/// The second pass of `smix` over lanes `0 .. i`: `smix2` over the whole of
/// `V`, reading only, with each lane's S-box state when `pwx` holds.
pub open spec fn smix_pass2(
    b: Seq<u32>,
    v: Seq<u32>,
    cs: Seq<(Seq<u32>, Seq<u32>, Seq<u32>, nat)>,
    boff: int,
    r: nat,
    n: u64,
    nloop: nat,
    pwx: bool,
    i: nat,
) -> (Seq<u32>, Seq<u32>, Seq<(Seq<u32>, Seq<u32>, Seq<u32>, nat)>)
    decreases i,
{
    if i == 0 {
        (b, v, cs)
    } else {
        let st = smix_pass2(b, v, cs, boff, r, n, nloop, pwx, (i - 1) as nat);
        let l = i - 1;
        let bp = boff + l * (32 * r as int);
        let m = smix2_spec(blk(st.0, bp, 32 * r as int), st.1, st.2[l], r, n, nloop, 0, false, pwx);
        (put_blk(st.0, bp, m.0), m.1, st.2.update(l, m.2))
    }
}

/// `smix` on `p` lanes of `b` from `boff` on: the block, `V`, and the
/// password buffer after it.
pub open spec fn smix_spec(
    b: Seq<u32>,
    v: Seq<u32>,
    pw: Seq<u8>,
    boff: int,
    r: nat,
    n: u64,
    p: u32,
    t: u32,
    flags: u32,
) -> (Seq<u32>, Seq<u32>, Seq<u8>) {
    let rw = flags & YESCRYPT_RW != 0;
    let nloop_all = smix_nloop_all(n, p, t, flags);
    let nloop_rw = smix_nloop_rw(n, p, t, flags);
    let p1 = smix_pass1(b, v, pw, boff, r, n, p, rw, nloop_rw as nat, p as nat);
    let p2 = smix_pass2(p1.0, p1.1, p1.2, boff, r, n, (nloop_all - nloop_rw) as nat, rw, p as nat);
    (p2.0, p2.1, p1.3)
}

/// The views of a sequence of S-box states.
pub open spec fn ctx_views(cs: Seq<PwxformCtx>) -> Seq<(Seq<u32>, Seq<u32>, Seq<u32>, nat)> {
    Seq::new(cs.len(), |k: int| cs[k]@)
}

fn words_range(v: &Vec<u32>, start: usize, len: usize) -> (res: Vec<u32>)
    requires
        start + len <= v@.len(),
    ensures
        res@ == blk(v@, start as int, len as int),
{
    let vlen = v.len();
    let mut res: Vec<u32> = Vec::new();
    let mut i: usize = 0;
    while i < len
        invariant
            vlen == v@.len(),
            start + len <= v@.len(),
            i <= len,
            res@.len() == i,
            forall|k: int| 0 <= k < i ==> res@[k] == v@[start + k],
        decreases len - i,
    {
        res.push(v[start + i]);
        i = i + 1;
    }
    assert(res@ =~= blk(v@, start as int, len as int));
    res
}

/// `a * s + b * s == (a + b) * s`, and products grow with their factors.
proof fn lemma_lane_arith(a: int, b: int, c: int, s: int)
    by (nonlinear_arith)
    requires
        0 <= a,
        0 <= b,
        a + b <= c,
        0 <= s,
    ensures
        a * s + b * s == (a + b) * s,
        (a + b) * s <= c * s,
        a * s <= c * s,
        s >= 1 ==> a <= a * s,
{
}

proof fn lemma_chunks(i: int, nc: int, p: int, n: int)
    by (nonlinear_arith)
    requires
        0 <= i < p,
        0 <= nc,
        nc * p <= n,
    ensures
        i * nc + nc <= n,
        (i + 1) * nc == i * nc + nc,
        i * nc <= n,
{
}

proof fn lemma_even_chunk(n: int, p: int)
    by (nonlinear_arith)
    requires
        0 <= n,
        1 <= p,
    ensures
        (n / p / 2 * 2) * p <= n,
        0 <= n / p / 2 * 2 <= n,
{
}

#[verifier::rlimit(60)]
fn smix_first_lane(
    b: &mut Vec<u32>,
    boff: usize,
    r: usize,
    n: u64,
    p: u32,
    rw: bool,
    nchunk: u64,
    nloop_rw: u64,
    v: &mut Vec<u32>,
    passwd: &mut Vec<u8>,
    i: u32,
    vchunk: u64,
) -> (ctx: PwxformCtx)
    requires
        r >= 1,
        i < p,
        n >= 1,
        nchunk == even_down(n as int / p as int),
        nchunk * p <= n,
        vchunk == i * nchunk,
        boff + p * (32 * r) <= old(b)@.len(),
        old(v)@.len() >= n * (32 * r),
        nloop_rw > 0 ==> nchunk >= 1,
    ensures
        final(b)@ == smix_lane1(old(b)@, old(v)@, old(passwd)@, boff as int, r as nat, n, p, rw, nloop_rw as nat, i as int).0,
        final(v)@ == smix_lane1(old(b)@, old(v)@, old(passwd)@, boff as int, r as nat, n, p, rw, nloop_rw as nat, i as int).1,
        ctx@ == smix_lane1(old(b)@, old(v)@, old(passwd)@, boff as int, r as nat, n, p, rw, nloop_rw as nat, i as int).2,
        final(passwd)@ == smix_lane1(old(b)@, old(v)@, old(passwd)@, boff as int, r as nat, n, p, rw, nloop_rw as nat, i as int).3,
        final(b)@.len() == old(b)@.len(),
        final(v)@.len() == old(v)@.len(),
        rw ==> sbox_wf(ctx@),
{
    let ghost b0 = b@;
    let ghost v0 = v@;
    let blen = b.len();
    let vlen = v.len();
    proof {
        lemma_lane_arith(0, 1, p as int, 32 * r as int);
    }
    let s = 32 * r;
    proof {
        lemma_block_end(i as int, p as int, s as int);
        lemma_chunks(i as int, nchunk as int, p as int, n as int);
    }
    let np: u64 = if i < p - 1 {
        nchunk
    } else {
        n - vchunk
    };
    proof {
        lemma_lane_arith(vchunk as int, np as int, n as int, s as int);
    }
    let bp = boff + (i as usize) * s;
    let vp = (vchunk as usize) * s;
    let mut ctx = PwxformCtx { s0: Vec::new(), s1: Vec::new(), s2: Vec::new(), w: 0 };
    if rw {
        let mut sbuf: Vec<u32> = vec![0u32; 3072];
        assert(sbuf@ =~= zero_words(3072));
        let mut none = PwxformCtx { s0: Vec::new(), s1: Vec::new(), s2: Vec::new(), w: 0 };
        assert(none@ =~= empty_sbox());
        smix1(b, bp, 1, 96, false, false, &mut sbuf, 0, &mut none);
        ctx = PwxformCtx {
            s0: words_range(&sbuf, 2048, 1024),
            s1: words_range(&sbuf, 1024, 1024),
            s2: words_range(&sbuf, 0, 1024),
            w: 0,
        };
        if i == 0 {
            let key = le_bytes_from_words(b, bp + s - 16, 16);
            let mac = hmac_sha256(&key, passwd);
            *passwd = mac;
        }
    } else {
        assert(ctx@ =~= empty_sbox());
    }
    let ghost b1 = b@;
    let ghost c1 = ctx@;
    assert(vp + np * s <= v@.len());
    smix1(b, bp, r, np, rw, rw, v, vp, &mut ctx);
    let ghost m1 = smix1_spec(blk(b1, bp as int, s as int), v0, c1, r as nat, np as nat, vp as int, rw, rw);
    assert(blk(b@, bp as int, s as int) =~= m1.0);
    let nn = prev_power_of_two(np);
    proof {
        lemma_lane_arith(nn as int, 0, np as int, s as int);
    }
    smix2(b, bp, r, nn, nloop_rw, rw, rw, v, vp, &mut ctx);
    assert(b@ =~= smix_lane1(b0, v0, old(passwd)@, boff as int, r as nat, n, p, rw, nloop_rw as nat, i as int).0);
    ctx
}

fn smix_first_pass(
    b: &mut Vec<u32>,
    boff: usize,
    r: usize,
    n: u64,
    p: u32,
    rw: bool,
    nchunk: u64,
    nloop_rw: u64,
    v: &mut Vec<u32>,
    passwd: &mut Vec<u8>,
) -> (ctxs: Vec<PwxformCtx>)
    requires
        r >= 1,
        p >= 1,
        n >= 1,
        nchunk == even_down(n as int / p as int),
        boff + p * (32 * r) <= old(b)@.len(),
        old(v)@.len() >= n * (32 * r),
        nloop_rw > 0 ==> nchunk >= 1,
    ensures
        final(b)@ == smix_pass1(old(b)@, old(v)@, old(passwd)@, boff as int, r as nat, n, p, rw, nloop_rw as nat, p as nat).0,
        final(v)@ == smix_pass1(old(b)@, old(v)@, old(passwd)@, boff as int, r as nat, n, p, rw, nloop_rw as nat, p as nat).1,
        ctx_views(ctxs@) == smix_pass1(old(b)@, old(v)@, old(passwd)@, boff as int, r as nat, n, p, rw, nloop_rw as nat, p as nat).2,
        final(passwd)@ == smix_pass1(old(b)@, old(v)@, old(passwd)@, boff as int, r as nat, n, p, rw, nloop_rw as nat, p as nat).3,
        ctxs@.len() == p,
        forall|k: int| 0 <= k < p ==> (rw ==> sbox_wf(#[trigger] ctxs@[k]@)),
        final(b)@.len() == old(b)@.len(),
        final(v)@.len() == old(v)@.len(),
{
    let ghost b0 = b@;
    let ghost v0 = v@;
    let ghost pw0 = passwd@;
    let blen = b.len();
    let vlen = v.len();
    proof {
        lemma_even_chunk(n as int, p as int);
        lemma_lane_arith(0, 1, p as int, 32 * r as int);
    }
    let s = 32 * r;
    let mut ctxs: Vec<PwxformCtx> = Vec::new();
    let mut vchunk: u64 = 0;
    let mut i: u32 = 0;
    while i < p
        invariant
            s == 32 * r,
            r >= 1,
            p >= 1,
            n >= 1,
            nchunk == even_down(n as int / p as int),
            nchunk * p <= n,
            nchunk <= n,
            nloop_rw > 0 ==> nchunk >= 1,
            blen == b0.len(),
            vlen == v0.len(),
            boff + p * s <= blen,
            v0.len() >= n * s,
            i <= p,
            vchunk == i * nchunk,
            b@.len() == b0.len(),
            v@.len() == v0.len(),
            b@ == smix_pass1(b0, v0, pw0, boff as int, r as nat, n, p, rw, nloop_rw as nat, i as nat).0,
            v@ == smix_pass1(b0, v0, pw0, boff as int, r as nat, n, p, rw, nloop_rw as nat, i as nat).1,
            ctx_views(ctxs@) == smix_pass1(b0, v0, pw0, boff as int, r as nat, n, p, rw, nloop_rw as nat, i as nat).2,
            passwd@ == smix_pass1(b0, v0, pw0, boff as int, r as nat, n, p, rw, nloop_rw as nat, i as nat).3,
            ctxs@.len() == i,
            forall|k: int| 0 <= k < i ==> (rw ==> sbox_wf(#[trigger] ctxs@[k]@)),
        decreases p - i,
    {
        let ghost st = smix_pass1(b0, v0, pw0, boff as int, r as nat, n, p, rw, nloop_rw as nat, i as nat);
        proof {
            lemma_chunks(i as int, nchunk as int, p as int, n as int);
        }
        let ctx = smix_first_lane(b, boff, r, n, p, rw, nchunk, nloop_rw, v, passwd, i, vchunk);
        ctxs.push(ctx);
        assert(ctx_views(ctxs@) =~= smix_pass1(b0, v0, pw0, boff as int, r as nat, n, p, rw, nloop_rw as nat, (i + 1) as nat).2);
        vchunk = vchunk + nchunk;
        i = i + 1;
    }
    ctxs
}

fn smix_second_pass(
    b: &mut Vec<u32>,
    boff: usize,
    r: usize,
    n: u64,
    p: u32,
    nloop: u64,
    pwx: bool,
    v: &mut Vec<u32>,
    ctxs: &mut Vec<PwxformCtx>,
)
    requires
        r >= 1,
        n >= 1,
        p >= 1,
        boff + p * (32 * r) <= old(b)@.len(),
        old(v)@.len() >= n * (32 * r),
        old(ctxs)@.len() == p,
        forall|k: int| 0 <= k < p ==> (pwx ==> sbox_wf(#[trigger] old(ctxs)@[k]@)),
    ensures
        final(b)@ == smix_pass2(old(b)@, old(v)@, ctx_views(old(ctxs)@), boff as int, r as nat, n, nloop as nat, pwx, p as nat).0,
        final(v)@ == smix_pass2(old(b)@, old(v)@, ctx_views(old(ctxs)@), boff as int, r as nat, n, nloop as nat, pwx, p as nat).1,
        final(b)@.len() == old(b)@.len(),
        final(v)@.len() == old(v)@.len(),
{
    let ghost b0 = b@;
    let ghost v0 = v@;
    let ghost cs0 = ctx_views(ctxs@);
    let blen = b.len();
    let vlen = v.len();
    proof {
        lemma_lane_arith(0, 1, p as int, 32 * r as int);
    }
    let s = 32 * r;
    let mut i: u32 = 0;
    while i < p
        invariant
            s == 32 * r,
            r >= 1,
            n >= 1,
            blen == b0.len(),
            vlen == v0.len(),
            boff + p * s <= blen,
            v0.len() >= n * s,
            i <= p,
            b@.len() == b0.len(),
            v@.len() == v0.len(),
            ctxs@.len() == p,
            b@ == smix_pass2(b0, v0, cs0, boff as int, r as nat, n, nloop as nat, pwx, i as nat).0,
            v@ == smix_pass2(b0, v0, cs0, boff as int, r as nat, n, nloop as nat, pwx, i as nat).1,
            ctx_views(ctxs@) == smix_pass2(b0, v0, cs0, boff as int, r as nat, n, nloop as nat, pwx, i as nat).2,
            forall|k: int| 0 <= k < p ==> (pwx ==> sbox_wf(#[trigger] ctxs@[k]@)),
        decreases p - i,
    {
        proof {
            lemma_block_end(i as int, p as int, s as int);
        }
        let bp = boff + (i as usize) * s;
        let mut c = PwxformCtx { s0: Vec::new(), s1: Vec::new(), s2: Vec::new(), w: 0 };
        let ghost cs = ctxs@;
        ctxs.set_and_swap(i as usize, &mut c);
        assert(c@ == ctx_views(cs)[i as int]);
        smix2(b, bp, r, n, nloop, false, pwx, v, 0, &mut c);
        ctxs.set_and_swap(i as usize, &mut c);
        assert(ctx_views(ctxs@) =~= smix_pass2(b0, v0, cs0, boff as int, r as nat, n, nloop as nat, pwx, (i + 1) as nat).2);
        assert(forall|k: int| 0 <= k < p && k != i ==> ctxs@[k] == cs[k]);
        i = i + 1;
    }
}

/// `smix` on the `p` lanes of `b` that start at `boff`, with `V` of `n`
/// entries and, in read-write mode, the password buffer that lane 0 rekeys.
pub fn smix(
    b: &mut Vec<u32>,
    boff: usize,
    r: usize,
    n: u64,
    p: u32,
    t: u32,
    flags: u32,
    v: &mut Vec<u32>,
    passwd: &mut Vec<u8>,
)
    requires
        r >= 1,
        p >= 1,
        n >= 2,
        128 * n <= u64::MAX,
        n * (t + 1) <= u64::MAX,
        flags & YESCRYPT_RW != 0 ==> n / (p as u64) >= 2,
        flags & YESCRYPT_INIT_SHARED != 0 ==> flags & YESCRYPT_RW != 0,
        boff + p * (32 * r) <= old(b)@.len(),
        old(v)@.len() >= n * (32 * r),
    ensures
        final(b)@ == smix_spec(old(b)@, old(v)@, old(passwd)@, boff as int, r as nat, n, p, t, flags).0,
        final(v)@ == smix_spec(old(b)@, old(v)@, old(passwd)@, boff as int, r as nat, n, p, t, flags).1,
        final(passwd)@ == smix_spec(old(b)@, old(v)@, old(passwd)@, boff as int, r as nat, n, p, t, flags).2,
        final(b)@.len() == old(b)@.len(),
        final(v)@.len() == old(v)@.len(),
{
    let rw = flags & YESCRYPT_RW != 0;
    let counts = smix_counts(n, p, t, flags);
    let nchunk = counts.0;
    let nloop_all = counts.1;
    let nloop_rw = counts.2;
    proof {
        lemma_even_chunk(n as int, p as int);
        if nloop_rw > 0 {
            assert(rw);
            assert(n as int / p as int >= 2);
        }
    }
    let mut ctxs = smix_first_pass(b, boff, r, n, p, rw, nchunk, nloop_rw, v, passwd);
    smix_second_pass(b, boff, r, n, p, nloop_all - nloop_rw, rw, v, &mut ctxs);
}

} // verus!
