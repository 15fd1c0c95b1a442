//! Classic scrypt (RFC 7914) in its own word order, and the proof that
//! yescrypt with `flags == 0` (and `t == 0`, `g == 0`) computes it.

use vstd::prelude::*;
use crate::common::{blk, put_blk, xor_words, le32_words, le32_bytes};
use crate::salsa20::{
    salsa20_core,
    salsa_rounds,
    add_words,
    shuffle,
    unshuffle,
    bm_chain,
    bm_out_index,
    blockmix_salsa8_spec,
};
use crate::sha256::pbkdf2_sha256_key;
use crate::params::params_ok;
use crate::kdf::{lanes_spec, body_mix, body_finish, body_output, body_result, kdf_inner_result, yescrypt_kdf_spec, sizes_fit, prehash_applies};
use crate::smix::{
    smix_spec,
    smix_pass1,
    smix_pass2,
    smix_lane1,
    smix_nloop_all,
    smix_nloop_rw,
    empty_sbox,
    smix1_loop,
    smix2_loop,
    smix1_spec,
    smix2_spec,
    integerify_spec,
    shuffle_block,
    unshuffle_block,
    blockmix_spec,
};

verus! {

/// Salsa20/8 in its own word order: the block plus four double rounds of it.
pub open spec fn salsa20_8(x: Seq<u32>) -> Seq<u32> {
    add_words(x, salsa_rounds(x, 4))
}

/// The running value of scrypt's BlockMix: `X = B[2r - 1]`, then
/// `X = Salsa20/8(X xor B[i])`.
pub open spec fn scrypt_bm_chain(b: Seq<u32>, r: nat, i: nat) -> Seq<u32>
    decreases i,
{
    if i == 0 {
        blk(b, 16 * (2 * r - 1), 16)
    } else {
        salsa20_8(xor_words(scrypt_bm_chain(b, r, (i - 1) as nat), blk(b, 16 * (i - 1), 16)))
    }
}

/// scrypt's BlockMix: the even intermediate values, then the odd ones.
pub open spec fn scrypt_blockmix(b: Seq<u32>, r: nat) -> Seq<u32> {
    Seq::new(32 * r, |w: int| scrypt_bm_chain(b, r, (bm_out_index(w / 16, r as int) + 1) as nat)[w % 16])
}

/// scrypt's Integerify: the first 64 bits of the last sub-block, little-endian.
pub open spec fn scrypt_integerify(x: Seq<u32>, r: nat) -> u64 {
    (x[16 * (2 * r - 1) + 1] as int * 0x1_0000_0000 + x[16 * (2 * r - 1)] as int) as u64
}

/// `V[i]` of ROMix: BlockMix applied `i` times to the lane.
pub open spec fn romix_v(b: Seq<u32>, r: nat, i: nat) -> Seq<u32>
    decreases i,
{
    if i == 0 {
        b
    } else {
        scrypt_blockmix(romix_v(b, r, (i - 1) as nat), r)
    }
}

/// The second loop of ROMix after `i` steps: `X = BlockMix(X xor V[j])` with
/// `j = Integerify(X) mod N`, starting from `V[N]`.
pub open spec fn romix_mix(b: Seq<u32>, r: nat, n: u64, i: nat) -> Seq<u32>
    decreases i,
{
    if i == 0 {
        romix_v(b, r, n as nat)
    } else {
        let x = romix_mix(b, r, n, (i - 1) as nat);
        let j = scrypt_integerify(x, r) % n;
        scrypt_blockmix(xor_words(x, romix_v(b, r, j as nat)), r)
    }
}

/// scrypt's ROMix on one lane of `32 * r` words.
pub open spec fn romix(b: Seq<u32>, r: nat, n: u64) -> Seq<u32> {
    romix_mix(b, r, n, n as nat)
}

/// ROMix applied to lanes `0 .. i` of `b`.
pub open spec fn scrypt_lanes(b: Seq<u32>, r: nat, n: u64, i: nat) -> Seq<u32>
    decreases i,
{
    if i == 0 {
        b
    } else {
        let prev = scrypt_lanes(b, r, n, (i - 1) as nat);
        let off = (i - 1) * (32 * r as int);
        put_blk(prev, off, romix(blk(b, off, 32 * r as int), r, n))
    }
}

/// scrypt (RFC 7914): PBKDF2 of the password and salt into `p` lanes, ROMix
/// on each lane, PBKDF2 of the password and the result.
pub open spec fn scrypt_spec(passwd: Seq<u8>, salt: Seq<u8>, n: u64, r: u32, p: u32, len: usize) -> Seq<u8> {
    let b = le32_words(pbkdf2_sha256_key(passwd, salt, 1, (128 * (r as int) * (p as int)) as usize));
    pbkdf2_sha256_key(passwd, le32_bytes(scrypt_lanes(b, r as nat, n, p as nat)), 1, len)
}

/// Each 16-word sub-block of `v` put into the shuffled order.
pub open spec fn shuffle_blocks(v: Seq<u32>) -> Seq<u32> {
    Seq::new(v.len(), |w: int| v[16 * (w / 16) + (5 * (w % 16)) % 16])
}

/// The two word orders are each other's inverse.
proof fn lemma_shuffle_index(t: int)
    requires
        0 <= t < 16,
    ensures
        (5 * ((13 * t) % 16)) % 16 == t,
        (13 * ((5 * t) % 16)) % 16 == t,
        0 <= (5 * t) % 16 < 16,
        0 <= (13 * t) % 16 < 16,
{
    if t == 0 {
    } else if t == 1 {
    } else if t == 2 {
    } else if t == 3 {
    } else if t == 4 {
    } else if t == 5 {
    } else if t == 6 {
    } else if t == 7 {
    } else if t == 8 {
    } else if t == 9 {
    } else if t == 10 {
    } else if t == 11 {
    } else if t == 12 {
    } else if t == 13 {
    } else if t == 14 {
    } else {
    }
}

/// Salsa20/8 on the shuffled order is Salsa20/8 on Salsa20's own order,
/// shuffled.
pub proof fn lemma_salsa20_shuffled(s: Seq<u32>)
    requires
        s.len() == 16,
    ensures
        salsa20_core(shuffle(s), 4) == shuffle(salsa20_8(s)),
{
    reveal(salsa20_core);
    assert(unshuffle(shuffle(s)) =~= s);
    assert(add_words(shuffle(s), shuffle(salsa_rounds(s, 4))) =~= shuffle(add_words(s, salsa_rounds(s, 4))));
}

/// Word `m` of the shuffled and of the unshuffled block.
proof fn lemma_shuffle_elem(y: Seq<u32>, m: int)
    requires
        y.len() == 16,
        0 <= m < 16,
    ensures
        shuffle(y)[m] == y[(5 * m) % 16],
        unshuffle(y)[m] == y[(13 * m) % 16],
        shuffle(y).len() == 16,
        unshuffle(y).len() == 16,
{
    if m == 0 {
    } else if m == 1 {
    } else if m == 2 {
    } else if m == 3 {
    } else if m == 4 {
    } else if m == 5 {
    } else if m == 6 {
    } else if m == 7 {
    } else if m == 8 {
    } else if m == 9 {
    } else if m == 10 {
    } else if m == 11 {
    } else if m == 12 {
    } else if m == 13 {
    } else if m == 14 {
    } else {
    }
}

/// A sub-block of the shuffled words is the shuffled sub-block.
proof fn lemma_shuffle_blocks_sub(v: Seq<u32>, k: int)
    requires
        0 <= k,
        16 * k + 16 <= v.len(),
    ensures
        blk(shuffle_blocks(v), 16 * k, 16) == shuffle(blk(v, 16 * k, 16)),
{
    let y = blk(v, 16 * k, 16);
    assert forall|m: int| 0 <= m < 16 implies #[trigger] blk(shuffle_blocks(v), 16 * k, 16)[m] == shuffle(y)[m] by {
        lemma_shuffle_elem(y, m);
        lemma_shuffle_index(m);
        assert((16 * k + m) / 16 == k);
        assert((16 * k + m) % 16 == m);
    }
    lemma_shuffle_elem(y, 0);
    assert(blk(shuffle_blocks(v), 16 * k, 16) =~= shuffle(y));
}

/// Exclusive-or commutes with shuffling.
proof fn lemma_shuffle_xor(a: Seq<u32>, b: Seq<u32>)
    requires
        a.len() == b.len(),
        a.len() % 16 == 0,
    ensures
        xor_words(shuffle_blocks(a), shuffle_blocks(b)) == shuffle_blocks(xor_words(a, b)),
{
    assert forall|w: int| 0 <= w < a.len() implies #[trigger] xor_words(shuffle_blocks(a), shuffle_blocks(b))[w]
        == shuffle_blocks(xor_words(a, b))[w] by {
        lemma_shuffle_index(w % 16);
    }
    assert(xor_words(shuffle_blocks(a), shuffle_blocks(b)) =~= shuffle_blocks(xor_words(a, b)));
}

/// Exclusive-or commutes with shuffling a single sub-block.
proof fn lemma_shuffle16_xor(a: Seq<u32>, b: Seq<u32>)
    requires
        a.len() == 16,
        b.len() == 16,
    ensures
        xor_words(shuffle(a), shuffle(b)) == shuffle(xor_words(a, b)),
{
    assert forall|m: int| 0 <= m < 16 implies #[trigger] xor_words(shuffle(a), shuffle(b))[m] == shuffle(
        xor_words(a, b),
    )[m] by {
        lemma_shuffle_elem(a, m);
        lemma_shuffle_elem(b, m);
        lemma_shuffle_elem(xor_words(a, b), m);
        lemma_shuffle_index(m);
    }
    lemma_shuffle_elem(a, 0);
    lemma_shuffle_elem(xor_words(a, b), 0);
    assert(xor_words(shuffle(a), shuffle(b)) =~= shuffle(xor_words(a, b)));
}

/// Each running value of scrypt's BlockMix is a 16-word block.
proof fn lemma_scrypt_bm_chain_len(b: Seq<u32>, r: nat, i: nat)
    requires
        r >= 1,
        b.len() == 32 * r,
        i <= 2 * r,
    ensures
        scrypt_bm_chain(b, r, i).len() == 16,
    decreases i,
{
    if i > 0 {
        lemma_scrypt_bm_chain_len(b, r, (i - 1) as nat);
    }
}

/// BlockMix on the shuffled order follows scrypt's BlockMix step by step.
proof fn lemma_bm_chain_shuffled(b: Seq<u32>, r: nat, i: nat)
    requires
        r >= 1,
        b.len() == 32 * r,
        i <= 2 * r,
    ensures
        bm_chain(shuffle_blocks(b), r, i) == shuffle(scrypt_bm_chain(b, r, i)),
    decreases i,
{
    if i == 0 {
        lemma_shuffle_blocks_sub(b, 2 * r - 1);
    } else {
        lemma_bm_chain_shuffled(b, r, (i - 1) as nat);
        lemma_scrypt_bm_chain_len(b, r, (i - 1) as nat);
        lemma_shuffle_blocks_sub(b, i - 1);
        let c = scrypt_bm_chain(b, r, (i - 1) as nat);
        let bi = blk(b, 16 * (i - 1), 16);
        lemma_shuffle16_xor(c, bi);
        lemma_salsa20_shuffled(xor_words(c, bi));
    }
}

/// BlockMix on the shuffled order is scrypt's BlockMix, shuffled.
#[verifier::spinoff_prover]
#[verifier::rlimit(30)]
pub proof fn lemma_blockmix_shuffled(b: Seq<u32>, r: nat)
    requires
        r >= 1,
        b.len() == 32 * r,
    ensures
        blockmix_salsa8_spec(shuffle_blocks(b), r) == shuffle_blocks(scrypt_blockmix(b, r)),
        scrypt_blockmix(b, r).len() == 32 * r,
{
    assert forall|w: int| 0 <= w < 32 * r implies #[trigger] blockmix_salsa8_spec(shuffle_blocks(b), r)[w]
        == shuffle_blocks(scrypt_blockmix(b, r))[w] by {
        let t = w % 16;
        let m = bm_out_index(w / 16, r as int);
        lemma_shuffle_index(t);
        lemma_bm_chain_shuffled(b, r, (m + 1) as nat);
        lemma_scrypt_bm_chain_len(b, r, (m + 1) as nat);
        lemma_shuffle_elem(scrypt_bm_chain(b, r, (m + 1) as nat), t);
        let w2 = 16 * (w / 16) + (5 * t) % 16;
        assert(w2 / 16 == w / 16);
        assert(w2 % 16 == (5 * t) % 16);
    }
    assert(blockmix_salsa8_spec(shuffle_blocks(b), r) =~= shuffle_blocks(scrypt_blockmix(b, r)));
}

/// Integerify reads the same number from the shuffled order.
pub proof fn lemma_integerify_shuffled(x: Seq<u32>, r: nat)
    requires
        r >= 1,
        x.len() == 32 * r,
    ensures
        integerify_spec(shuffle_blocks(x), r) == scrypt_integerify(x, r),
{
    let base = 16 * (2 * r - 1);
    assert((base + 13) / 16 == base / 16);
    assert((base + 13) % 16 == 13);
    assert(base % 16 == 0);
}

/// Shuffling and unshuffling a lane gives it back.
pub proof fn lemma_unshuffle_shuffle(x: Seq<u32>, r: nat)
    requires
        x.len() == 32 * r,
    ensures
        unshuffle_block(shuffle_blocks(x), r) == x,
        shuffle_block(x, r) == shuffle_blocks(x),
{
    assert forall|w: int| 0 <= w < 32 * r implies #[trigger] unshuffle_block(shuffle_blocks(x), r)[w]
        == x[w] by {
        let t = w % 16;
        lemma_shuffle_index(t);
        let w2 = 16 * (w / 16) + (13 * t) % 16;
        assert(w2 / 16 == w / 16);
        assert(w2 % 16 == (13 * t) % 16);
    }
    assert(unshuffle_block(shuffle_blocks(x), r) =~= x);
    assert(shuffle_block(x, r) =~= shuffle_blocks(x));
}

/// Each `V[i]` of ROMix is a lane of `32 * r` words.
proof fn lemma_romix_v_len(b: Seq<u32>, r: nat, i: nat)
    requires
        b.len() == 32 * r,
    ensures
        romix_v(b, r, i).len() == 32 * r,
    decreases i,
{
    if i > 0 {
        lemma_romix_v_len(b, r, (i - 1) as nat);
    }
}

proof fn lemma_block_disjoint(k: int, i: int, s: int)
    by (nonlinear_arith)
    requires
        0 <= k < i,
        1 <= s,
    ensures
        k * s + s <= i * s,
        0 <= k * s,
{
}

/// `smix1` with BlockMix-Salsa20/8 and no read-write step is the first loop
/// of ROMix on the shuffled order: after `i` steps the block is `V[i]` and
/// entries `0 .. i` of its region of `V` hold `V[0] .. V[i - 1]`, whatever
/// `V` held before.
pub proof fn lemma_smix1_is_romix_fill(
    b: Seq<u32>,
    v: Seq<u32>,
    c: (Seq<u32>, Seq<u32>, Seq<u32>, nat),
    r: nat,
    voff: int,
    n: nat,
    i: nat,
)
    requires
        r >= 1,
        b.len() == 32 * r,
        0 <= voff,
        i <= n,
        voff + n * (32 * r) <= v.len(),
    ensures
        smix1_loop(shuffle_blocks(b), v, c, r, voff, false, false, i).0 == shuffle_blocks(romix_v(b, r, i)),
        smix1_loop(shuffle_blocks(b), v, c, r, voff, false, false, i).1.len() == v.len(),
        smix1_loop(shuffle_blocks(b), v, c, r, voff, false, false, i).2 == c,
        forall|k: int|
            0 <= k < i ==> #[trigger] blk(
                smix1_loop(shuffle_blocks(b), v, c, r, voff, false, false, i).1,
                voff + k * (32 * r as int),
                32 * r as int,
            ) == shuffle_blocks(romix_v(b, r, k as nat)),
    decreases i,
{
    let s = 32 * r as int;
    if i > 0 {
        lemma_smix1_is_romix_fill(b, v, c, r, voff, n, (i - 1) as nat);
        let st = smix1_loop(shuffle_blocks(b), v, c, r, voff, false, false, (i - 1) as nat);
        lemma_romix_v_len(b, r, (i - 1) as nat);
        lemma_blockmix_shuffled(romix_v(b, r, (i - 1) as nat), r);
        let v1 = put_blk(st.1, voff + (i - 1) * s, st.0);
        lemma_block_disjoint(i - 1, n as int, s);
        assert forall|k: int| 0 <= k < i implies #[trigger] blk(v1, voff + k * s, s) == shuffle_blocks(
            romix_v(b, r, k as nat),
        ) by {
            if k < i - 1 {
                lemma_block_disjoint(k, i - 1, s);
                assert(blk(v1, voff + k * s, s) =~= blk(st.1, voff + k * s, s));
            } else {
                assert(blk(v1, voff + k * s, s) =~= st.0);
            }
        }
    }
}

/// `smix2` with BlockMix-Salsa20/8 and no writes, over a `V` whose region
/// holds `V[0] .. V[n - 1]` of ROMix, is the second loop of ROMix on the
/// shuffled order (`N` a power of two).
pub proof fn lemma_smix2_is_romix_mix(
    b: Seq<u32>,
    v: Seq<u32>,
    c: (Seq<u32>, Seq<u32>, Seq<u32>, nat),
    r: nat,
    n: u64,
    voff: int,
    i: nat,
)
    requires
        r >= 1,
        b.len() == 32 * r,
        0 <= voff,
        n > 0,
        n & ((n - 1) as u64) == 0,
        voff + n * (32 * r) <= v.len(),
        forall|k: int|
            0 <= k < n ==> #[trigger] blk(v, voff + k * (32 * r as int), 32 * r as int) == shuffle_blocks(
                romix_v(b, r, k as nat),
            ),
    ensures
        smix2_loop(shuffle_blocks(romix_v(b, r, n as nat)), v, c, r, n, voff, false, false, i).0
            == shuffle_blocks(romix_mix(b, r, n, i)),
        smix2_loop(shuffle_blocks(romix_v(b, r, n as nat)), v, c, r, n, voff, false, false, i).1 == v,
        smix2_loop(shuffle_blocks(romix_v(b, r, n as nat)), v, c, r, n, voff, false, false, i).2 == c,
        romix_mix(b, r, n, i).len() == 32 * r,
    decreases i,
{
    let s = 32 * r as int;
    if i == 0 {
        lemma_romix_v_len(b, r, n as nat);
    } else {
        lemma_smix2_is_romix_mix(b, v, c, r, n, voff, (i - 1) as nat);
        let x = romix_mix(b, r, n, (i - 1) as nat);
        let xs = shuffle_blocks(x);
        lemma_integerify_shuffled(x, r);
        crate::common::lemma_and_mask_is_mod(scrypt_integerify(x, r), n);
        let j = scrypt_integerify(x, r) % n;
        assert(blk(v, voff + j * s, s) == shuffle_blocks(romix_v(b, r, j as nat)));
        lemma_romix_v_len(b, r, j as nat);
        lemma_shuffle_xor(x, romix_v(b, r, j as nat));
        lemma_blockmix_shuffled(xor_words(x, romix_v(b, r, j as nat)), r);
    }
}

/// `smix2` with no steps gives the lane back as it was.
pub proof fn lemma_smix2_no_steps(
    b: Seq<u32>,
    v: Seq<u32>,
    c: (Seq<u32>, Seq<u32>, Seq<u32>, nat),
    r: nat,
    n: u64,
    voff: int,
    rw: bool,
    pwx: bool,
)
    requires
        b.len() == 32 * r,
    ensures
        smix2_spec(b, v, c, r, n, 0, voff, rw, pwx) == (b, v, c),
{
    reveal(smix2_spec);
    lemma_unshuffle_shuffle(b, r);
}

/// Without read-write mode `smix2` only reads `V`.
pub proof fn lemma_smix2_reads_only(
    b: Seq<u32>,
    v: Seq<u32>,
    c: (Seq<u32>, Seq<u32>, Seq<u32>, nat),
    r: nat,
    n: u64,
    nloop: nat,
    voff: int,
    pwx: bool,
)
    ensures
        smix2_spec(b, v, c, r, n, nloop, voff, false, pwx).1 == v,
{
    reveal(smix2_spec);
    lemma_smix2_loop_reads_only(shuffle_block(b, r), v, c, r, n, voff, pwx, nloop);
}

proof fn lemma_smix2_loop_reads_only(
    x: Seq<u32>,
    v: Seq<u32>,
    c: (Seq<u32>, Seq<u32>, Seq<u32>, nat),
    r: nat,
    n: u64,
    voff: int,
    pwx: bool,
    i: nat,
)
    ensures
        smix2_loop(x, v, c, r, n, voff, false, pwx, i).1 == v,
    decreases i,
{
    if i > 0 {
        lemma_smix2_loop_reads_only(x, v, c, r, n, voff, pwx, (i - 1) as nat);
    }
}

proof fn lemma_power_of_two_even(n: u64)
    by (bit_vector)
    requires
        n >= 2,
        n & ((n - 1) as u64) == 0,
    ensures
        n % 2 == 0,
{
}

/// One lane of yescrypt's `smix` in scrypt mode (`flags == 0`, `t == 0`, one
/// lane at a time) is ROMix on that lane, whatever `V` held before; the
/// password buffer is left alone.
#[verifier::spinoff_prover]
#[verifier::rlimit(40)]
pub proof fn lemma_smix_lane_is_romix(b: Seq<u32>, v: Seq<u32>, pw: Seq<u8>, boff: int, r: nat, n: u64)
    requires
        r >= 1,
        n >= 2,
        n & ((n - 1) as u64) == 0,
        0 <= boff,
        boff + 32 * r <= b.len(),
        v.len() == n * (32 * r),
    ensures
        smix_spec(b, v, pw, boff, r, n, 1, 0, 0).0 == put_blk(b, boff, romix(blk(b, boff, 32 * r as int), r, n)),
        smix_spec(b, v, pw, boff, r, n, 1, 0, 0).1.len() == v.len(),
        smix_spec(b, v, pw, boff, r, n, 1, 0, 0).2 == pw,
{
    let s = 32 * r as int;
    let lane = blk(b, boff, s);
    lemma_power_of_two_even(n);
    assert(0u32 & 2u32 == 0u32 && 0u32 & 0x100_0000u32 == 0u32) by (bit_vector);
    assert(smix_nloop_all(n, 1, 0, 0) == n);
    assert(smix_nloop_rw(n, 1, 0, 0) == 0);
    // First pass: smix1 fills V with V[0 .. N - 1], smix2 takes no step.
    reveal(smix1_spec);
    lemma_unshuffle_shuffle(lane, r);
    lemma_smix1_is_romix_fill(lane, v, empty_sbox(), r, 0, n as nat, n as nat);
    let st1 = smix1_loop(shuffle_blocks(lane), v, empty_sbox(), r, 0, false, false, n as nat);
    lemma_romix_v_len(lane, r, n as nat);
    lemma_unshuffle_shuffle(romix_v(lane, r, n as nat), r);
    let m1 = smix1_spec(lane, v, empty_sbox(), r, n as nat, 0, false, false);
    assert(m1 == (romix_v(lane, r, n as nat), st1.1, empty_sbox()));
    lemma_smix2_no_steps(m1.0, m1.1, m1.2, r, crate::common::prev_pow2(n as nat) as u64, 0, false, false);
    assert(smix_lane1(b, v, pw, boff, r, n, 1, false, 0, 0) == (put_blk(b, boff, m1.0), st1.1, empty_sbox(), pw));
    reveal_with_fuel(smix_pass1, 2);
    let p1 = smix_pass1(b, v, pw, boff, r, n, 1, false, 0, 1);
    assert(p1.0 == put_blk(b, boff, m1.0));
    assert(p1.2 == seq![empty_sbox()]);
    // Second pass: smix2 over all of V is the second loop of ROMix.
    let b1 = p1.0;
    assert(blk(b1, boff, s) =~= romix_v(lane, r, n as nat));
    assert forall|k: int| 0 <= k < n implies #[trigger] blk(st1.1, k * s, s) == shuffle_blocks(
        romix_v(lane, r, k as nat),
    ) by {
        assert(blk(st1.1, 0 + k * s, s) == shuffle_blocks(romix_v(lane, r, k as nat)));
    }
    reveal(smix2_spec);
    lemma_unshuffle_shuffle(romix_v(lane, r, n as nat), r);
    lemma_smix2_is_romix_mix(lane, st1.1, empty_sbox(), r, n, 0, n as nat);
    lemma_unshuffle_shuffle(romix_mix(lane, r, n, n as nat), r);
    reveal_with_fuel(smix_pass2, 2);
    let p2 = smix_pass2(b1, st1.1, p1.2, boff, r, n, n as nat, false, 1);
    assert(p2.0 == put_blk(b1, boff, romix(lane, r, n)));
    assert(p2.0 =~= put_blk(b, boff, romix(lane, r, n)));
}

/// ROMix on lanes `0 .. i` changes nothing from lane `i` on.
proof fn lemma_scrypt_lanes_rest(b: Seq<u32>, r: nat, n: u64, i: nat)
    requires
        i * (32 * r) <= b.len(),
    ensures
        scrypt_lanes(b, r, n, i).len() == b.len(),
        scrypt_lanes(b, r, n, i).subrange(i * (32 * r as int), b.len() as int) == b.subrange(
            i * (32 * r as int),
            b.len() as int,
        ),
    decreases i,
{
    let s = 32 * r as int;
    if i > 0 {
        assert((i - 1) * s + s == i * s) by (nonlinear_arith);
        assert(0 <= (i - 1) * s) by (nonlinear_arith)
            requires
                i >= 1,
                s >= 0,
        ;
        lemma_scrypt_lanes_rest(b, r, n, (i - 1) as nat);
        let prev = scrypt_lanes(b, r, n, (i - 1) as nat);
        let off = (i - 1) * s;
        lemma_romix_len(blk(b, off, s), r, n);
        assert(prev.subrange(off, prev.len() as int).subrange(s, prev.len() - off) =~= prev.subrange(
            off + s,
            prev.len() as int,
        ));
        assert(scrypt_lanes(b, r, n, i).subrange(i * s, b.len() as int) =~= b.subrange(i * s, b.len() as int));
    }
}

/// ROMix gives a lane of the same length.
proof fn lemma_romix_len(b: Seq<u32>, r: nat, n: u64)
    requires
        b.len() == 32 * r,
    ensures
        romix(b, r, n).len() == 32 * r,
{
    lemma_romix_mix_len(b, r, n, n as nat);
}

proof fn lemma_romix_mix_len(b: Seq<u32>, r: nat, n: u64, i: nat)
    requires
        b.len() == 32 * r,
    ensures
        romix_mix(b, r, n, i).len() == 32 * r,
    decreases i,
{
    if i == 0 {
        lemma_romix_v_len(b, r, n as nat);
    } else {
        lemma_romix_mix_len(b, r, n, (i - 1) as nat);
    }
}

/// yescrypt's lanes in scrypt mode are ROMix on each lane.
pub proof fn lemma_lanes_are_romix(b: Seq<u32>, v: Seq<u32>, pw: Seq<u8>, r: nat, n: u64, i: nat)
    requires
        r >= 1,
        n >= 2,
        n & ((n - 1) as u64) == 0,
        i * (32 * r) <= b.len(),
        v.len() == n * (32 * r),
    ensures
        lanes_spec(b, v, pw, r, n, 0, 0, i).0 == scrypt_lanes(b, r, n, i),
        lanes_spec(b, v, pw, r, n, 0, 0, i).1.len() == v.len(),
        lanes_spec(b, v, pw, r, n, 0, 0, i).2 == pw,
    decreases i,
{
    let s = 32 * r as int;
    if i > 0 {
        assert((i - 1) * s + s == i * s) by (nonlinear_arith);
        assert(0 <= (i - 1) * s) by (nonlinear_arith)
            requires
                i >= 1,
                s >= 0,
        ;
        lemma_lanes_are_romix(b, v, pw, r, n, (i - 1) as nat);
        let st = lanes_spec(b, v, pw, r, n, 0, 0, (i - 1) as nat);
        let off = (i - 1) * s;
        lemma_scrypt_lanes_rest(b, r, n, (i - 1) as nat);
        assert(blk(st.0, off, s) =~= blk(b, off, s)) by {
            assert(blk(st.0, off, s) =~= st.0.subrange(off, b.len() as int).subrange(0, s));
            assert(blk(b, off, s) =~= b.subrange(off, b.len() as int).subrange(0, s));
        }
        lemma_smix_lane_is_romix(st.0, st.1, st.2, off, r, n);
    }
}

/// With `flags == 0`, `t == 0` and `g == 0`, accepted parameters and
/// allocatable sizes, yescrypt is classic scrypt (given that PBKDF2 returns as
/// many bytes as asked for).
pub proof fn lemma_scrypt_mode_is_scrypt(passwd: Seq<u8>, salt: Seq<u8>, n: u64, r: u32, p: u32, len: usize)
    requires
        params_ok(0, n, r, p, 0, len),
        sizes_fit(n, r, p),
        pbkdf2_sha256_key(passwd, salt, 1, (128 * (r as int) * (p as int)) as usize).len() == 128 * (r as int)
            * (p as int),
    ensures
        yescrypt_kdf_spec(passwd, salt, 0, n, r, p, 0, 0, len) == scrypt_spec(passwd, salt, n, r, p, len),
{
    assert(0u32 & 2u32 == 0u32 && 0u32 & 0x100_0000u32 == 0u32 && 0u32 & 0x1000_0000u32 == 0u32) by (bit_vector);
    assert(!prehash_applies(0, n, r, p));
    let bbytes = pbkdf2_sha256_key(passwd, salt, 1, (128 * (r as int) * (p as int)) as usize);
    let bw = le32_words(bbytes);
    assert((128 * (r as int) * (p as int)) / 4 == (p as int) * (32 * (r as int))) by (nonlinear_arith);
    assert(32 * (r as int) * (n as int) == (n as int) * (32 * (r as int))) by (nonlinear_arith);
    let v0 = crate::smix::zero_words((32 * (r as int) * (n as int)) as nat);
    lemma_lanes_are_romix(bw, v0, passwd, r as nat, n, p as nat);
    assert(body_mix(passwd, salt, 0, n, r, p, 0, v0) == (passwd, le32_bytes(scrypt_lanes(bw, r as nat, n, p as nat))));
    assert(crate::kdf::body_v0(Seq::empty(), 0, n, r) == v0);
    assert(body_result(Seq::empty(), passwd, salt, 0, n, r, p, 0, len) == Ok::<Seq<u8>, crate::kdf::KdfError>(scrypt_spec(passwd, salt, n, r, p, len)));
}

} // verus!
