//! The Salsa20 core on yescrypt's shuffled word order, and the scrypt
//! BlockMix built on Salsa20/8.
//!
//! yescrypt keeps every 64-byte block in a permuted order: word `i` of a block
//! as held in memory is word `5 * i mod 16` of the block in Salsa20's own
//! order. The core undoes that order, runs its double rounds and redoes it.

use vstd::prelude::*;
use crate::common::{blk, put_blk, xor_words, blkcpy, blkxor};

verus! {

/// Addition modulo `2^32`.
pub open spec fn wadd(a: u32, b: u32) -> u32 {
    ((a as int + b as int) % 0x1_0000_0000) as u32
}

/// Rotation to the left by `n` bits, `0 < n < 32`.
pub open spec fn rotl(a: u32, n: u32) -> u32 {
    (a << n) | (a >> ((32 - n) as u32))
}

/// One Salsa20 quarter-round on words `a`, `b`, `c`, `d` of `x`.
pub open spec fn quarter(x: Seq<u32>, a: int, b: int, c: int, d: int) -> Seq<u32> {
    let x1 = x.update(b, x[b] ^ rotl(wadd(x[a], x[d]), 7));
    let x2 = x1.update(c, x1[c] ^ rotl(wadd(x1[b], x1[a]), 9));
    let x3 = x2.update(d, x2[d] ^ rotl(wadd(x2[c], x2[b]), 13));
    x3.update(a, x3[a] ^ rotl(wadd(x3[d], x3[c]), 18))
}

/// A Salsa20 double round: the column round, then the row round.
pub open spec fn double_round(x: Seq<u32>) -> Seq<u32> {
    let c = quarter(quarter(quarter(quarter(x, 0, 4, 8, 12), 5, 9, 13, 1), 10, 14, 2, 6), 15, 3, 7, 11);
    quarter(quarter(quarter(quarter(c, 0, 1, 2, 3), 5, 6, 7, 4), 10, 11, 8, 9), 15, 12, 13, 14)
}

/// `n` double rounds applied to `x`.
pub open spec fn salsa_rounds(x: Seq<u32>, n: nat) -> Seq<u32>
    decreases n,
{
    if n == 0 {
        x
    } else {
        double_round(salsa_rounds(x, (n - 1) as nat))
    }
}

/// From the shuffled order back to Salsa20's: word `5 * i mod 16` is `b[i]`.
pub open spec fn unshuffle(b: Seq<u32>) -> Seq<u32> {
    seq![b[0], b[13], b[10], b[7], b[4], b[1], b[14], b[11], b[8], b[5], b[2], b[15], b[12], b[9], b[6], b[3]]
}

/// From Salsa20's order to the shuffled one: word `i` is `y[5 * i mod 16]`.
pub open spec fn shuffle(y: Seq<u32>) -> Seq<u32> {
    seq![y[0], y[5], y[10], y[15], y[4], y[9], y[14], y[3], y[8], y[13], y[2], y[7], y[12], y[1], y[6], y[11]]
}

/// Word-by-word addition modulo `2^32`.
pub open spec fn add_words(a: Seq<u32>, b: Seq<u32>) -> Seq<u32> {
    Seq::new(a.len(), |i: int| wadd(a[i], b[i]))
}

/// The Salsa20 core with `double_rounds` double rounds, on a 16-word block in
/// the shuffled order: the block plus its rounds.
#[verifier::opaque]
pub open spec fn salsa20_core(b: Seq<u32>, double_rounds: nat) -> Seq<u32> {
    add_words(b, shuffle(salsa_rounds(unshuffle(b), double_rounds)))
}

fn add32(a: u32, b: u32) -> (r: u32)
    ensures
        r == wadd(a, b),
{
    a.wrapping_add(b)
}

fn rot32(a: u32, n: u32) -> (r: u32)
    requires
        0 < n < 32,
    ensures
        r == rotl(a, n),
{
    (a << n) | (a >> (32 - n))
}

fn quarter_round(x: &mut Vec<u32>, a: usize, b: usize, c: usize, d: usize)
    requires
        old(x)@.len() == 16,
        a < 16,
        b < 16,
        c < 16,
        d < 16,
    ensures
        final(x)@ == quarter(old(x)@, a as int, b as int, c as int, d as int),
{
    let t = x[b] ^ rot32(add32(x[a], x[d]), 7);
    x.set(b, t);
    let t = x[c] ^ rot32(add32(x[b], x[a]), 9);
    x.set(c, t);
    let t = x[d] ^ rot32(add32(x[c], x[b]), 13);
    x.set(d, t);
    let t = x[a] ^ rot32(add32(x[d], x[c]), 18);
    x.set(a, t);
}

fn double_round_exec(x: &mut Vec<u32>)
    requires
        old(x)@.len() == 16,
    ensures
        final(x)@ == double_round(old(x)@),
{
    quarter_round(x, 0, 4, 8, 12);
    quarter_round(x, 5, 9, 13, 1);
    quarter_round(x, 10, 14, 2, 6);
    quarter_round(x, 15, 3, 7, 11);
    quarter_round(x, 0, 1, 2, 3);
    quarter_round(x, 5, 6, 7, 4);
    quarter_round(x, 10, 11, 8, 9);
    quarter_round(x, 15, 12, 13, 14);
}

/// The Salsa20 core with `double_rounds` double rounds, in place on a
/// 16-word block kept in the shuffled order (yescrypt uses 1 and 4 of them).
pub fn salsa20(b: &mut Vec<u32>, double_rounds: u32)
    requires
        old(b)@.len() == 16,
    ensures
        final(b)@ == salsa20_core(old(b)@, double_rounds as nat),
{
    let ghost b0 = b@;
    let mut x: Vec<u32> = vec![
        b[0], b[13], b[10], b[7], b[4], b[1], b[14], b[11],
        b[8], b[5], b[2], b[15], b[12], b[9], b[6], b[3],
    ];
    assert(x@ =~= unshuffle(b0));
    let mut i: u32 = 0;
    while i < double_rounds
        invariant
            i <= double_rounds,
            b@ == b0,
            b0.len() == 16,
            x@.len() == 16,
            x@ == salsa_rounds(unshuffle(b0), i as nat),
        decreases double_rounds - i,
    {
        double_round_exec(&mut x);
        i = i + 1;
    }
    let ghost y = x@;
    b.set(0, add32(b[0], x[0]));
    b.set(1, add32(b[1], x[5]));
    b.set(2, add32(b[2], x[10]));
    b.set(3, add32(b[3], x[15]));
    b.set(4, add32(b[4], x[4]));
    b.set(5, add32(b[5], x[9]));
    b.set(6, add32(b[6], x[14]));
    b.set(7, add32(b[7], x[3]));
    b.set(8, add32(b[8], x[8]));
    b.set(9, add32(b[9], x[13]));
    b.set(10, add32(b[10], x[2]));
    b.set(11, add32(b[11], x[7]));
    b.set(12, add32(b[12], x[12]));
    b.set(13, add32(b[13], x[1]));
    b.set(14, add32(b[14], x[6]));
    b.set(15, add32(b[15], x[11]));
    assert(b@ =~= add_words(b0, shuffle(y)));
    proof {
        reveal(salsa20_core);
    }
}

/// Every Salsa20 core output is a 16-word block.
pub proof fn lemma_salsa20_core_len(b: Seq<u32>, double_rounds: nat)
    requires
        b.len() == 16,
    ensures
        salsa20_core(b, double_rounds).len() == 16,
{
    reveal(salsa20_core);
}

/// The running value of scrypt's BlockMix over a block of `2 * r` sub-blocks:
/// it starts as the last sub-block, and each step exclusive-ors in the next
/// sub-block and applies Salsa20/8.
pub open spec fn bm_chain(b: Seq<u32>, r: nat, i: nat) -> Seq<u32>
    decreases i,
{
    if i == 0 {
        blk(b, 16 * (2 * r - 1), 16)
    } else {
        salsa20_core(xor_words(bm_chain(b, r, (i - 1) as nat), blk(b, 16 * (i - 1), 16)), 4)
    }
}

/// Which intermediate value lands in output sub-block `k`: the even ones
/// first, then the odd ones.
pub open spec fn bm_out_index(k: int, r: int) -> int {
    if k < r {
        2 * k
    } else {
        2 * (k - r) + 1
    }
}

/// Each running value of BlockMix is a 16-word block.
pub proof fn lemma_bm_chain_len(b: Seq<u32>, r: nat, i: nat)
    requires
        r >= 1,
        b.len() == 32 * r,
        i <= 2 * r,
    ensures
        bm_chain(b, r, i).len() == 16,
    decreases i,
{
    if i > 0 {
        lemma_bm_chain_len(b, r, (i - 1) as nat);
        lemma_salsa20_core_len(xor_words(bm_chain(b, r, (i - 1) as nat), blk(b, 16 * (i - 1), 16)), 4);
    }
}

/// scrypt's BlockMix with Salsa20/8, on a block of `2 * r` sub-blocks of 16 words.
pub open spec fn blockmix_salsa8_spec(b: Seq<u32>, r: nat) -> Seq<u32> {
    Seq::new(32 * r, |w: int| bm_chain(b, r, (bm_out_index(w / 16, r as int) + 1) as nat)[w % 16])
}

/// scrypt's BlockMix with Salsa20/8, in place on a block of `32 * r` words.
#[verifier::spinoff_prover]
pub fn blockmix_salsa8(b: &mut Vec<u32>, r: usize)
    requires
        r >= 1,
        old(b)@.len() == 32 * r,
    ensures
        final(b)@ == blockmix_salsa8_spec(old(b)@, r as nat),
{
    let ghost b0 = b@;
    let len = b.len();
    let n = 2 * r;
    let mut x: Vec<u32> = vec![0u32; 16];
    blkcpy(&mut x, 0, b, (n - 1) * 16, 16);
    assert(x@ =~= bm_chain(b0, r as nat, 0));
    let mut y: Vec<u32> = vec![0u32; 32 * r];
    let mut i: usize = 0;
    while i < n
        invariant
            n == 2 * r,
            r >= 1,
            i <= n,
            b@ == b0,
            b0.len() == 32 * r,
            len == 32 * r,
            x@.len() == 16,
            x@ == bm_chain(b0, r as nat, i as nat),
            y@.len() == 32 * r,
            forall|w: int| 0 <= w < 16 * i ==> y@[w] == bm_chain(b0, r as nat, (w / 16 + 1) as nat)[w % 16],
        decreases n - i,
    {
        proof {
            lemma_bm_chain_len(b0, r as nat, (i + 1) as nat);
        }
        blkxor(&mut x, 0, b, i * 16, 16);
        assert(x@ =~= xor_words(bm_chain(b0, r as nat, i as nat), blk(b0, 16 * i, 16)));
        salsa20(&mut x, 4);
        let ghost yo = y@;
        blkcpy(&mut y, i * 16, &x, 0, 16);
        assert forall|w: int| 0 <= w < 16 * (i + 1) implies y@[w] == bm_chain(
            b0,
            r as nat,
            (w / 16 + 1) as nat,
        )[w % 16] by {
            if w >= 16 * i {
                assert(w / 16 == i);
                assert(y@[w] == x@[w - 16 * i]);
            } else {
                assert(y@[w] == yo[w]);
            }
        }
        i = i + 1;
    }
    let ghost yv = y@;
    let mut k: usize = 0;
    while k < r
        invariant
            k <= r,
            r >= 1,
            b@.len() == 32 * r,
            len == 32 * r,
            y@ == yv,
            yv.len() == 32 * r,
            forall|w: int| 0 <= w < 16 * k ==> b@[w] == yv[16 * bm_out_index(w / 16, r as int) + w % 16],
        decreases r - k,
    {
        let ghost bo = b@;
        blkcpy(b, k * 16, &y, 2 * k * 16, 16);
        assert forall|w: int| 0 <= w < 16 * (k + 1) implies b@[w] == yv[16 * bm_out_index(w / 16, r as int) + w % 16] by {
            if w >= 16 * k {
                assert(b@[w] == yv[2 * k * 16 + (w - 16 * k)]);
            } else {
                assert(b@[w] == bo[w]);
            }
        }
        k = k + 1;
    }
    while k < 2 * r
        invariant
            r <= k <= 2 * r,
            r >= 1,
            b@.len() == 32 * r,
            len == 32 * r,
            y@ == yv,
            yv.len() == 32 * r,
            forall|w: int| 0 <= w < 16 * k ==> b@[w] == yv[16 * bm_out_index(w / 16, r as int) + w % 16],
        decreases 2 * r - k,
    {
        let ghost bo = b@;
        blkcpy(b, k * 16, &y, (2 * (k - r) + 1) * 16, 16);
        assert forall|w: int| 0 <= w < 16 * (k + 1) implies b@[w] == yv[16 * bm_out_index(w / 16, r as int) + w % 16] by {
            if w >= 16 * k {
                assert(b@[w] == yv[(2 * (k - r) + 1) * 16 + (w - 16 * k)]);
            } else {
                assert(b@[w] == bo[w]);
            }
        }
        k = k + 1;
    }
    assert forall|w: int| 0 <= w < 32 * r implies b@[w] == blockmix_salsa8_spec(b0, r as nat)[w] by {
        let m = bm_out_index(w / 16, r as int);
        assert(0 <= m < 2 * r);
        lemma_bm_chain_len(b0, r as nat, (m + 1) as nat);
        assert(yv[16 * m + w % 16] == bm_chain(b0, r as nat, ((16 * m + w % 16) / 16 + 1) as nat)[(16 * m + w % 16) % 16]);
        assert((16 * m + w % 16) / 16 == m);
        assert((16 * m + w % 16) % 16 == w % 16);
    }
    assert(b@ =~= blockmix_salsa8_spec(b0, r as nat));
}

} // verus!
