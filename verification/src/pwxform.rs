//! yescrypt's pwxform: S-box lookups and multiplications on 64-byte blocks,
//! with a rolling set of three S-boxes of which one is written as it goes;
//! and the BlockMix built on it.

use vstd::prelude::*;
use crate::common::{blk, put_blk, xor_words, blkcpy, blkxor};
use crate::salsa20::{salsa20, salsa20_core, lemma_salsa20_core_len};

verus! {

/// The words of one S-box: 256 entries of two 64-bit lanes.
pub const SBOX_WORDS: usize = 1024;

/// The bits of a 32-bit word that select an S-box entry, as a byte offset.
pub const SMASK: u32 = 4080;

/// The state that pwxform carries from one block to the next: the S-boxes
/// that are read (`s0`, `s1`), the one that is written (`s2`), and the
/// write position in `s2`, counted in 64-bit lanes.
pub struct PwxformCtx {
    pub s0: Vec<u32>,
    pub s1: Vec<u32>,
    pub s2: Vec<u32>,
    pub w: usize,
}

impl View for PwxformCtx {
    type V = (Seq<u32>, Seq<u32>, Seq<u32>, nat);

    open spec fn view(&self) -> Self::V {
        (self.s0@, self.s1@, self.s2@, self.w as nat)
    }
}

/// S-boxes of 1024 words each, and a write position on a 32-lane boundary.
pub open spec fn sbox_wf(c: (Seq<u32>, Seq<u32>, Seq<u32>, nat)) -> bool {
    &&& c.0.len() == 1024
    &&& c.1.len() == 1024
    &&& c.2.len() == 1024
    &&& c.3 < 512
    &&& c.3 % 32 == 0
}

/// The 64-bit lane at word `idx` of an S-box, low word first.
pub open spec fn sbox_lane(s: Seq<u32>, idx: int) -> u64 {
    (s[idx + 1] as int * 0x1_0000_0000 + s[idx] as int) as u64
}

/// The word index of the S-box entry that `x` selects.
pub open spec fn sbox_index(x: u32) -> int {
    ((x & SMASK) / 8) as int * 2
}

/// The new value of lane `k` of gather `j` of `x`: the product of its halves,
/// plus an `s0` entry, exclusive-or an `s1` entry; the entries are chosen by
/// lane 0 of the gather as it was before the gather started.
pub open spec fn pwx_lane(x: Seq<u32>, j: int, k: int, s0: Seq<u32>, s1: Seq<u32>) -> u64 {
    let i0 = sbox_index(x[4 * j]) + 2 * k;
    let i1 = sbox_index(x[4 * j + 1]) + 2 * k;
    let xl = x[4 * j + 2 * k];
    let xh = x[4 * j + 2 * k + 1];
    (((xh as int * xl as int + sbox_lane(s0, i0) as int) % 0x1_0000_0000_0000_0000) as u64) ^ sbox_lane(s1, i1)
}

/// Law of one gather: lane `k` (`k = 0, 1`) of gather `j` becomes
/// `(hi * lo + S0[a + 2k]) mod 2^64 xor S1[b + 2k]`, where `lo`, `hi` are the
/// lane's two words, `S[i]` is the 64-bit S-box lane at word `i` (low word
/// first), and the entries are chosen by gather `j`'s first lane as it was:
/// `a = 2 * ((x[4j] & 0xff0) / 8)` from its low word for `S0`,
/// `b = 2 * ((x[4j+1] & 0xff0) / 8)` from its high word for `S1`. The other
/// words of the block stay as they were; when writing, the two new lanes go
/// to `s2` at lanes `w` and `w + 1`.
pub proof fn law_pwx_gather(
    x: Seq<u32>,
    s0: Seq<u32>,
    s1: Seq<u32>,
    s2: Seq<u32>,
    w: int,
    j: int,
    write: bool,
)
    requires
        x.len() == 16,
        0 <= j < 4,
        write ==> 0 <= w && 2 * w + 4 <= s2.len(),
    ensures
        forall|k: int|
            #![trigger pwx_gather(x, s0, s1, s2, w, j, write).0[4 * j + 2 * k]]
            0 <= k < 2 ==> {
                let a = 2 * ((x[4 * j] & 0xff0u32) / 8) as int + 2 * k;
                let b = 2 * ((x[4 * j + 1] & 0xff0u32) / 8) as int + 2 * k;
                let v = (((x[4 * j + 2 * k + 1] as int * x[4 * j + 2 * k] as int + s0[a + 1] as int
                    * 0x1_0000_0000 + s0[a] as int) % 0x1_0000_0000_0000_0000) as u64) ^ ((s1[b + 1] as int
                    * 0x1_0000_0000 + s1[b] as int) as u64);
                &&& pwx_gather(x, s0, s1, s2, w, j, write).0[4 * j + 2 * k] == v as u32
                &&& pwx_gather(x, s0, s1, s2, w, j, write).0[4 * j + 2 * k + 1] == (v >> 32u64) as u32
                &&& write ==> pwx_gather(x, s0, s1, s2, w, j, write).1[2 * w + 2 * k] == v as u32
                &&& write ==> pwx_gather(x, s0, s1, s2, w, j, write).1[2 * w + 2 * k + 1] == (v >> 32u64) as u32
            },
        forall|m: int|
            0 <= m < 16 && !(4 * j <= m < 4 * j + 4) ==> #[trigger] pwx_gather(x, s0, s1, s2, w, j, write).0[m]
                == x[m],
        pwx_gather(x, s0, s1, s2, w, j, write).0.len() == 16,
{
    assert(SMASK == 0xff0u32);
    assert(sbox_index(x[4 * j]) == 2 * ((x[4 * j] & 0xff0u32) / 8) as int);
    assert(sbox_index(x[4 * j + 1]) == 2 * ((x[4 * j + 1] & 0xff0u32) / 8) as int);
}

/// One gather `j`: both lanes of `x` replaced, and when `write` holds, both new
/// lanes stored in `s2` at position `w`, which moves on by two.
pub open spec fn pwx_gather(
    x: Seq<u32>,
    s0: Seq<u32>,
    s1: Seq<u32>,
    s2: Seq<u32>,
    w: int,
    j: int,
    write: bool,
) -> (Seq<u32>, Seq<u32>, int) {
    let v0 = pwx_lane(x, j, 0, s0, s1);
    let v1 = pwx_lane(x, j, 1, s0, s1);
    let x2 = x.update(4 * j, v0 as u32).update(4 * j + 1, (v0 >> 32u64) as u32).update(
        4 * j + 2,
        v1 as u32,
    ).update(4 * j + 3, (v1 >> 32u64) as u32);
    if write {
        let s22 = s2.update(2 * w, v0 as u32).update(2 * w + 1, (v0 >> 32u64) as u32).update(
            2 * w + 2,
            v1 as u32,
        ).update(2 * w + 3, (v1 >> 32u64) as u32);
        (x2, s22, w + 2)
    } else {
        (x2, s2, w)
    }
}

/// The first `n` gathers of one round.
pub open spec fn pwx_gathers(
    x: Seq<u32>,
    s0: Seq<u32>,
    s1: Seq<u32>,
    s2: Seq<u32>,
    w: int,
    write: bool,
    n: nat,
) -> (Seq<u32>, Seq<u32>, int)
    decreases n,
{
    if n == 0 {
        (x, s2, w)
    } else {
        let st = pwx_gathers(x, s0, s1, s2, w, write, (n - 1) as nat);
        pwx_gather(st.0, s0, s1, st.1, st.2, n - 1, write)
    }
}

/// Whether round `i` of six stores into `s2`: all but the first and the last.
pub open spec fn pwx_round_writes(i: int) -> bool {
    i != 0 && i != 5
}

/// The first `n` rounds of four gathers each.
pub open spec fn pwx_rounds(
    x: Seq<u32>,
    s0: Seq<u32>,
    s1: Seq<u32>,
    s2: Seq<u32>,
    w: int,
    n: nat,
) -> (Seq<u32>, Seq<u32>, int)
    decreases n,
{
    if n == 0 {
        (x, s2, w)
    } else {
        let st = pwx_rounds(x, s0, s1, s2, w, (n - 1) as nat);
        pwx_gathers(st.0, s0, s1, st.1, st.2, pwx_round_writes(n - 1), 4)
    }
}

proof fn lemma_gathers_without_write(
    x: Seq<u32>,
    s0: Seq<u32>,
    s1: Seq<u32>,
    s2: Seq<u32>,
    w: int,
    n: nat,
)
    ensures
        pwx_gathers(x, s0, s1, s2, w, false, n).1 == s2,
        pwx_gathers(x, s0, s1, s2, w, false, n).2 == w,
    decreases n,
{
    if n > 0 {
        lemma_gathers_without_write(x, s0, s1, s2, w, (n - 1) as nat);
    }
}

/// Law of pwxform's write schedule: the first round and the last (sixth)
/// round store nothing into the S-box being written, and leave the write
/// position where it was; the four rounds between store eight lanes each.
pub proof fn law_pwx_write_schedule(x: Seq<u32>, s0: Seq<u32>, s1: Seq<u32>, s2: Seq<u32>, w: int)
    ensures
        pwx_rounds(x, s0, s1, s2, w, 1).1 == s2,
        pwx_rounds(x, s0, s1, s2, w, 1).2 == w,
        pwx_rounds(x, s0, s1, s2, w, 6).1 == pwx_rounds(x, s0, s1, s2, w, 5).1,
        pwx_rounds(x, s0, s1, s2, w, 6).2 == pwx_rounds(x, s0, s1, s2, w, 5).2,
        forall|i: nat| 1 <= i <= 4 ==> #[trigger] pwx_rounds(x, s0, s1, s2, w, i + 1).2 == pwx_rounds(x, s0, s1, s2, w, i).2 + 8,
{
    let st0 = pwx_rounds(x, s0, s1, s2, w, 0);
    lemma_gathers_without_write(st0.0, s0, s1, st0.1, st0.2, 4);
    let st5 = pwx_rounds(x, s0, s1, s2, w, 5);
    lemma_gathers_without_write(st5.0, s0, s1, st5.1, st5.2, 4);
    assert forall|i: nat| 1 <= i <= 4 implies #[trigger] pwx_rounds(x, s0, s1, s2, w, i + 1).2 == pwx_rounds(
        x,
        s0,
        s1,
        s2,
        w,
        i,
    ).2 + 8 by {
        let st = pwx_rounds(x, s0, s1, s2, w, i);
        lemma_gathers_with_write(st.0, s0, s1, st.1, st.2, 4);
    }
}

proof fn lemma_gathers_with_write(
    x: Seq<u32>,
    s0: Seq<u32>,
    s1: Seq<u32>,
    s2: Seq<u32>,
    w: int,
    n: nat,
)
    ensures
        pwx_gathers(x, s0, s1, s2, w, true, n).2 == w + 2 * n,
    decreases n,
{
    if n > 0 {
        lemma_gathers_with_write(x, s0, s1, s2, w, (n - 1) as nat);
    }
}

/// pwxform on a 16-word block: six rounds, then the S-boxes rotate
/// (`s0, s1, s2` become `s2, s0, s1`) and the write position wraps at 512.
pub open spec fn pwxform_spec(x: Seq<u32>, c: (Seq<u32>, Seq<u32>, Seq<u32>, nat)) -> (
    Seq<u32>,
    (Seq<u32>, Seq<u32>, Seq<u32>, nat),
) {
    let st = pwx_rounds(x, c.0, c.1, c.2, c.3 as int, 6);
    (st.0, (st.1, c.0, c.1, (st.2 % 512) as nat))
}

proof fn lemma_mask_bound(x: u32)
    by (bit_vector)
    ensures
        x & 4080u32 <= 4080u32,
{
}

proof fn lemma_mod512(w: usize)
    by (bit_vector)
    ensures
        w & 511usize == w % 512,
{
}

fn lane64(xl: u32, xh: u32, s0l: u32, s0h: u32, s1l: u32, s1h: u32) -> (v: u64)
    ensures
        v == (((xh as int * xl as int + (s0h as int * 0x1_0000_0000 + s0l as int)) % 0x1_0000_0000_0000_0000) as u64)
            ^ ((s1h as int * 0x1_0000_0000 + s1l as int) as u64),
{
    assert(xh as int * xl as int <= 0xffff_ffff * 0xffff_ffff) by (nonlinear_arith)
        requires
            xh <= 0xffff_ffff,
            xl <= 0xffff_ffff,
    ;
    let prod: u64 = (xh as u64) * (xl as u64);
    let a: u64 = (s0h as u64) * 0x1_0000_0000u64 + (s0l as u64);
    let b: u64 = (s1h as u64) * 0x1_0000_0000u64 + (s1l as u64);
    let sum = prod.wrapping_add(a);
    assert(prod as int == xh as int * xl as int);
    assert(sum as int == (prod as int + a as int) % 0x1_0000_0000_0000_0000) by {
        if prod as int + a as int > u64::MAX as int {
            assert(sum as int == prod as int + a as int - 0x1_0000_0000_0000_0000);
        } else {
            assert(sum as int == prod as int + a as int);
        }
    }
    sum ^ b
}

fn pwx_gather_exec(
    x: &mut Vec<u32>,
    s0: &Vec<u32>,
    s1: &Vec<u32>,
    s2: &mut Vec<u32>,
    w: &mut usize,
    j: usize,
    write: bool,
)
    requires
        old(x)@.len() == 16,
        s0@.len() == 1024,
        s1@.len() == 1024,
        old(s2)@.len() == 1024,
        j < 4,
        write ==> *old(w) + 2 <= 512,
    ensures
        final(x)@.len() == 16,
        final(s2)@.len() == 1024,
        (final(x)@, final(s2)@, *final(w) as int) == pwx_gather(
            old(x)@,
            s0@,
            s1@,
            old(s2)@,
            *old(w) as int,
            j as int,
            write,
        ),
        *final(w) == (if write { *old(w) + 2 } else { *old(w) as int }),
        forall|k: int|
            0 <= k < 1024 && !(2 * *old(w) <= k < 2 * *final(w)) ==> #[trigger] final(s2)@[k] == old(s2)@[k],
{
    let xl = x[4 * j];
    let xh = x[4 * j + 1];
    proof {
        lemma_mask_bound(xl);
        lemma_mask_bound(xh);
    }
    let p0: usize = ((xl & SMASK) / 8) as usize * 2;
    let p1: usize = ((xh & SMASK) / 8) as usize * 2;
    let v0 = lane64(x[4 * j], x[4 * j + 1], s0[p0], s0[p0 + 1], s1[p1], s1[p1 + 1]);
    let v1 = lane64(x[4 * j + 2], x[4 * j + 3], s0[p0 + 2], s0[p0 + 3], s1[p1 + 2], s1[p1 + 3]);
    x.set(4 * j, v0 as u32);
    x.set(4 * j + 1, (v0 >> 32u32) as u32);
    x.set(4 * j + 2, v1 as u32);
    x.set(4 * j + 3, (v1 >> 32u32) as u32);
    if write {
        let ww = *w;
        s2.set(2 * ww, v0 as u32);
        s2.set(2 * ww + 1, (v0 >> 32u32) as u32);
        s2.set(2 * ww + 2, v1 as u32);
        s2.set(2 * ww + 3, (v1 >> 32u32) as u32);
        *w = ww + 2;
    }
}

/// How many S-box lanes the first `i` rounds store: eight per writing round.
pub open spec fn pwx_written(i: int) -> int {
    if i <= 1 {
        0
    } else if i <= 5 {
        8 * (i - 1)
    } else {
        32
    }
}

/// pwxform, in place on a 16-word block and on the S-box state.
pub fn pwxform(x: &mut Vec<u32>, ctx: &mut PwxformCtx)
    requires
        old(x)@.len() == 16,
        sbox_wf(old(ctx)@),
    ensures
        final(x)@.len() == 16,
        sbox_wf(final(ctx)@),
        (final(x)@, final(ctx)@) == pwxform_spec(old(x)@, old(ctx)@),
        final(ctx).s1@ == old(ctx).s0@,
        final(ctx).s2@ == old(ctx).s1@,
        final(ctx).w == (old(ctx).w + 32) % 512,
        forall|k: int|
            0 <= k < 1024 && !(2 * old(ctx).w <= k < 2 * old(ctx).w + 64) ==> #[trigger] final(ctx).s0@[k]
                == old(ctx).s2@[k],
{
    let ghost x0 = x@;
    let ghost c0 = ctx@;
    let mut w: usize = ctx.w;
    let mut i: usize = 0;
    while i < 6
        invariant
            i <= 6,
            x@.len() == 16,
            ctx.s0@ == c0.0,
            ctx.s1@ == c0.1,
            ctx.s2@.len() == 1024,
            sbox_wf(c0),
            w == c0.3 + pwx_written(i as int),
            (x@, ctx.s2@, w as int) == pwx_rounds(x0, c0.0, c0.1, c0.2, c0.3 as int, i as nat),
            forall|k: int| 0 <= k < 1024 && !(2 * c0.3 <= k < 2 * w) ==> #[trigger] ctx.s2@[k] == c0.2[k],
        decreases 6 - i,
    {
        let write = i != 0 && i != 5;
        let ghost xr = x@;
        let ghost s2r = ctx.s2@;
        let ghost wr = w;
        let mut j: usize = 0;
        while j < 4
            invariant
                j <= 4,
                x@.len() == 16,
                ctx.s0@ == c0.0,
                ctx.s1@ == c0.1,
                ctx.s2@.len() == 1024,
                c0.0.len() == 1024,
                c0.1.len() == 1024,
                write ==> wr + 8 <= 512,
                w == (if write { wr + 2 * j } else { wr as int }),
                (x@, ctx.s2@, w as int) == pwx_gathers(xr, c0.0, c0.1, s2r, wr as int, write, j as nat),
                wr >= c0.3,
                forall|k: int| 0 <= k < 1024 && !(2 * c0.3 <= k < 2 * wr) ==> #[trigger] s2r[k] == c0.2[k],
                forall|k: int| 0 <= k < 1024 && !(2 * wr <= k < 2 * w) ==> #[trigger] ctx.s2@[k] == s2r[k],
            decreases 4 - j,
        {
            pwx_gather_exec(x, &ctx.s0, &ctx.s1, &mut ctx.s2, &mut w, j, write);
            j = j + 1;
        }
        i = i + 1;
    }
    std::mem::swap(&mut ctx.s0, &mut ctx.s2);
    std::mem::swap(&mut ctx.s1, &mut ctx.s2);
    proof {
        lemma_mod512(w);
    }
    ctx.w = w & 511;
}

/// The running value of BlockMix-pwxform and the S-box state after `i` of
/// the `2 * r` sub-blocks: it starts as the last sub-block, and each step
/// exclusive-ors in the next sub-block and applies pwxform.
pub open spec fn bmp_chain(
    b: Seq<u32>,
    r: nat,
    c: (Seq<u32>, Seq<u32>, Seq<u32>, nat),
    i: nat,
) -> (Seq<u32>, (Seq<u32>, Seq<u32>, Seq<u32>, nat))
    decreases i,
{
    if i == 0 {
        (blk(b, 16 * (2 * r - 1), 16), c)
    } else {
        let st = bmp_chain(b, r, c, (i - 1) as nat);
        pwxform_spec(xor_words(st.0, blk(b, 16 * (i - 1), 16)), st.1)
    }
}

/// yescrypt's BlockMix with pwxform on a block of `2 * r` sub-blocks: each
/// sub-block becomes the running value after it, and the last one then goes
/// through Salsa20/2.
pub open spec fn blockmix_pwxform_spec(
    b: Seq<u32>,
    c: (Seq<u32>, Seq<u32>, Seq<u32>, nat),
    r: nat,
) -> (Seq<u32>, (Seq<u32>, Seq<u32>, Seq<u32>, nat)) {
    let b1 = Seq::new(32 * r, |w: int| bmp_chain(b, r, c, (w / 16 + 1) as nat).0[w % 16]);
    let last = 16 * (2 * r - 1);
    (put_blk(b1, last, salsa20_core(blk(b1, last, 16), 1)), bmp_chain(b, r, c, 2 * r).1)
}

/// BlockMix with pwxform, in place on a block of `32 * r` words and on the
/// S-box state.
#[verifier::spinoff_prover]
pub fn blockmix_pwxform(b: &mut Vec<u32>, ctx: &mut PwxformCtx, r: usize)
    requires
        r >= 1,
        old(b)@.len() == 32 * r,
        sbox_wf(old(ctx)@),
    ensures
        final(b)@.len() == 32 * r,
        sbox_wf(final(ctx)@),
        (final(b)@, final(ctx)@) == blockmix_pwxform_spec(old(b)@, old(ctx)@, r as nat),
{
    let ghost b0 = b@;
    let ghost c0 = ctx@;
    let len = b.len();
    // A pwxform block is as long as a Salsa20 block, so there are `2 * r` of them.
    let r1 = 2 * r;
    let mut x: Vec<u32> = vec![0u32; 16];
    blkcpy(&mut x, 0, b, (r1 - 1) * 16, 16);
    assert(x@ =~= bmp_chain(b0, r as nat, c0, 0).0);
    let mut i: usize = 0;
    while i < r1
        invariant
            r1 == 2 * r,
            r >= 1,
            len == 32 * r,
            i <= r1,
            b@.len() == 32 * r,
            b0.len() == 32 * r,
            x@.len() == 16,
            sbox_wf(ctx@),
            (x@, ctx@) == bmp_chain(b0, r as nat, c0, i as nat),
            forall|w: int| 0 <= w < 16 * i ==> b@[w] == bmp_chain(b0, r as nat, c0, (w / 16 + 1) as nat).0[w % 16],
            forall|w: int| 16 * i <= w < 32 * r ==> b@[w] == b0[w],
        decreases r1 - i,
    {
        let ghost st = bmp_chain(b0, r as nat, c0, i as nat);
        if r1 > 1 {
            blkxor(&mut x, 0, b, i * 16, 16);
        }
        assert(blk(b@, 16 * i, 16) =~= blk(b0, 16 * i, 16));
        assert(x@ =~= xor_words(st.0, blk(b0, 16 * i, 16)));
        pwxform(&mut x, ctx);
        assert((x@, ctx@) == bmp_chain(b0, r as nat, c0, (i + 1) as nat));
        let ghost bo = b@;
        blkcpy(b, i * 16, &x, 0, 16);
        assert forall|w: int| 0 <= w < 16 * (i + 1) implies b@[w] == bmp_chain(
            b0,
            r as nat,
            c0,
            (w / 16 + 1) as nat,
        ).0[w % 16] by {
            if w >= 16 * i {
                assert(w / 16 == i);
                assert(b@[w] == x@[w - 16 * i]);
            } else {
                assert(b@[w] == bo[w]);
            }
        }
        i = i + 1;
    }
    let ghost b1 = b@;
    assert(b1 =~= Seq::new(32 * r as nat, |w: int| bmp_chain(b0, r as nat, c0, (w / 16 + 1) as nat).0[w % 16]));
    let last = r1 - 1;
    let mut t: Vec<u32> = vec![0u32; 16];
    blkcpy(&mut t, 0, b, last * 16, 16);
    assert(t@ =~= blk(b1, 16 * last, 16));
    salsa20(&mut t, 1);
    proof {
        lemma_salsa20_core_len(blk(b1, 16 * last, 16), 1);
    }
    blkcpy(b, last * 16, &t, 0, 16);
    assert(b@ =~= put_blk(b1, 16 * last, salsa20_core(blk(b1, 16 * last, 16), 1)));
}

} // verus!
