//! Small integer helpers: binary logarithm, previous power of two, and the
//! `wrap` index map used by the read-write mixing loop.

use vstd::prelude::*;

verus! {

/// The largest power of two that does not exceed `x`; `0` for `0`.
pub open spec fn prev_pow2(x: nat) -> nat
    decreases x,
{
    if x <= 1 {
        x
    } else {
        2 * prev_pow2(x / 2)
    }
}

/// What `wrap(x, i)` computes: `x` reduced modulo the largest power of two
/// `n <= i`, then moved up into the window `[i - n, i)`.
pub open spec fn wrap_spec(x: u64, i: u64) -> u64 {
    if i == 0 {
        x
    } else {
        ((x & ((prev_pow2(i as nat) - 1) as u64)) + (i - prev_pow2(i as nat))) as u64
    }
}

/// `prev_pow2(x)` is a power of two in `(x / 2, x]` for every positive `x`.
pub proof fn lemma_prev_pow2_bounds(x: nat)
    ensures
        prev_pow2(x) <= x,
        x >= 1 ==> prev_pow2(x) >= 1,
        x < 2 * prev_pow2(x) || x == 0,
    decreases x,
{
    if x > 1 {
        lemma_prev_pow2_bounds(x / 2);
    }
}

proof fn lemma_shr_one_step(n: u64, k: u64)
    by (bit_vector)
    requires
        k < 64,
        (n >> k) > 1,
    ensures
        k + 1 < 64,
        (n >> k) >> 1u64 == n >> ((k + 1) as u64),
{
}

proof fn lemma_top_bit_base(x: u64)
    by (bit_vector)
    ensures
        x >> 0u64 == x,
        (1u64 << 0u64) == 1u64,
{
}

proof fn lemma_top_bit_step(x: u64, k: u64)
    by (bit_vector)
    requires
        k < 64,
        (x >> 1u64) >> k == 1u64,
    ensures
        k + 1 < 64,
        x >> ((k + 1) as u64) == 1u64,
{
}

proof fn lemma_half(x: u64)
    by (bit_vector)
    requires
        x >= 2,
    ensures
        x >> 1u64 == x / 2,
        1 <= x >> 1u64,
        x >> 1u64 < x,
{
}

/// Every positive `x` has a top bit `k`: `x >> k == 1`.
proof fn lemma_top_bit(x: u64) -> (k: u64)
    requires
        x != 0,
    ensures
        k < 64,
        x >> k == 1u64,
    decreases x,
{
    if x == 1 {
        lemma_top_bit_base(x);
        0
    } else {
        lemma_half(x);
        let h = x >> 1u64;
        let k0 = lemma_top_bit(h);
        lemma_top_bit_step(x, k0);
        (k0 + 1) as u64
    }
}

proof fn lemma_pow2_shift_step(x: u64, k: u64)
    by (bit_vector)
    requires
        0 < k < 64,
        x >> k == 1u64,
    ensures
        x >= 2,
        (x >> 1u64) >> ((k - 1) as u64) == 1u64,
        ((1u64 << ((k - 1) as u64)) as int) * 2 == (1u64 << k) as int,
{
}

/// If bit `k` is the top bit of `x`, then `prev_pow2(x)` is `2^k`.
pub proof fn lemma_prev_pow2_top_bit(x: u64, k: u64)
    requires
        k < 64,
        x >> k == 1u64,
    ensures
        prev_pow2(x as nat) == (1u64 << k) as nat,
    decreases k,
{
    if k == 0 {
        lemma_top_bit_base(x);
    } else {
        lemma_pow2_shift_step(x, k);
        lemma_half(x);
        lemma_prev_pow2_top_bit(x >> 1u64, (k - 1) as u64);
    }
}

proof fn lemma_clear_lowest(x: u64, k: u64)
    by (bit_vector)
    requires
        k < 64,
        x >> k == 1u64,
    ensures
        x >= 1,
        (x & ((x - 1) as u64)) == 0u64 ==> x == 1u64 << k,
        (x & ((x - 1) as u64)) != 0u64 ==> (x & ((x - 1) as u64)) >> k == 1u64,
        (x & ((x - 1) as u64)) < x,
{
}

proof fn lemma_and_zero(x: u64)
    by (bit_vector)
    ensures
        0u64 & x == 0u64,
{
}

/// Masking never gives more than the mask.
pub proof fn lemma_and_le(x: u64, m: u64)
    by (bit_vector)
    ensures
        x & m <= m,
{
}

/// A power of two is a shifted 1.
pub proof fn lemma_power_of_two_is_shift(n: u64) -> (k: u64)
    requires
        n > 0,
        n & ((n - 1) as u64) == 0,
    ensures
        k < 64,
        n == 1u64 << k,
{
    let k = lemma_top_bit(n);
    lemma_clear_lowest(n, k);
    k
}

/// For a power of two `n`, masking with `n - 1` is reduction modulo `n`.
pub proof fn lemma_and_mask_is_mod(x: u64, n: u64)
    requires
        n > 0,
        n & ((n - 1) as u64) == 0,
    ensures
        x & ((n - 1) as u64) == x % n,
{
    let k = lemma_power_of_two_is_shift(n);
    vstd::bits::lemma_u64_pow2_no_overflow(k as nat);
    vstd::bits::lemma_u64_shl_is_mul(1u64, k);
    vstd::bits::lemma_u64_low_bits_mask_is_mod(x, k as nat);
}

proof fn lemma_shift_is_power_of_two(k: u64)
    by (bit_vector)
    requires
        k < 64,
    ensures
        (1u64 << k) != 0,
        (1u64 << k) & (((1u64 << k) - 1) as u64) == 0,
{
}

/// `prev_pow2` is idempotent: the largest power of two not above a power of
/// two is itself.
pub proof fn lemma_prev_pow2_idempotent(x: nat)
    ensures
        prev_pow2(prev_pow2(x)) == prev_pow2(x),
    decreases x,
{
    if x > 1 {
        lemma_prev_pow2_idempotent(x / 2);
        lemma_prev_pow2_bounds(x / 2);
        let y = prev_pow2(x / 2);
        assert(prev_pow2(2 * y) == 2 * prev_pow2(y));
    }
}

/// `prev_pow2(x)` is `1 << k` for the top bit `k` of `x`, that is for the
/// `k` that `ilog2(x)` returns.
pub proof fn lemma_prev_pow2_is_top_bit_shift(x: u64, k: u64)
    requires
        x >= 1,
        k < 64,
        x >> k == 1u64,
    ensures
        prev_pow2(x as nat) == (1u64 << k) as nat,
{
    lemma_prev_pow2_top_bit(x, k);
}

/// `wrap(x, i)` is below `i` for every positive `i`.
pub proof fn lemma_wrap_below(x: u64, i: u64)
    requires
        i >= 1,
    ensures
        wrap_spec(x, i) < i,
{
    lemma_prev_pow2_bounds(i as nat);
    lemma_and_le(x, (prev_pow2(i as nat) - 1) as u64);
}

/// Adding the window size `n = prev_pow2(i)` to `x` does not change `wrap(x, i)`.
pub proof fn lemma_wrap_periodic(x: u64, i: u64)
    requires
        i >= 1,
        x + prev_pow2(i as nat) <= u64::MAX,
    ensures
        wrap_spec((x + prev_pow2(i as nat)) as u64, i) == wrap_spec(x, i),
{
    lemma_prev_pow2_bounds(i as nat);
    let n = prev_pow2(i as nat) as u64;
    lemma_prev_pow2_power_of_two(i);
    lemma_and_mask_is_mod(x, n);
    lemma_and_mask_is_mod((x + n) as u64, n);
    vstd::arithmetic::div_mod::lemma_mod_add_multiples_vanish(x as int, n as int);
}

/// When `i` is a power of two, `wrap(x, i)` is `x mod i`.
pub proof fn lemma_wrap_power_of_two(x: u64, i: u64)
    requires
        i >= 1,
        i & ((i - 1) as u64) == 0,
    ensures
        wrap_spec(x, i) == x % i,
{
    let k = lemma_power_of_two_is_shift(i);
    lemma_top_bit_of_shift(k);
    lemma_prev_pow2_top_bit(i, k);
    lemma_and_mask_is_mod(x, i);
}

proof fn lemma_top_bit_of_shift(k: u64)
    by (bit_vector)
    requires
        k < 64,
    ensures
        (1u64 << k) >> k == 1u64,
{
}

/// `prev_pow2(i)` is a power of two for every positive `i`.
pub proof fn lemma_prev_pow2_power_of_two(i: u64)
    requires
        i >= 1,
    ensures
        prev_pow2(i as nat) <= u64::MAX,
        (prev_pow2(i as nat) as u64) & ((prev_pow2(i as nat) - 1) as u64) == 0,
{
    let k = lemma_top_bit(i);
    lemma_prev_pow2_top_bit(i, k);
    lemma_shift_is_power_of_two(k);
}

/// The binary logarithm of `n`, rounded down; `0` for `0`.
pub fn ilog2(n: u64) -> (r: u32)
    ensures
        n == 0 ==> r == 0,
        n != 0 ==> r < 64 && n >> (r as u64) == 1u64,
{
    let mut m: u64 = n;
    let mut k: u32 = 0;
    proof {
        lemma_top_bit_base(n);
    }
    while m > 1
        invariant
            k < 64,
            m == n >> (k as u64),
            n != 0 ==> m >= 1,
            n == 0 ==> m == 0 && k == 0,
        decreases m,
    {
        proof {
            lemma_shr_one_step(n, k as u64);
            lemma_half(m);
        }
        m = m >> 1u32;
        k = k + 1;
    }
    k
}

/// The largest power of two that does not exceed `x`, or `0` when `x` is `0`.
pub fn prev_power_of_two(x: u64) -> (r: u64)
    ensures
        r == prev_pow2(x as nat),
        r <= x,
        x != 0 ==> 1 <= r && x < 2 * r,
        r & ((r - 1) as u64) == 0 || r == 0,
{
    proof {
        if x != 0 {
            lemma_prev_pow2_power_of_two(x);
        }
    }
    proof {
        lemma_prev_pow2_bounds(x as nat);
    }
    let ghost k: u64 = if x == 0 { 0 } else { lemma_top_bit(x) };
    proof {
        if x != 0 {
            lemma_prev_pow2_top_bit(x, k);
        }
    }
    let mut cur: u64 = x;
    let mut y: u64 = cur & cur.wrapping_sub(1);
    proof {
        if x == 0 {
            lemma_and_zero(cur.wrapping_sub(1));
        } else {
            lemma_clear_lowest(cur, k);
        }
    }
    while y != 0
        invariant
            x == 0 ==> cur == 0 && y == 0,
            x != 0 ==> k < 64 && cur >> k == 1u64 && y == (cur & ((cur - 1) as u64)),
            x != 0 ==> prev_pow2(x as nat) == (1u64 << k) as nat,
        decreases cur,
    {
        proof {
            lemma_clear_lowest(cur, k);
            lemma_clear_lowest(y, k);
        }
        cur = y;
        y = cur & cur.wrapping_sub(1);
    }
    proof {
        if x != 0 {
            lemma_clear_lowest(cur, k);
        }
    }
    cur
}

/// Maps `x` into `[i - n, i)` where `n` is the largest power of two not above
/// `i`; for `i == 0` it leaves `x` as it is.
pub fn wrap(x: u64, i: u64) -> (r: u64)
    ensures
        r == wrap_spec(x, i),
        i != 0 ==> r < i,
{
    let n = prev_power_of_two(i);
    proof {
        lemma_and_le(x, n.wrapping_sub(1));
        if i == 0 {
            assert(n.wrapping_sub(1) == u64::MAX);
            lemma_and_max(x);
        }
    }
    (x & n.wrapping_sub(1)).wrapping_add(i.wrapping_sub(n))
}

proof fn lemma_and_max(x: u64)
    by (bit_vector)
    ensures
        x & 0xffff_ffff_ffff_ffffu64 == x,
{
}

/// The `len` words of `v` that start at `start`.
pub open spec fn blk(v: Seq<u32>, start: int, len: int) -> Seq<u32> {
    v.subrange(start, start + len)
}

/// `v` with the words from `start` on replaced by `x`.
pub open spec fn put_blk(v: Seq<u32>, start: int, x: Seq<u32>) -> Seq<u32> {
    v.subrange(0, start) + x + v.subrange(start + x.len(), v.len() as int)
}

/// Word-by-word exclusive or of two blocks of the same length.
pub open spec fn xor_words(a: Seq<u32>, b: Seq<u32>) -> Seq<u32> {
    Seq::new(a.len(), |i: int| a[i] ^ b[i])
}

/// Copies `count` words of `src` from `soff` on into `dst` from `doff` on.
pub fn blkcpy(dst: &mut Vec<u32>, doff: usize, src: &Vec<u32>, soff: usize, count: usize)
    requires
        doff + count <= old(dst).len(),
        soff + count <= src.len(),
    ensures
        final(dst)@ == put_blk(old(dst)@, doff as int, blk(src@, soff as int, count as int)),
{
    let ghost d0 = dst@;
    let mut i: usize = 0;
    while i < count
        invariant
            i <= count,
            doff + count <= d0.len(),
            doff + count <= dst.len(),
            soff + count <= src.len(),
            dst@.len() == d0.len(),
            forall|k: int| 0 <= k < doff || doff + i <= k < d0.len() ==> dst@[k] == d0[k],
            forall|k: int| doff <= k < doff + i ==> dst@[k] == src@[soff + k - doff],
        decreases count - i,
    {
        dst.set(doff + i, src[soff + i]);
        i = i + 1;
    }
    assert(dst@ =~= put_blk(d0, doff as int, blk(src@, soff as int, count as int)));
}

/// Exclusive-ors `count` words of `src` from `soff` on into `dst` from `doff` on.
pub fn blkxor(dst: &mut Vec<u32>, doff: usize, src: &Vec<u32>, soff: usize, count: usize)
    requires
        doff + count <= old(dst).len(),
        soff + count <= src.len(),
    ensures
        final(dst)@ == put_blk(
            old(dst)@,
            doff as int,
            xor_words(blk(old(dst)@, doff as int, count as int), blk(src@, soff as int, count as int)),
        ),
{
    let ghost d0 = dst@;
    let mut i: usize = 0;
    while i < count
        invariant
            i <= count,
            doff + count <= d0.len(),
            doff + count <= dst.len(),
            soff + count <= src.len(),
            dst@.len() == d0.len(),
            forall|k: int| 0 <= k < doff || doff + i <= k < d0.len() ==> dst@[k] == d0[k],
            forall|k: int| doff <= k < doff + i ==> dst@[k] == d0[k] ^ src@[soff + k - doff],
        decreases count - i,
    {
        let w = dst[doff + i] ^ src[soff + i];
        dst.set(doff + i, w);
        i = i + 1;
    }
    assert(dst@ =~= put_blk(
        d0,
        doff as int,
        xor_words(blk(d0, doff as int, count as int), blk(src@, soff as int, count as int)),
    ));
}

/// Exclusive-ors the first `size` bytes of `src` into `dst`.
pub fn memxor(dst: &mut Vec<u8>, src: &Vec<u8>, size: usize)
    requires
        size <= old(dst)@.len(),
        size <= src@.len(),
    ensures
        final(dst)@.len() == old(dst)@.len(),
        forall|k: int| 0 <= k < size ==> #[trigger] final(dst)@[k] == old(dst)@[k] ^ src@[k],
        forall|k: int| size <= k < old(dst)@.len() ==> #[trigger] final(dst)@[k] == old(dst)@[k],
{
    let ghost d0 = dst@;
    let mut i: usize = 0;
    while i < size
        invariant
            size <= d0.len(),
            size <= src@.len(),
            i <= size,
            dst@.len() == d0.len(),
            forall|k: int| 0 <= k < i ==> dst@[k] == d0[k] ^ src@[k],
            forall|k: int| i <= k < d0.len() ==> dst@[k] == d0[k],
        decreases size - i,
    {
        let x = dst[i] ^ src[i];
        dst.set(i, x);
        i = i + 1;
    }
}

/// The little-endian 32-bit word made of bytes `4 * i .. 4 * i + 4` of `b`.
pub open spec fn le32_word(b: Seq<u8>, i: int) -> u32 {
    (b[4 * i] as int + b[4 * i + 1] as int * 0x100 + b[4 * i + 2] as int * 0x1_0000 + b[4 * i + 3] as int
        * 0x100_0000) as u32
}

/// Bytes read as little-endian 32-bit words.
pub open spec fn le32_words(b: Seq<u8>) -> Seq<u32> {
    Seq::new(b.len() / 4, |i: int| le32_word(b, i))
}

/// Byte `k` (least significant first) of a 32-bit word.
pub open spec fn word_byte(x: u32, k: int) -> u8 {
    if k == 0 {
        (x % 0x100) as u8
    } else if k == 1 {
        ((x / 0x100) % 0x100) as u8
    } else if k == 2 {
        ((x / 0x1_0000) % 0x100) as u8
    } else {
        (x / 0x100_0000) as u8
    }
}

/// Words written out as little-endian bytes.
pub open spec fn le32_bytes(w: Seq<u32>) -> Seq<u8> {
    Seq::new(4 * w.len(), |i: int| word_byte(w[i / 4], i % 4))
}

/// Reads `b` as little-endian 32-bit words (its length is a multiple of 4).
pub fn words_from_le_bytes(b: &Vec<u8>) -> (w: Vec<u32>)
    requires
        b@.len() % 4 == 0,
    ensures
        w@ == le32_words(b@),
{
    let len = b.len();
    let n = len / 4;
    let mut w: Vec<u32> = Vec::new();
    let mut i: usize = 0;
    while i < n
        invariant
            len == b@.len(),
            n == len / 4,
            len % 4 == 0,
            i <= n,
            w@.len() == i,
            forall|k: int| 0 <= k < i ==> w@[k] == le32_word(b@, k),
        decreases n - i,
    {
        let x: u32 = b[4 * i] as u32 + (b[4 * i + 1] as u32) * 0x100 + (b[4 * i + 2] as u32) * 0x1_0000 + (b[4 * i
            + 3] as u32) * 0x100_0000;
        w.push(x);
        i = i + 1;
    }
    assert(w@ =~= le32_words(b@));
    w
}

/// Writes `count` words of `w` from `off` on as little-endian bytes.
pub fn le_bytes_from_words(w: &Vec<u32>, off: usize, count: usize) -> (b: Vec<u8>)
    requires
        off + count <= w@.len(),
    ensures
        b@ == le32_bytes(blk(w@, off as int, count as int)),
{
    let len = w.len();
    let mut b: Vec<u8> = Vec::new();
    let mut i: usize = 0;
    while i < count
        invariant
            len == w@.len(),
            off + count <= len,
            i <= count,
            b@.len() == 4 * i,
            forall|k: int| 0 <= k < 4 * i ==> b@[k] == word_byte(w@[off + k / 4], k % 4),
        decreases count - i,
    {
        let x = w[off + i];
        b.push((x % 0x100) as u8);
        b.push(((x / 0x100) % 0x100) as u8);
        b.push(((x / 0x1_0000) % 0x100) as u8);
        b.push((x / 0x100_0000) as u8);
        i = i + 1;
    }
    assert(b@ =~= le32_bytes(blk(w@, off as int, count as int)));
    b
}

} // verus!
