use yescrypt::pwxform::{pwxform, PwxformCtx};
use yescrypt::salsa20::{blockmix_salsa8, salsa20};
use yescrypt::smix::{smix1, smix2};
use yescrypt::{ilog2, prev_power_of_two, wrap};

fn words_le(hex: &str) -> Vec<u32> {
    let bytes: Vec<u8> = hex
        .as_bytes()
        .chunks(2)
        .map(|c| u8::from_str_radix(std::str::from_utf8(c).unwrap(), 16).unwrap())
        .collect();
    bytes.chunks(4).map(|c| u32::from_le_bytes([c[0], c[1], c[2], c[3]])).collect()
}

fn shuffled(s: &[u32]) -> Vec<u32> {
    (0..16).map(|i| s[(5 * i) % 16]).collect()
}

fn unshuffled(b: &[u32]) -> Vec<u32> {
    let mut s = vec![0u32; 16];
    for i in 0..16 {
        s[(5 * i) % 16] = b[i];
    }
    s
}

#[test]
fn salsa20_8_core_matches_rfc7914() {
    let input = words_le(
        "7e879a214f3ec9867ca940e641718f26baee555b8c61c1b50df846116dcd3b1d\
         ee24f319df9b3d8514121e4b5ac5aa3276021d2909c74829edebc68db8b8c25e",
    );
    let expected = words_le(
        "a41f859c6608cc993b81cacb020cef05044b2181a2fd337dfd7b1c6396682f29\
         b4393168e3c9e6bcfe6bc5b7a06d96bae424cc102c91745c24ad673dc7618f81",
    );
    let mut b = shuffled(&input);
    salsa20(&mut b, 4);
    assert_eq!(unshuffled(&b), expected);
}

#[test]
fn salsa20_zero_rounds_doubles_the_block() {
    let mut b: Vec<u32> = (0..16).map(|i| 0x8000_0000u32 + i).collect();
    salsa20(&mut b, 0);
    let expected: Vec<u32> = (0..16).map(|i| (0x8000_0000u32 + i).wrapping_mul(2)).collect();
    assert_eq!(b, expected);
}

#[test]
fn blockmix_salsa8_first_output_block_is_salsa_of_xor() {
    let mut b: Vec<u32> = (0..32).map(|i| i * 0x0101_0101).collect();
    let orig = b.clone();
    blockmix_salsa8(&mut b, 1);
    let mut x: Vec<u32> = (0..16).map(|i| orig[16 + i] ^ orig[i]).collect();
    salsa20(&mut x, 4);
    assert_eq!(b[..16].to_vec(), x);
    let mut y: Vec<u32> = (0..16).map(|i| x[i] ^ orig[16 + i]).collect();
    salsa20(&mut y, 4);
    assert_eq!(b[16..].to_vec(), y);
}

#[test]
fn pwxform_rotates_sboxes_and_advances_write_position() {
    let s0: Vec<u32> = (0..1024).map(|i| i * 3 + 1).collect();
    let s1: Vec<u32> = (0..1024).map(|i| i * 7 + 5).collect();
    let s2: Vec<u32> = vec![0; 1024];
    let mut ctx = PwxformCtx { s0: s0.clone(), s1: s1.clone(), s2, w: 0 };
    let mut x: Vec<u32> = (0..16).map(|i| 0x1234_5678 ^ (i * 0x1111)).collect();
    let x0 = x.clone();
    pwxform(&mut x, &mut ctx);
    assert_eq!(ctx.s1, s0);
    assert_eq!(ctx.s2, s1);
    assert_eq!(ctx.w, 32);
    // Lanes 0 .. 32 of the old write box were written, the rest not.
    assert!(ctx.s0[..64].iter().any(|&w| w != 0));
    assert!(ctx.s0[64..].iter().all(|&w| w == 0));
    assert_ne!(x, x0);
}

#[test]
fn pwxform_one_gather_by_hand_when_sboxes_are_zero() {
    // With all-zero S-boxes each lane becomes hi * lo, six times over.
    let mut ctx = PwxformCtx { s0: vec![0; 1024], s1: vec![0; 1024], s2: vec![0; 1024], w: 480 };
    let mut x: Vec<u32> = vec![0; 16];
    x[0] = 3;
    x[1] = 5;
    pwxform(&mut x, &mut ctx);
    let mut lane: u64 = (5u64 << 32) | 3;
    for _ in 0..6 {
        lane = ((lane >> 32) * (lane & 0xffff_ffff)) as u64;
    }
    assert_eq!(x[0], lane as u32);
    assert_eq!(x[1], (lane >> 32) as u32);
    assert_eq!(ctx.w, 0);
}

#[test]
fn smix1_fills_v_and_smix2_without_steps_keeps_the_block() {
    let mut b: Vec<u32> = (0..32).map(|i| i * 17 + 3).collect();
    let orig = b.clone();
    let mut v: Vec<u32> = vec![0; 32 * 4];
    let mut ctx = PwxformCtx { s0: Vec::new(), s1: Vec::new(), s2: Vec::new(), w: 0 };
    smix2(&mut b, 0, 1, 4, 0, false, false, &mut v, 0, &mut ctx);
    assert_eq!(b, orig);
    smix1(&mut b, 0, 1, 4, false, false, &mut v, 0, &mut ctx);
    // Entry 0 of V is the block in the shuffled order.
    let first: Vec<u32> = (0..32).map(|w| orig[16 * (w / 16) + (5 * (w % 16)) % 16]).collect();
    assert_eq!(v[..32].to_vec(), first);
    assert_ne!(b, orig);
}

#[test]
fn prev_power_of_two_values() {
    assert_eq!(prev_power_of_two(0), 0);
    assert_eq!(prev_power_of_two(1), 1);
    assert_eq!(prev_power_of_two(2), 2);
    assert_eq!(prev_power_of_two(5), 4);
    assert_eq!(prev_power_of_two(64), 64);
    assert_eq!(prev_power_of_two(1000), 512);
    assert_eq!(prev_power_of_two(u64::MAX), 1 << 63);
}

#[test]
fn ilog2_values() {
    assert_eq!(ilog2(0), 0);
    assert_eq!(ilog2(1), 0);
    assert_eq!(ilog2(2), 1);
    assert_eq!(ilog2(1000), 9);
    assert_eq!(ilog2(1024), 10);
    assert_eq!(ilog2(u64::MAX), 63);
}

#[test]
fn wrap_values() {
    assert_eq!(wrap(13, 6), 3);
    assert_eq!(wrap(0, 6), 2);
    assert_eq!(wrap(u64::MAX, 8), 7);
    assert_eq!(wrap(12345, 1), 0);
    assert_eq!(wrap(77, 0), 77);
    for i in 1..100u64 {
        for x in [0u64, 1, 7, 1000, u64::MAX] {
            assert!(wrap(x, i) < i);
        }
    }
}

#[test]
fn smix2_reads_v_only_unless_read_write() {
    let mut b: Vec<u32> = (0..32).map(|i| i * 29 + 1).collect();
    let mut v: Vec<u32> = (0..32 * 4).map(|i| i * 7).collect();
    let v0 = v.clone();
    let mut ctx = PwxformCtx { s0: Vec::new(), s1: Vec::new(), s2: Vec::new(), w: 0 };
    smix2(&mut b, 0, 1, 4, 6, false, false, &mut v, 0, &mut ctx);
    assert_eq!(v, v0);
    smix2(&mut b, 0, 1, 4, 6, true, false, &mut v, 0, &mut ctx);
    assert_ne!(v, v0);
}

#[test]
fn memxor_xors_a_prefix() {
    let mut dst = vec![0xffu8, 0x0f, 0xaa, 0x55];
    let src = vec![0x0fu8, 0x0f, 0xff, 0x00];
    yescrypt::common::memxor(&mut dst, &src, 3);
    assert_eq!(dst, vec![0xf0, 0x00, 0x55, 0x55]);
}

#[test]
fn prev_power_of_two_is_top_bit_and_idempotent() {
    for x in [1u64, 2, 3, 5, 100, 1 << 40, (1 << 40) + 3, u64::MAX] {
        let p = prev_power_of_two(x);
        assert_eq!(p, 1u64 << ilog2(x));
        assert_eq!(prev_power_of_two(p), p);
        assert_eq!(p & (p - 1), 0);
    }
}

#[test]
fn wrap_laws_on_values() {
    // Adding the window size does not change the result.
    assert_eq!(wrap(13 + 4, 6), wrap(13, 6));
    assert_eq!(wrap(1000 + 64, 100), wrap(1000, 100));
    // For a power of two it is the remainder.
    assert_eq!(wrap(1000, 64), 1000 % 64);
    assert_eq!(wrap(77, 1), 0);
}
