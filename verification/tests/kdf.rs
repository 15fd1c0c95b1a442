use yescrypt::kdf::{yescrypt_kdf_body, yescrypt_kdf_inner, KdfError, Local};
use yescrypt::params::{check_params, YESCRYPT_ALLOC_ONLY, YESCRYPT_INIT_SHARED, YESCRYPT_RW};
use yescrypt::yescrypt_kdf;

fn hex(s: &str) -> Vec<u8> {
    let s: Vec<u8> = s.bytes().filter(|c| !c.is_ascii_whitespace()).collect();
    s.chunks(2)
        .map(|c| u8::from_str_radix(std::str::from_utf8(c).unwrap(), 16).unwrap())
        .collect()
}

const DEFAULTS: u32 = 0xb6;

#[test]
fn scrypt_mode_matches_rfc7914_vector_1() {
    let out = yescrypt_kdf(b"", b"", 0, 16, 1, 1, 0, 0, 64);
    assert_eq!(
        out,
        hex("77d6576238657b203b19ca42c18a0497f16b4844e3074ae8dfdffa3fede21442
             fcd0069ded0948f8326a753a0fc81f17e8d3e0fb2e0d3628cf35e20c38d18906")
    );
}

#[test]
fn scrypt_mode_matches_rfc7914_vector_2() {
    let out = yescrypt_kdf(b"password", b"NaCl", 0, 1024, 8, 16, 0, 0, 64);
    assert_eq!(
        out,
        hex("fdbabe1c9d3472007856e7190d01e9fe7c6ad7cbc8237830e77376634b373162
             2eaf30d92e22a3886ff109279d9830dac727afb94a83ee6d8360cbdfa2cc0640")
    );
}

#[test]
fn scrypt_mode_matches_rfc7914_vector_3() {
    let out = yescrypt_kdf(b"pleaseletmein", b"SodiumChloride", 0, 16384, 8, 1, 0, 0, 64);
    assert_eq!(
        out,
        hex("7023bdcb3afd7348461c06cd81fd38ebfda8fbba904f8e3ea9b543f6545da1f2
             d5432955613f0fcf62d49705242a9af9e61e85dc0d651e40dfcf017b45575887")
    );
}

#[test]
fn init_local_is_empty() {
    let local = yescrypt::kdf::yescrypt_init_local();
    assert!(local.v.is_empty());
}

#[test]
fn scrypt_mode_shorter_output_is_a_prefix() {
    let long = yescrypt_kdf(b"", b"", 0, 16, 1, 1, 0, 0, 64);
    let short = yescrypt_kdf(b"", b"", 0, 16, 1, 1, 0, 0, 8);
    assert_eq!(short, long[..8].to_vec());
}

#[test]
fn output_has_requested_length() {
    for len in [0usize, 1, 31, 32, 33, 64, 100] {
        assert_eq!(yescrypt_kdf(b"pw", b"salt", 0, 16, 1, 1, 0, 0, len).len(), len);
        assert_eq!(yescrypt_kdf(b"pw", b"salt", 1, 16, 1, 1, 0, 0, len).len(), len);
        assert_eq!(yescrypt_kdf(b"pw", b"salt", DEFAULTS, 16, 1, 1, 0, 0, len).len(), len);
    }
}

#[test]
fn nonzero_g_is_refused_with_zeros() {
    assert_eq!(yescrypt_kdf(b"pw", b"salt", 0, 16, 1, 1, 0, 1, 32), vec![0u8; 32]);
}

#[test]
fn bad_parameters_are_refused_with_zeros() {
    // N not a power of two, N too small, r or p zero, unknown mode, t in scrypt mode.
    assert_eq!(yescrypt_kdf(b"pw", b"salt", 0, 24, 1, 1, 0, 0, 16), vec![0u8; 16]);
    assert_eq!(yescrypt_kdf(b"pw", b"salt", 0, 1, 1, 1, 0, 0, 16), vec![0u8; 16]);
    assert_eq!(yescrypt_kdf(b"pw", b"salt", 0, 16, 0, 1, 0, 0, 16), vec![0u8; 16]);
    assert_eq!(yescrypt_kdf(b"pw", b"salt", 0, 16, 1, 0, 0, 0, 16), vec![0u8; 16]);
    assert_eq!(yescrypt_kdf(b"pw", b"salt", 3, 16, 1, 1, 0, 0, 16), vec![0u8; 16]);
    assert_eq!(yescrypt_kdf(b"pw", b"salt", 0, 16, 1, 1, 1, 0, 16), vec![0u8; 16]);
    // Read-write mode with another flavor, or with one block per lane.
    assert_eq!(yescrypt_kdf(b"pw", b"salt", YESCRYPT_RW, 16, 1, 1, 0, 0, 16), vec![0u8; 16]);
    assert_eq!(yescrypt_kdf(b"pw", b"salt", DEFAULTS, 16, 1, 16, 0, 0, 16), vec![0u8; 16]);
}

#[test]
fn check_params_cases() {
    assert!(check_params(0, 16, 1, 1, 0, 64));
    assert!(check_params(1, 16, 1, 1, 5, 64));
    assert!(check_params(DEFAULTS, 16, 8, 2, 3, 64));
    assert!(!check_params(0, 16, 1, 1, 0, 0x20_0000_0000));
    assert!(!check_params(0, 16, 0x8000, 0x8000, 0, 64));
    assert!(!check_params(DEFAULTS | 0x4000_0000, 16, 1, 1, 0, 64));
    assert!(check_params(DEFAULTS, 16, 1, 8, 0, 64));
    assert!(!check_params(DEFAULTS, 16, 1, 9, 0, 64));
    assert!(!check_params(1, 1 << 62, 1, 1, 0, 64));
}

#[test]
fn modes_give_different_keys() {
    let scrypt = yescrypt_kdf(b"pw", b"salt", 0, 16, 8, 1, 0, 0, 32);
    let worm = yescrypt_kdf(b"pw", b"salt", 1, 16, 8, 1, 0, 0, 32);
    let rw = yescrypt_kdf(b"pw", b"salt", DEFAULTS, 16, 8, 1, 0, 0, 32);
    assert_ne!(scrypt, worm);
    assert_ne!(scrypt, rw);
    assert_ne!(worm, rw);
    assert_ne!(rw, vec![0u8; 32]);
}

#[test]
fn read_write_mode_is_deterministic_and_keyed() {
    let a = yescrypt_kdf(b"pw", b"salt", DEFAULTS, 64, 2, 2, 1, 0, 40);
    let b = yescrypt_kdf(b"pw", b"salt", DEFAULTS, 64, 2, 2, 1, 0, 40);
    let c = yescrypt_kdf(b"pW", b"salt", DEFAULTS, 64, 2, 2, 1, 0, 40);
    let d = yescrypt_kdf(b"pw", b"salT", DEFAULTS, 64, 2, 2, 1, 0, 40);
    let e = yescrypt_kdf(b"pw", b"salt", DEFAULTS, 64, 2, 2, 2, 0, 40);
    assert_eq!(a, b);
    assert_ne!(a, c);
    assert_ne!(a, d);
    assert_ne!(a, e);
}

#[test]
fn worm_mode_extra_time_changes_key() {
    let t0 = yescrypt_kdf(b"pw", b"salt", 1, 32, 2, 1, 0, 0, 32);
    let t1 = yescrypt_kdf(b"pw", b"salt", 1, 32, 2, 1, 1, 0, 32);
    let t2 = yescrypt_kdf(b"pw", b"salt", 1, 32, 2, 1, 2, 0, 32);
    assert_ne!(t0, t1);
    assert_ne!(t1, t2);
}

#[test]
fn short_output_in_yescrypt_mode() {
    // Below 32 bytes the client-key step hashes a separate 32-byte key, which
    // is the start of the longer one: a shorter key is a prefix of a longer one.
    let short = yescrypt_kdf(b"pw", b"salt", DEFAULTS, 16, 1, 1, 0, 0, 16);
    let long = yescrypt_kdf(b"pw", b"salt", DEFAULTS, 16, 1, 1, 0, 0, 40);
    assert_eq!(short.len(), 16);
    assert_ne!(short, vec![0u8; 16]);
    assert_eq!(short, long[..16].to_vec());
    let worm_short = yescrypt_kdf(b"pw", b"salt", 1, 16, 1, 1, 0, 0, 5);
    let worm_long = yescrypt_kdf(b"pw", b"salt", 1, 16, 1, 1, 0, 0, 64);
    assert_eq!(worm_short, worm_long[..5].to_vec());
}

#[test]
fn pre_hash_stage_runs_for_large_read_write_parameters() {
    // N / p = 2^14 >= 2^8 and (N / p) * r = 2^17: the pre-hash stage applies.
    let key = yescrypt_kdf(b"pw", b"salt", DEFAULTS, 1 << 14, 8, 1, 0, 0, 32);
    assert_eq!(key.len(), 32);
    assert_ne!(key, vec![0u8; 32]);
}

#[test]
fn shared_region_with_pre_hash_is_refused() {
    // The pre-hash stage keeps a smaller V in the local region, which the main
    // stage then cannot use.
    let key = yescrypt_kdf(b"pw", b"salt", DEFAULTS | YESCRYPT_INIT_SHARED, 1 << 14, 8, 1, 0, 0, 32);
    assert_eq!(key, vec![0u8; 32]);
}

#[test]
fn shared_region_without_pre_hash_derives() {
    // With one lane every step of the first pass may write either way.
    let key = yescrypt_kdf(b"pw", b"salt", DEFAULTS | YESCRYPT_INIT_SHARED, 16, 1, 1, 0, 0, 32);
    assert_ne!(key, vec![0u8; 32]);
    let plain = yescrypt_kdf(b"pw", b"salt", DEFAULTS, 16, 1, 1, 0, 0, 32);
    assert_eq!(key, plain);
    // With two lanes the kept V is written on every step, not a half of them.
    let key2 = yescrypt_kdf(b"pw", b"salt", DEFAULTS | YESCRYPT_INIT_SHARED, 16, 1, 2, 0, 0, 32);
    let plain2 = yescrypt_kdf(b"pw", b"salt", DEFAULTS, 16, 1, 2, 0, 0, 32);
    assert_ne!(key2, vec![0u8; 32]);
    assert_ne!(key2, plain2);
}

#[test]
fn alloc_only_allocates_and_stops() {
    let mut local = Local { v: Vec::new() };
    let res = yescrypt_kdf_body(
        &mut local,
        b"pw",
        b"salt",
        DEFAULTS | YESCRYPT_INIT_SHARED | YESCRYPT_ALLOC_ONLY,
        16,
        1,
        1,
        0,
        32,
    );
    assert!(matches!(res, Err(KdfError::AllocOnly)));
    assert_eq!(local.v.len(), 32 * 16);
    assert_eq!(
        yescrypt_kdf(b"pw", b"salt", DEFAULTS | YESCRYPT_INIT_SHARED | YESCRYPT_ALLOC_ONLY, 16, 1, 1, 0, 0, 8),
        vec![0u8; 8]
    );
}

#[test]
fn body_rejects_with_error() {
    let mut local = Local { v: Vec::new() };
    let res = yescrypt_kdf_body(&mut local, b"pw", b"salt", 0, 15, 1, 1, 0, 32);
    assert!(matches!(res, Err(KdfError::Rejected)));
    assert!(local.v.is_empty());
    let mut local = Local { v: Vec::new() };
    let res = yescrypt_kdf_inner(&mut local, b"pw", b"salt", 0, 16, 1, 1, 0, 2, 32);
    assert!(matches!(res, Err(KdfError::Rejected)));
}

#[test]
fn inner_and_public_agree() {
    let mut local = Local { v: Vec::new() };
    let res = yescrypt_kdf_inner(&mut local, b"pw", b"salt", DEFAULTS, 32, 2, 2, 0, 0, 48);
    match res {
        Ok(key) => assert_eq!(key, yescrypt_kdf(b"pw", b"salt", DEFAULTS, 32, 2, 2, 0, 0, 48)),
        Err(_) => panic!("accepted parameters were refused"),
    }
}

#[test]
fn refused_body_leaves_local_region_as_it_was() {
    let mut local = Local { v: vec![7u32; 100] };
    let res = yescrypt_kdf_body(&mut local, b"pw", b"salt", 3, 16, 1, 1, 0, 32);
    assert!(matches!(res, Err(KdfError::Rejected)));
    assert_eq!(local.v, vec![7u32; 100]);
    // A non-empty region smaller than V is refused and kept.
    let res = yescrypt_kdf_body(&mut local, b"pw", b"salt", DEFAULTS | YESCRYPT_INIT_SHARED, 16, 1, 1, 0, 32);
    assert!(matches!(res, Err(KdfError::Rejected)));
    assert_eq!(local.v, vec![7u32; 100]);
}

#[test]
fn body_without_keep_flag_leaves_local_region_alone() {
    let mut local = Local { v: vec![9u32; 10] };
    let res = yescrypt_kdf_body(&mut local, b"pw", b"salt", 0, 16, 1, 1, 0, 32);
    assert!(res.is_ok());
    assert_eq!(local.v, vec![9u32; 10]);
}

#[test]
fn kept_region_is_reused_when_large_enough() {
    let flags = DEFAULTS | YESCRYPT_INIT_SHARED;
    let mut fresh = Local { v: Vec::new() };
    let a = yescrypt_kdf_body(&mut fresh, b"pw", b"salt", flags, 16, 1, 2, 0, 32);
    assert_eq!(fresh.v.len(), 32 * 16);
    let mut big = Local { v: vec![0xdead_beefu32; 32 * 16 + 5] };
    let b = yescrypt_kdf_body(&mut big, b"pw", b"salt", flags, 16, 1, 2, 0, 32);
    assert_eq!(big.v.len(), 32 * 16 + 5);
    assert_eq!(big.v[32 * 16..].to_vec(), vec![0xdead_beefu32; 5]);
    match (a, b) {
        (Ok(a), Ok(b)) => assert_eq!(a, b),
        _ => panic!("accepted parameters were refused"),
    }
    assert_eq!(big.v[..32 * 16].to_vec(), fresh.v);
}

#[test]
fn refused_inner_leaves_local_region_alone() {
    let mut local = Local { v: vec![1u32, 2, 3] };
    let res = yescrypt_kdf_inner(&mut local, b"pw", b"salt", 0, 16, 1, 1, 0, 1, 32);
    assert!(matches!(res, Err(KdfError::Rejected)));
    assert_eq!(local.v, vec![1u32, 2, 3]);
}
