# yescrypt

The yescrypt password-based key derivation function, written in Verus with
its behaviour stated as contracts and proved.

`yescrypt_kdf(passwd, salt, flags, N, r, p, t, g, dstlen)` derives `dstlen`
bytes. Its contract says exactly which bytes (`kdf::yescrypt_kdf_spec`), that
refused parameters give `dstlen` zero bytes, that a shorter key is the start of
a longer one, and that with `flags == 0` (and `t == 0`, `g == 0`) the result is
classic scrypt as RFC 7914 defines it (`scrypt::scrypt_spec`).

Layout of `src/`:

- `common.rs`: block copy and exclusive-or, little-endian words, `ilog2`,
  `prev_power_of_two`, `wrap`.
- `salsa20.rs`: the Salsa20 core on the shuffled word order, BlockMix-Salsa20/8.
- `pwxform.rs`: pwxform, its S-box state, BlockMix-pwxform.
- `smix.rs`: `smix1`, `smix2` and `smix` over the lanes.
- `params.rs`: the flags and the parameter rules.
- `kdf.rs`: the body, the optional pre-hash stage and `yescrypt_kdf`.
- `sha256.rs`: SHA-256, HMAC-SHA256 and PBKDF2-HMAC-SHA256 from the
  RustCrypto crates `sha2`, `hmac` and `pbkdf2`; the only trusted items.
- `scrypt.rs`: scrypt in its own word order and the proof that scrypt mode
  computes it.
