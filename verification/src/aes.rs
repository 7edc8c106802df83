//! The AES block cipher with a 128-bit key.
//!
//! A block of 16 bytes is read as a square of four columns: byte `i` stands
//! in row `i % 4` of column `i / 4`. The key schedule holds the eleven round
//! keys one after the other, 176 bytes in all.

use vstd::prelude::*;
use crate::basics::{lemma_xor_twice, xor_spec};
use crate::error::Error;
use crate::mode::BlockCipher;

verus! {

/// The substitution box.
pub const SBOX: [u8; 256] = [
    0x63, 0x7c, 0x77, 0x7b, 0xf2, 0x6b, 0x6f, 0xc5, 0x30, 0x01, 0x67, 0x2b, 0xfe, 0xd7, 0xab, 0x76,
    0xca, 0x82, 0xc9, 0x7d, 0xfa, 0x59, 0x47, 0xf0, 0xad, 0xd4, 0xa2, 0xaf, 0x9c, 0xa4, 0x72, 0xc0,
    0xb7, 0xfd, 0x93, 0x26, 0x36, 0x3f, 0xf7, 0xcc, 0x34, 0xa5, 0xe5, 0xf1, 0x71, 0xd8, 0x31, 0x15,
    0x04, 0xc7, 0x23, 0xc3, 0x18, 0x96, 0x05, 0x9a, 0x07, 0x12, 0x80, 0xe2, 0xeb, 0x27, 0xb2, 0x75,
    0x09, 0x83, 0x2c, 0x1a, 0x1b, 0x6e, 0x5a, 0xa0, 0x52, 0x3b, 0xd6, 0xb3, 0x29, 0xe3, 0x2f, 0x84,
    0x53, 0xd1, 0x00, 0xed, 0x20, 0xfc, 0xb1, 0x5b, 0x6a, 0xcb, 0xbe, 0x39, 0x4a, 0x4c, 0x58, 0xcf,
    0xd0, 0xef, 0xaa, 0xfb, 0x43, 0x4d, 0x33, 0x85, 0x45, 0xf9, 0x02, 0x7f, 0x50, 0x3c, 0x9f, 0xa8,
    0x51, 0xa3, 0x40, 0x8f, 0x92, 0x9d, 0x38, 0xf5, 0xbc, 0xb6, 0xda, 0x21, 0x10, 0xff, 0xf3, 0xd2,
    0xcd, 0x0c, 0x13, 0xec, 0x5f, 0x97, 0x44, 0x17, 0xc4, 0xa7, 0x7e, 0x3d, 0x64, 0x5d, 0x19, 0x73,
    0x60, 0x81, 0x4f, 0xdc, 0x22, 0x2a, 0x90, 0x88, 0x46, 0xee, 0xb8, 0x14, 0xde, 0x5e, 0x0b, 0xdb,
    0xe0, 0x32, 0x3a, 0x0a, 0x49, 0x06, 0x24, 0x5c, 0xc2, 0xd3, 0xac, 0x62, 0x91, 0x95, 0xe4, 0x79,
    0xe7, 0xc8, 0x37, 0x6d, 0x8d, 0xd5, 0x4e, 0xa9, 0x6c, 0x56, 0xf4, 0xea, 0x65, 0x7a, 0xae, 0x08,
    0xba, 0x78, 0x25, 0x2e, 0x1c, 0xa6, 0xb4, 0xc6, 0xe8, 0xdd, 0x74, 0x1f, 0x4b, 0xbd, 0x8b, 0x8a,
    0x70, 0x3e, 0xb5, 0x66, 0x48, 0x03, 0xf6, 0x0e, 0x61, 0x35, 0x57, 0xb9, 0x86, 0xc1, 0x1d, 0x9e,
    0xe1, 0xf8, 0x98, 0x11, 0x69, 0xd9, 0x8e, 0x94, 0x9b, 0x1e, 0x87, 0xe9, 0xce, 0x55, 0x28, 0xdf,
    0x8c, 0xa1, 0x89, 0x0d, 0xbf, 0xe6, 0x42, 0x68, 0x41, 0x99, 0x2d, 0x0f, 0xb0, 0x54, 0xbb, 0x16,
];

/// The inverse of the substitution box.
pub const INV_SBOX: [u8; 256] = [
    0x52, 0x09, 0x6a, 0xd5, 0x30, 0x36, 0xa5, 0x38, 0xbf, 0x40, 0xa3, 0x9e, 0x81, 0xf3, 0xd7, 0xfb,
    0x7c, 0xe3, 0x39, 0x82, 0x9b, 0x2f, 0xff, 0x87, 0x34, 0x8e, 0x43, 0x44, 0xc4, 0xde, 0xe9, 0xcb,
    0x54, 0x7b, 0x94, 0x32, 0xa6, 0xc2, 0x23, 0x3d, 0xee, 0x4c, 0x95, 0x0b, 0x42, 0xfa, 0xc3, 0x4e,
    0x08, 0x2e, 0xa1, 0x66, 0x28, 0xd9, 0x24, 0xb2, 0x76, 0x5b, 0xa2, 0x49, 0x6d, 0x8b, 0xd1, 0x25,
    0x72, 0xf8, 0xf6, 0x64, 0x86, 0x68, 0x98, 0x16, 0xd4, 0xa4, 0x5c, 0xcc, 0x5d, 0x65, 0xb6, 0x92,
    0x6c, 0x70, 0x48, 0x50, 0xfd, 0xed, 0xb9, 0xda, 0x5e, 0x15, 0x46, 0x57, 0xa7, 0x8d, 0x9d, 0x84,
    0x90, 0xd8, 0xab, 0x00, 0x8c, 0xbc, 0xd3, 0x0a, 0xf7, 0xe4, 0x58, 0x05, 0xb8, 0xb3, 0x45, 0x06,
    0xd0, 0x2c, 0x1e, 0x8f, 0xca, 0x3f, 0x0f, 0x02, 0xc1, 0xaf, 0xbd, 0x03, 0x01, 0x13, 0x8a, 0x6b,
    0x3a, 0x91, 0x11, 0x41, 0x4f, 0x67, 0xdc, 0xea, 0x97, 0xf2, 0xcf, 0xce, 0xf0, 0xb4, 0xe6, 0x73,
    0x96, 0xac, 0x74, 0x22, 0xe7, 0xad, 0x35, 0x85, 0xe2, 0xf9, 0x37, 0xe8, 0x1c, 0x75, 0xdf, 0x6e,
    0x47, 0xf1, 0x1a, 0x71, 0x1d, 0x29, 0xc5, 0x89, 0x6f, 0xb7, 0x62, 0x0e, 0xaa, 0x18, 0xbe, 0x1b,
    0xfc, 0x56, 0x3e, 0x4b, 0xc6, 0xd2, 0x79, 0x20, 0x9a, 0xdb, 0xc0, 0xfe, 0x78, 0xcd, 0x5a, 0xf4,
    0x1f, 0xdd, 0xa8, 0x33, 0x88, 0x07, 0xc7, 0x31, 0xb1, 0x12, 0x10, 0x59, 0x27, 0x80, 0xec, 0x5f,
    0x60, 0x51, 0x7f, 0xa9, 0x19, 0xb5, 0x4a, 0x0d, 0x2d, 0xe5, 0x7a, 0x9f, 0x93, 0xc9, 0x9c, 0xef,
    0xa0, 0xe0, 0x3b, 0x4d, 0xae, 0x2a, 0xf5, 0xb0, 0xc8, 0xeb, 0xbb, 0x3c, 0x83, 0x53, 0x99, 0x61,
    0x17, 0x2b, 0x04, 0x7e, 0xba, 0x77, 0xd6, 0x26, 0xe1, 0x69, 0x14, 0x63, 0x55, 0x21, 0x0c, 0x7d,
];

/// The round constants; the one for round `i` stands at `i`.
pub const RCON: [u8; 11] = [0x00, 0x01, 0x02, 0x04, 0x08, 0x10, 0x20, 0x40, 0x80, 0x1b, 0x36];

/// The substitute for a byte.
pub open spec fn sbox(x: u8) -> u8 {
    SBOX[x as int]
}

/// The byte that a substitute stands for.
pub open spec fn inv_sbox(x: u8) -> u8 {
    INV_SBOX[x as int]
}

/// A byte times two in the field of AES.
pub open spec fn xtime(b: u8) -> u8 {
    (b << 1) ^ (if b & 0x80 != 0 {
        0x1bu8
    } else {
        0u8
    })
}

/// One byte of a mixed column: twice the first byte, three times the
/// second, and the other two as they are, all added in the field.
pub open spec fn mix_byte(a: u8, b: u8, c: u8, d: u8) -> u8 {
    xtime(a) ^ (xtime(b) ^ b) ^ c ^ d
}

/// One byte of an unmixed column: the four bytes times 14, 11, 13 and 9.
pub open spec fn inv_mix_byte(a: u8, b: u8, c: u8, d: u8) -> u8 {
    (xtime(xtime(xtime(a))) ^ xtime(xtime(a)) ^ xtime(a)) ^ (xtime(xtime(xtime(b))) ^ xtime(b) ^ b)
        ^ (xtime(xtime(xtime(c))) ^ xtime(xtime(c)) ^ c) ^ (xtime(xtime(xtime(d))) ^ d)
}

/// Every byte replaced by its substitute.
pub open spec fn sub_bytes(s: Seq<u8>) -> Seq<u8> {
    Seq::new(16, |i: int| sbox(s[i]))
}

/// Every substitute replaced by the byte it stands for.
pub open spec fn inv_sub_bytes(s: Seq<u8>) -> Seq<u8> {
    Seq::new(16, |i: int| inv_sbox(s[i]))
}

/// Row `r` rotated by `r` columns to the left.
pub open spec fn shift_rows(s: Seq<u8>) -> Seq<u8> {
    Seq::new(16, |i: int| s[(i + 4 * (i % 4)) % 16])
}

/// Row `r` rotated by `r` columns to the right.
pub open spec fn inv_shift_rows(s: Seq<u8>) -> Seq<u8> {
    Seq::new(16, |i: int| s[(i + 12 * (i % 4)) % 16])
}

/// Every column mixed.
pub open spec fn mix_columns(s: Seq<u8>) -> Seq<u8> {
    Seq::new(
        16,
        |i: int|
            mix_byte(
                s[i / 4 * 4 + i % 4],
                s[i / 4 * 4 + (i + 1) % 4],
                s[i / 4 * 4 + (i + 2) % 4],
                s[i / 4 * 4 + (i + 3) % 4],
            ),
    )
}

/// Every column unmixed.
pub open spec fn inv_mix_columns(s: Seq<u8>) -> Seq<u8> {
    Seq::new(
        16,
        |i: int|
            inv_mix_byte(
                s[i / 4 * 4 + i % 4],
                s[i / 4 * 4 + (i + 1) % 4],
                s[i / 4 * 4 + (i + 2) % 4],
                s[i / 4 * 4 + (i + 3) % 4],
            ),
    )
}

/// The key of round `r` in the schedule `w`.
pub open spec fn round_key(w: Seq<u8>, r: int) -> Seq<u8> {
    w.subrange(16 * r, 16 * r + 16)
}

/// Byte `j` of the schedule of a 16-byte key. The key itself comes first.
/// Every later word is the word four places before it, XORed with the
/// word just before it; for the first word of a round key, that word is
/// first rotated by one byte, substituted, and given the round constant.
pub open spec fn expanded_byte(key: Seq<u8>, j: int) -> u8
    decreases j,
{
    if j < 16 {
        key[j]
    } else if (j / 4) % 4 == 0 {
        expanded_byte(key, j - 16) ^ sbox(expanded_byte(key, 4 * (j / 4 - 1) + (j % 4 + 1) % 4)) ^ (
        if j % 4 == 0 {
            RCON[j / 16]
        } else {
            0u8
        })
    } else {
        expanded_byte(key, j - 16) ^ expanded_byte(key, j - 4)
    }
}

/// The schedule of a 16-byte key.
pub open spec fn expand_key(key: Seq<u8>) -> Seq<u8> {
    Seq::new(176, |j: int| expanded_byte(key, j))
}

/// The state after round `r` of the encryption of `block` under the
/// schedule `w`. Round 0 adds the first round key; every later round
/// substitutes, shifts, mixes and adds its key; the last round, the tenth,
/// does not mix.
pub open spec fn encrypt_rounds(w: Seq<u8>, block: Seq<u8>, r: nat) -> Seq<u8>
    decreases r,
{
    if r == 0 {
        xor_spec(block, round_key(w, 0))
    } else {
        let s = shift_rows(sub_bytes(encrypt_rounds(w, block, (r - 1) as nat)));
        xor_spec(
            if r < 10 {
                mix_columns(s)
            } else {
                s
            },
            round_key(w, r as int),
        )
    }
}

/// The encryption of a block under the schedule `w`.
pub open spec fn aes_encrypt(w: Seq<u8>, block: Seq<u8>) -> Seq<u8> {
    encrypt_rounds(w, block, 10)
}

/// The state after the rounds from the tenth down to round `r` have been
/// undone on the ciphertext `block`.
pub open spec fn decrypt_rounds(w: Seq<u8>, block: Seq<u8>, r: nat) -> Seq<u8>
    decreases 10 - r,
{
    if r >= 10 {
        inv_sub_bytes(inv_shift_rows(xor_spec(block, round_key(w, 10))))
    } else {
        inv_sub_bytes(
            inv_shift_rows(
                inv_mix_columns(
                    xor_spec(decrypt_rounds(w, block, r + 1), round_key(w, r as int)),
                ),
            ),
        )
    }
}

/// The decryption of a block under the schedule `w`.
pub open spec fn aes_decrypt(w: Seq<u8>, block: Seq<u8>) -> Seq<u8> {
    xor_spec(decrypt_rounds(w, block, 1), round_key(w, 0))
}

/// A byte is one of the sixteen with its high half, and one of the sixteen
/// with its low half.
proof fn lemma_byte_cases(x: u8)
    ensures
        x == 16 * (x / 16) + x % 16,
        x / 16 == 0 || x / 16 == 1 || x / 16 == 2 || x / 16 == 3 || x / 16 == 4 || x / 16 == 5 || x
            / 16 == 6 || x / 16 == 7 || x / 16 == 8 || x / 16 == 9 || x / 16 == 10 || x / 16 == 11
            || x / 16 == 12 || x / 16 == 13 || x / 16 == 14 || x / 16 == 15,
        x % 16 == 0 || x % 16 == 1 || x % 16 == 2 || x % 16 == 3 || x % 16 == 4 || x % 16 == 5 || x
            % 16 == 6 || x % 16 == 7 || x % 16 == 8 || x % 16 == 9 || x % 16 == 10 || x % 16 == 11
            || x % 16 == 12 || x % 16 == 13 || x % 16 == 14 || x % 16 == 15,
{
}

/// The inverse box undoes the box.
pub proof fn lemma_inv_sbox(x: u8)
    ensures
        inv_sbox(sbox(x)) == x,
{
    lemma_byte_cases(x);
}

/// Unmixing the first byte of a mixed column gives the first byte of the
/// column.
proof fn lemma_inv_mix_byte(a: u8, b: u8, c: u8, d: u8)
    ensures
        inv_mix_byte(mix_byte(a, b, c, d), mix_byte(b, c, d, a), mix_byte(c, d, a, b), mix_byte(d, a, b, c))
            == a,
{
    assert(inv_mix_byte(
        mix_byte(a, b, c, d),
        mix_byte(b, c, d, a),
        mix_byte(c, d, a, b),
        mix_byte(d, a, b, c),
    ) == a) by (bit_vector);
}

/// Substituting back undoes substituting.
proof fn lemma_inv_sub_bytes(s: Seq<u8>)
    requires
        s.len() == 16,
    ensures
        inv_sub_bytes(sub_bytes(s)) == s,
{
    assert forall|i: int| 0 <= i < 16 implies inv_sub_bytes(sub_bytes(s))[i] == s[i] by {
        lemma_inv_sbox(s[i]);
    }
    assert(inv_sub_bytes(sub_bytes(s)) =~= s);
}

/// Shifting back undoes shifting.
proof fn lemma_inv_shift_rows(s: Seq<u8>)
    requires
        s.len() == 16,
    ensures
        inv_shift_rows(shift_rows(s)) == s,
{
    assert(inv_shift_rows(shift_rows(s)) =~= s);
}

/// Unmixing undoes mixing.
proof fn lemma_inv_mix_columns(s: Seq<u8>)
    requires
        s.len() == 16,
    ensures
        inv_mix_columns(mix_columns(s)) == s,
{
    assert forall|i: int| 0 <= i < 16 implies inv_mix_columns(mix_columns(s))[i] == s[i] by {
        let c = i / 4 * 4;
        lemma_inv_mix_byte(
            s[c + i % 4],
            s[c + (i + 1) % 4],
            s[c + (i + 2) % 4],
            s[c + (i + 3) % 4],
        );
    }
    assert(inv_mix_columns(mix_columns(s)) =~= s);
}

/// The state keeps its 16 bytes through every round.
proof fn lemma_encrypt_rounds_len(w: Seq<u8>, block: Seq<u8>, r: nat)
    requires
        block.len() == 16,
    ensures
        encrypt_rounds(w, block, r).len() == 16,
    decreases r,
{
    if r > 0 {
        lemma_encrypt_rounds_len(w, block, (r - 1) as nat);
    }
}

/// Undoing the rounds from the tenth down to round `r` on a ciphertext
/// leads back to the state after round `r - 1` of its encryption.
proof fn lemma_decrypt_rounds(w: Seq<u8>, block: Seq<u8>, r: nat)
    requires
        block.len() == 16,
        1 <= r <= 10,
    ensures
        decrypt_rounds(w, aes_encrypt(w, block), r) == encrypt_rounds(w, block, (r - 1) as nat),
    decreases 10 - r,
{
    let before = encrypt_rounds(w, block, (r - 1) as nat);
    let shifted = shift_rows(sub_bytes(before));
    lemma_encrypt_rounds_len(w, block, (r - 1) as nat);
    lemma_inv_sub_bytes(before);
    lemma_inv_shift_rows(sub_bytes(before));
    if r == 10 {
        lemma_xor_twice(shifted, round_key(w, 10));
    } else {
        lemma_decrypt_rounds(w, block, r + 1);
        lemma_xor_twice(mix_columns(shifted), round_key(w, r as int));
        lemma_inv_mix_columns(shifted);
    }
}

/// Decryption undoes encryption under the same schedule, whatever the
/// schedule holds.
pub proof fn lemma_aes_round_trip(w: Seq<u8>, block: Seq<u8>)
    requires
        block.len() == 16,
    ensures
        aes_encrypt(w, block).len() == 16,
        aes_decrypt(w, aes_encrypt(w, block)) == block,
{
    lemma_encrypt_rounds_len(w, block, 10);
    lemma_decrypt_rounds(w, block, 1);
    lemma_xor_twice(block, round_key(w, 0));
}

/// AES with a 128-bit key, ready to encrypt and decrypt blocks.
#[derive(Clone, Copy)]
pub struct AES {
    /// The key schedule: the eleven round keys.
    pub round_keys: [u8; 176],
}

/// A byte times two in the field of AES.
fn times_two(b: u8) -> (r: u8)
    ensures
        r == xtime(b),
{
    if b & 0x80 != 0 {
        (b << 1) ^ 0x1b
    } else {
        assert((b << 1) ^ 0u8 == b << 1) by (bit_vector);
        b << 1
    }
}

/// Adds the key of round `r` to the state.
fn add_round_key(state: &[u8; 16], w: &[u8; 176], r: usize) -> (out: [u8; 16])
    requires
        r <= 10,
    ensures
        out@ == xor_spec(state@, round_key(w@, r as int)),
{
    let mut out: [u8; 16] = [0; 16];
    for i in 0..16usize
        invariant
            r <= 10,
            forall|k: int| 0 <= k < i ==> out@[k] == state@[k] ^ w@[16 * r + k],
    {
        out[i] = state[i] ^ w[16 * r + i];
    }
    assert(out@ =~= xor_spec(state@, round_key(w@, r as int)));
    out
}

/// Substitutes every byte of the state.
fn substitute(state: &[u8; 16]) -> (out: [u8; 16])
    ensures
        out@ == sub_bytes(state@),
{
    let mut out: [u8; 16] = [0; 16];
    for i in 0..16usize
        invariant
            forall|k: int| 0 <= k < i ==> out@[k] == sbox(state@[k]),
    {
        out[i] = SBOX[state[i] as usize];
    }
    assert(out@ =~= sub_bytes(state@));
    out
}

/// Substitutes every byte of the state back.
fn substitute_back(state: &[u8; 16]) -> (out: [u8; 16])
    ensures
        out@ == inv_sub_bytes(state@),
{
    let mut out: [u8; 16] = [0; 16];
    for i in 0..16usize
        invariant
            forall|k: int| 0 <= k < i ==> out@[k] == inv_sbox(state@[k]),
    {
        out[i] = INV_SBOX[state[i] as usize];
    }
    assert(out@ =~= inv_sub_bytes(state@));
    out
}

/// Rotates the rows of the state to the left.
fn shift(state: &[u8; 16]) -> (out: [u8; 16])
    ensures
        out@ == shift_rows(state@),
{
    let mut out: [u8; 16] = [0; 16];
    for i in 0..16usize
        invariant
            forall|k: int| 0 <= k < i ==> out@[k] == state@[(k + 4 * (k % 4)) % 16],
    {
        out[i] = state[(i + 4 * (i % 4)) % 16];
    }
    assert(out@ =~= shift_rows(state@));
    out
}

/// Rotates the rows of the state to the right.
fn shift_back(state: &[u8; 16]) -> (out: [u8; 16])
    ensures
        out@ == inv_shift_rows(state@),
{
    let mut out: [u8; 16] = [0; 16];
    for i in 0..16usize
        invariant
            forall|k: int| 0 <= k < i ==> out@[k] == state@[(k + 12 * (k % 4)) % 16],
    {
        out[i] = state[(i + 12 * (i % 4)) % 16];
    }
    assert(out@ =~= inv_shift_rows(state@));
    out
}

/// Mixes every column of the state.
fn mix(state: &[u8; 16]) -> (out: [u8; 16])
    ensures
        out@ == mix_columns(state@),
{
    let mut out: [u8; 16] = [0; 16];
    for i in 0..16usize
        invariant
            forall|k: int| 0 <= k < i ==> out@[k] == mix_columns(state@)[k],
    {
        let c: usize = i / 4 * 4;
        let a0 = state[c + i % 4];
        let a1 = state[c + (i + 1) % 4];
        let a2 = state[c + (i + 2) % 4];
        let a3 = state[c + (i + 3) % 4];
        out[i] = times_two(a0) ^ (times_two(a1) ^ a1) ^ a2 ^ a3;
    }
    assert(out@ =~= mix_columns(state@));
    out
}

/// Unmixes every column of the state.
fn mix_back(state: &[u8; 16]) -> (out: [u8; 16])
    ensures
        out@ == inv_mix_columns(state@),
{
    let mut out: [u8; 16] = [0; 16];
    for i in 0..16usize
        invariant
            forall|k: int| 0 <= k < i ==> out@[k] == inv_mix_columns(state@)[k],
    {
        let c: usize = i / 4 * 4;
        let a0 = state[c + i % 4];
        let a1 = state[c + (i + 1) % 4];
        let a2 = state[c + (i + 2) % 4];
        let a3 = state[c + (i + 3) % 4];
        let a0_2 = times_two(a0);
        let a0_4 = times_two(a0_2);
        let a0_8 = times_two(a0_4);
        let a1_2 = times_two(a1);
        let a1_8 = times_two(times_two(a1_2));
        let a2_4 = times_two(times_two(a2));
        let a2_8 = times_two(a2_4);
        let a3_8 = times_two(times_two(times_two(a3)));
        out[i] = (a0_8 ^ a0_4 ^ a0_2) ^ (a1_8 ^ a1_2 ^ a1) ^ (a2_8 ^ a2_4 ^ a2) ^ (a3_8 ^ a3);
    }
    assert(out@ =~= inv_mix_columns(state@));
    out
}

impl AES {
    /// Builds the cipher from a key of 16 bytes, and rejects a key of any
    /// other length.
    pub fn new(key: &[u8]) -> (r: Result<AES, Error>)
        ensures
            key@.len() == 16 ==> (r matches Ok(aes) && aes.round_keys@ == expand_key(key@)),
            key@.len() != 16 ==> (r matches Err(e) && e == Error::LengthMismatch),
    {
        if key.len() != 16 {
            return Err(Error::LengthMismatch);
        }
        let mut w: [u8; 176] = [0; 176];
        for j in 0..16usize
            invariant
                key@.len() == 16,
                forall|k: int| 0 <= k < j ==> w@[k] == expanded_byte(key@, k),
        {
            w[j] = key[j];
        }
        for j in 16..176usize
            invariant
                forall|k: int| 0 <= k < j ==> w@[k] == expanded_byte(key@, k),
        {
            let before = w[j - 16];
            if (j / 4) % 4 == 0 {
                let turned = SBOX[w[4 * (j / 4 - 1) + (j % 4 + 1) % 4] as usize];
                let constant: u8 = if j % 4 == 0 {
                    RCON[j / 16]
                } else {
                    0
                };
                w[j] = before ^ turned ^ constant;
            } else {
                w[j] = before ^ w[j - 4];
            }
        }
        assert(w@ =~= expand_key(key@));
        Ok(AES { round_keys: w })
    }
}

impl BlockCipher for AES {
    open spec fn spec_encrypt_block(&self, block: Seq<u8>) -> Seq<u8> {
        aes_encrypt(self.round_keys@, block)
    }

    open spec fn spec_decrypt_block(&self, block: Seq<u8>) -> Seq<u8> {
        aes_decrypt(self.round_keys@, block)
    }

    fn encrypt_block(&self, block: [u8; 16]) -> (r: [u8; 16]) {
        let mut state = add_round_key(&block, &self.round_keys, 0);
        for round in 1..10usize
            invariant
                state@ == encrypt_rounds(self.round_keys@, block@, (round - 1) as nat),
        {
            state = substitute(&state);
            state = shift(&state);
            state = mix(&state);
            state = add_round_key(&state, &self.round_keys, round);
        }
        state = substitute(&state);
        state = shift(&state);
        add_round_key(&state, &self.round_keys, 10)
    }

    fn decrypt_block(&self, block: [u8; 16]) -> (r: [u8; 16]) {
        let mut state = add_round_key(&block, &self.round_keys, 10);
        state = shift_back(&state);
        state = substitute_back(&state);
        let mut round: usize = 9;
        while round >= 1
            invariant
                round <= 9,
                state@ == decrypt_rounds(self.round_keys@, block@, (round + 1) as nat),
            decreases round,
        {
            state = add_round_key(&state, &self.round_keys, round);
            state = mix_back(&state);
            state = shift_back(&state);
            state = substitute_back(&state);
            round = round - 1;
        }
        add_round_key(&state, &self.round_keys, 0)
    }

    proof fn lemma_block_round_trip(&self, block: Seq<u8>) {
        lemma_aes_round_trip(self.round_keys@, block);
    }
}

} // verus!
