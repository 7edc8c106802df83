//! XOR combinators and the bit-level Hamming distance.

use vstd::prelude::*;
use crate::error::Error;

verus! {

/// The byte-wise XOR of two sequences; meaningful where both have one length.
pub open spec fn xor_spec(a: Seq<u8>, b: Seq<u8>) -> Seq<u8> {
    Seq::new(a.len(), |i: int| a[i] ^ b[i])
}

/// Every byte of `v` XORed with the one byte `x`.
pub open spec fn single_xor_spec(v: Seq<u8>, x: u8) -> Seq<u8> {
    Seq::new(v.len(), |i: int| v[i] ^ x)
}

/// `v` XORed with `key` repeated cyclically.
pub open spec fn repeating_key_xor_spec(v: Seq<u8>, key: Seq<u8>) -> Seq<u8> {
    Seq::new(v.len(), |i: int| v[i] ^ key[i % key.len() as int])
}

/// XORs two byte strings of equal length, and rejects strings whose lengths
/// differ.
pub fn xor(v: &[u8], v2: &[u8]) -> (r: Result<Vec<u8>, Error>)
    ensures
        v@.len() == v2@.len() ==> r.is_ok() && r.unwrap()@ == xor_spec(v@, v2@),
        v@.len() != v2@.len() ==> r == Err::<Vec<u8>, Error>(Error::LengthMismatch),
{
    if v.len() != v2.len() {
        return Err(Error::LengthMismatch);
    }
    let mut s: Vec<u8> = Vec::new();
    for i in 0..v.len()
        invariant
            v@.len() == v2@.len(),
            s@.len() == i,
            forall|j: int| 0 <= j < i ==> s@[j] == v@[j] ^ v2@[j],
    {
        s.push(v[i] ^ v2[i]);
    }
    assert(s@ =~= xor_spec(v@, v2@));
    Ok(s)
}

/// XORs every byte of `v` with `x`.
pub fn single_xor(v: &[u8], x: u8) -> (r: Vec<u8>)
    ensures
        r@ == single_xor_spec(v@, x),
{
    let mut s: Vec<u8> = Vec::new();
    for i in 0..v.len()
        invariant
            s@.len() == i,
            forall|j: int| 0 <= j < i ==> s@[j] == v@[j] ^ x,
    {
        s.push(v[i] ^ x);
    }
    assert(s@ =~= single_xor_spec(v@, x));
    s
}

/// XORs `v` with `key` repeated as often as needed. An empty key can only be
/// applied to an empty text.
pub fn repeating_key_xor(v: &[u8], key: &[u8]) -> (r: Vec<u8>)
    requires
        v@.len() > 0 ==> key@.len() > 0,
    ensures
        r@ == repeating_key_xor_spec(v@, key@),
{
    let mut res: Vec<u8> = Vec::new();
    for i in 0..v.len()
        invariant
            v@.len() > 0 ==> key@.len() > 0,
            res@.len() == i,
            forall|j: int| 0 <= j < i ==> res@[j] == v@[j] ^ key@[j % key@.len() as int],
    {
        res.push(v[i] ^ key[i % key.len()]);
    }
    assert(res@ =~= repeating_key_xor_spec(v@, key@));
    res
}

/// XORing twice with the same bytes changes nothing.
pub proof fn lemma_xor_twice(a: Seq<u8>, b: Seq<u8>)
    ensures
        xor_spec(xor_spec(a, b), b) == a,
{
    assert forall|k: int| 0 <= k < a.len() implies (#[trigger] a[k] ^ b[k]) ^ b[k] == a[k] by {
        let x = a[k];
        let y = b[k];
        assert((x ^ y) ^ y == x) by (bit_vector);
    }
    assert(xor_spec(xor_spec(a, b), b) =~= a);
}

/// XORing twice with the same byte changes nothing.
pub proof fn lemma_single_xor_twice(v: Seq<u8>, x: u8)
    ensures
        single_xor_spec(single_xor_spec(v, x), x) == v,
{
    assert forall|k: int| 0 <= k < v.len() implies (#[trigger] v[k] ^ x) ^ x == v[k] by {
        let b = v[k];
        assert((b ^ x) ^ x == b) by (bit_vector);
    }
    assert(single_xor_spec(single_xor_spec(v, x), x) =~= v);
}

/// Applying a repeating key twice gives the text back: the cipher is its
/// own inverse.
pub proof fn lemma_repeating_key_xor_twice(v: Seq<u8>, key: Seq<u8>)
    ensures
        repeating_key_xor_spec(repeating_key_xor_spec(v, key), key) == v,
{
    assert forall|k: int| 0 <= k < v.len() implies (#[trigger] v[k] ^ key[k % key.len() as int])
        ^ key[k % key.len() as int] == v[k] by {
        let b = v[k];
        let x = key[k % key.len() as int];
        assert((b ^ x) ^ x == b) by (bit_vector);
    }
    assert(repeating_key_xor_spec(repeating_key_xor_spec(v, key), key) =~= v);
}

/// The number of bits set in a byte.
pub open spec fn bit_count(x: u8) -> nat {
    ((x & 1) + ((x >> 1) & 1) + ((x >> 2) & 1) + ((x >> 3) & 1) + ((x >> 4) & 1) + ((x >> 5) & 1)
        + ((x >> 6) & 1) + ((x >> 7) & 1)) as nat
}

/// The number of bits in which the first `n` bytes of `a` and of `b` differ.
pub open spec fn hamming_upto(a: Seq<u8>, b: Seq<u8>, n: nat) -> nat
    decreases n,
{
    if n == 0 {
        0
    } else {
        hamming_upto(a, b, (n - 1) as nat) + bit_count(a[n - 1] ^ b[n - 1])
    }
}

/// The number of differing bits between two byte strings, counted over the
/// length of the shorter one.
pub open spec fn hamming_spec(a: Seq<u8>, b: Seq<u8>) -> nat {
    hamming_upto(a, b, if a.len() <= b.len() { a.len() } else { b.len() })
}

/// A byte has at most eight bits set.
pub proof fn lemma_bit_count_bound(x: u8)
    ensures
        bit_count(x) <= 8,
{
    assert(((x & 1) + ((x >> 1) & 1) + ((x >> 2) & 1) + ((x >> 3) & 1) + ((x >> 4) & 1) + ((x >> 5)
        & 1) + ((x >> 6) & 1) + ((x >> 7) & 1)) <= 8) by (bit_vector);
}

/// The distance over a prefix grows with the prefix and is at most eight
/// bits per byte.
pub proof fn lemma_hamming_upto_bounds(a: Seq<u8>, b: Seq<u8>, m: nat, n: nat)
    requires
        m <= n,
    ensures
        hamming_upto(a, b, m) <= hamming_upto(a, b, n),
        hamming_upto(a, b, n) <= 8 * n,
    decreases n,
{
    if n > 0 {
        lemma_bit_count_bound(a[n - 1] ^ b[n - 1]);
        if m < n {
            lemma_hamming_upto_bounds(a, b, m, (n - 1) as nat);
        } else {
            lemma_hamming_upto_bounds(a, b, (n - 1) as nat, (n - 1) as nat);
        }
    }
}

/// Counts the bits set in a byte.
pub fn count_bits(x: u8) -> (r: u32)
    ensures
        r == bit_count(x),
{
    assert((x & 0x55) + ((x >> 1) & 0x55) <= 0xaa) by (bit_vector);
    let pairs: u8 = (x & 0x55) + ((x >> 1) & 0x55);
    assert((pairs & 0x33) + ((pairs >> 2) & 0x33) <= 0x66) by (bit_vector);
    let nibbles: u8 = (pairs & 0x33) + ((pairs >> 2) & 0x33);
    assert((nibbles & 0x0f) + ((nibbles >> 4) & 0x0f) <= 0x1e) by (bit_vector);
    let total: u8 = (nibbles & 0x0f) + ((nibbles >> 4) & 0x0f);
    assert(total == (x & 1) + ((x >> 1) & 1) + ((x >> 2) & 1) + ((x >> 3) & 1) + ((x >> 4) & 1) + ((x
        >> 5) & 1) + ((x >> 6) & 1) + ((x >> 7) & 1)) by (bit_vector)
        requires
            pairs == (x & 0x55) + ((x >> 1) & 0x55),
            nibbles == (pairs & 0x33) + ((pairs >> 2) & 0x33),
            total == (nibbles & 0x0f) + ((nibbles >> 4) & 0x0f),
    ;
    total as u32
}

/// The bit-level Hamming distance between two byte strings. Where the
/// strings differ in length, the bytes beyond the shorter one are not
/// counted.
pub fn hamming_distance(s: &[u8], s2: &[u8]) -> (r: u32)
    requires
        hamming_spec(s@, s2@) <= u32::MAX,
    ensures
        r == hamming_spec(s@, s2@),
{
    let n: usize = if s.len() <= s2.len() { s.len() } else { s2.len() };
    let mut acc: u32 = 0;
    for i in 0..n
        invariant
            n == (if s@.len() <= s2@.len() { s@.len() } else { s2@.len() }),
            acc == hamming_upto(s@, s2@, i as nat),
            hamming_upto(s@, s2@, n as nat) <= u32::MAX,
    {
        proof {
            lemma_hamming_upto_bounds(s@, s2@, (i + 1) as nat, n as nat);
        }
        acc = acc + count_bits(s[i] ^ s2[i]);
    }
    acc
}

/// The expected share of each letter, A to Z, in English text, in parts per
/// hundred thousand.
pub const ENG_FREQ: [u32; 26] = [
    8167, 1492, 2782, 4253, 12702, 2228, 2015, 6094, 6966, 153, 772, 4025, 2406, 6749, 7507, 1929,
    95, 5987, 6327, 9056, 2758, 978, 2360, 150, 1974, 74,
];

/// Whether a byte is an ASCII letter.
pub open spec fn is_letter(b: u8) -> bool {
    (0x41 <= b <= 0x5a) || (0x61 <= b <= 0x7a)
}

/// The place of a letter in the alphabet, from 0 for `A` or `a` to 25 for
/// `Z` or `z`.
pub open spec fn letter_index(b: u8) -> int {
    if b >= 0x61 {
        b - 0x61
    } else {
        b - 0x41
    }
}

/// Whether a byte may stand in a text without being a letter: printable
/// ASCII, tab, line feed and carriage return.
pub open spec fn is_ordinary(b: u8) -> bool {
    !is_letter(b) && ((32 <= b <= 126) || b == 9 || b == 10 || b == 13)
}

/// Whether a byte may stand in a text at all.
pub open spec fn is_text_byte(b: u8) -> bool {
    is_letter(b) || is_ordinary(b)
}

/// Whether every byte of `s` may stand in a text.
pub open spec fn is_text(s: Seq<u8>) -> bool {
    forall|i: int| 0 <= i < s.len() ==> is_text_byte(#[trigger] s[i])
}

/// How often the letter with index `letter` occurs in `s`, in either case.
pub open spec fn letter_count(s: Seq<u8>, letter: int) -> nat
    decreases s.len(),
{
    if s.len() == 0 {
        0
    } else {
        letter_count(s.drop_last(), letter) + if is_letter(s.last()) && letter_index(s.last())
            == letter {
            1nat
        } else {
            0nat
        }
    }
}

/// How many bytes of `s` are ordinary, that is valid but no letters.
pub open spec fn ordinary_count(s: Seq<u8>) -> nat
    decreases s.len(),
{
    if s.len() == 0 {
        0
    } else {
        ordinary_count(s.drop_last()) + if is_ordinary(s.last()) {
            1nat
        } else {
            0nat
        }
    }
}

/// The occurrences in `s` of the first `n` letters of the alphabet, added up.
pub open spec fn letter_total(s: Seq<u8>, n: nat) -> nat
    decreases n,
{
    if n == 0 {
        0
    } else {
        letter_total(s, (n - 1) as nat) + letter_count(s, n - 1)
    }
}

/// A count over a text never exceeds the length of the text.
pub proof fn lemma_counts_bounded(s: Seq<u8>, letter: int)
    ensures
        letter_count(s, letter) <= s.len(),
        ordinary_count(s) <= s.len(),
    decreases s.len(),
{
    if s.len() > 0 {
        lemma_counts_bounded(s.drop_last(), letter);
    }
}

/// Appending one byte to a text adds one to the total over the letters up
/// to `n` where the byte is one of them, and nothing otherwise.
proof fn lemma_letter_total_step(s: Seq<u8>, n: nat)
    requires
        s.len() > 0,
    ensures
        letter_total(s, n) == letter_total(s.drop_last(), n) + if is_letter(s.last())
            && letter_index(s.last()) < n {
            1nat
        } else {
            0nat
        },
    decreases n,
{
    if n > 0 {
        lemma_letter_total_step(s, (n - 1) as nat);
    }
}

/// Every byte of a text is accounted for: it is counted under exactly one
/// of the 26 letters, or it is one of the ordinary bytes.
pub proof fn lemma_histogram_accounts_for_every_byte(s: Seq<u8>)
    requires
        is_text(s),
    ensures
        letter_total(s, 26) + ordinary_count(s) == s.len(),
    decreases s.len(),
{
    if s.len() > 0 {
        let t = s.drop_last();
        assert forall|i: int| 0 <= i < t.len() implies is_text_byte(#[trigger] t[i]) by {
            assert(t[i] == s[i]);
        }
        lemma_histogram_accounts_for_every_byte(t);
        lemma_letter_total_step(s, 26);
        assert(is_text_byte(s[s.len() - 1]));
    } else {
        assert(letter_total(s, 26) == 0) by {
            reveal_with_fuel(letter_total, 27);
        }
    }
}

/// Counts the letters of a text, A to Z without regard to case, and sets
/// `len` to the scoreable length of the text: the number of its bytes less
/// the ordinary ones, which are allowed but not scored.
///
/// Fails on the first byte that may not stand in a text; `len` then holds
/// what the bytes before that one leave of the whole length.
pub fn get_letter_count(s: &[u8], len: &mut u32) -> (r: Result<[u32; 26], Error>)
    requires
        s@.len() <= u32::MAX,
    ensures
        match r {
            Ok(counts) => {
                &&& is_text(s@)
                &&& forall|letter: int|
                    0 <= letter < 26 ==> counts@[letter] == letter_count(s@, letter)
                &&& *final(len) == s@.len() - ordinary_count(s@)
                &&& *final(len) == letter_total(s@, 26)
            },
            Err(e) => {
                &&& e == Error::InvalidByte
                &&& exists|k: int|
                    {
                        &&& 0 <= k < s@.len()
                        &&& !is_text_byte(s@[k])
                        &&& is_text(s@.take(k))
                        &&& *final(len) == s@.len() - ordinary_count(s@.take(k))
                    }
            },
        },
{
    let mut counts: [u32; 26] = [0; 26];
    *len = s.len() as u32;
    for i in 0..s.len()
        invariant
            s@.len() <= u32::MAX,
            is_text(s@.take(i as int)),
            *len == s@.len() - ordinary_count(s@.take(i as int)),
            forall|letter: int|
                0 <= letter < 26 ==> counts@[letter] == letter_count(s@.take(i as int), letter),
    {
        let b = s[i];
        proof {
            let next = s@.take(i + 1);
            assert(next.drop_last() =~= s@.take(i as int));
            assert(next.last() == b);
            lemma_counts_bounded(next, 0);
            assert forall|letter: int| 0 <= letter < 26 implies letter_count(next, letter)
                <= u32::MAX by {
                lemma_counts_bounded(next, letter);
            }
        }
        if b >= 0x41 && b <= 0x5a {
            let idx: usize = (b - 0x41) as usize;
            assert(letter_count(s@.take(i + 1), idx as int) == counts@[idx as int] + 1);
            counts[idx] = counts[idx] + 1;
        } else if b >= 0x61 && b <= 0x7a {
            let idx: usize = (b - 0x61) as usize;
            assert(letter_count(s@.take(i + 1), idx as int) == counts@[idx as int] + 1);
            counts[idx] = counts[idx] + 1;
        } else if (b >= 32 && b <= 126) || b == 9 || b == 10 || b == 13 {
            *len = *len - 1;
        } else {
            assert(!is_text_byte(s@[i as int]));
            return Err(Error::InvalidByte);
        }
        assert(is_text(s@.take(i + 1))) by {
            assert forall|j: int| 0 <= j < i + 1 implies is_text_byte(
                #[trigger] s@.take(i + 1)[j],
            ) by {
                if j < i {
                    assert(s@.take(i as int)[j] == s@[j]);
                }
            }
        }
    }
    proof {
        assert(s@.take(s@.len() as int) =~= s@);
        lemma_histogram_accounts_for_every_byte(s@);
    }
    Ok(counts)
}

} // verus!
