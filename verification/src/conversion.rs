//! Text codecs for bytes: hexadecimal and base64.

use vstd::prelude::*;
use vstd::string::*;
use vstd::utf8::{is_ascii_chars, is_ascii_chars_nat_bound};
use crate::error::Error;

verus! {

/// `String::push` appends the character to the end of the string and leaves
/// what was there untouched.
pub assume_specification[ String::push ](s: &mut String, ch: char)
    ensures
        final(s)@ == old(s)@.push(ch),
;

/// The lowercase hex digit for a value below 16.
pub open spec fn hex_digit(n: u8) -> char {
    if n < 10 {
        (0x30 + n) as char
    } else {
        (0x57 + n) as char
    }
}

/// The value of a hex digit of either case, and `None` for any other
/// character.
pub open spec fn hex_value(c: char) -> Option<u8> {
    if '0' <= c <= '9' {
        Some((c as u8 - 0x30) as u8)
    } else if 'a' <= c <= 'f' {
        Some((c as u8 - 0x57) as u8)
    } else if 'A' <= c <= 'F' {
        Some((c as u8 - 0x37) as u8)
    } else {
        None
    }
}

/// Whether a text consists of hex digits only.
pub open spec fn is_hex(s: Seq<char>) -> bool {
    forall|i: int| 0 <= i < s.len() ==> hex_value(#[trigger] s[i]).is_some()
}

/// The hex text of a byte string: two lowercase digits per byte, the high
/// half first, and nothing between the bytes.
pub open spec fn hex_encode_spec(b: Seq<u8>) -> Seq<char> {
    Seq::new(
        2 * b.len(),
        |i: int|
            if i % 2 == 0 {
                hex_digit(b[i / 2] >> 4)
            } else {
                hex_digit(b[i / 2] & 15)
            },
    )
}

/// The bytes that a hex text of even length stands for: each pair of digits
/// is one byte, the high half first.
pub open spec fn hex_bytes(s: Seq<char>) -> Seq<u8> {
    Seq::new(
        s.len() / 2,
        |i: int| (16 * hex_value(s[2 * i]).unwrap() + hex_value(s[2 * i + 1]).unwrap()) as u8,
    )
}

/// What decoding makes of a hex text: its bytes where it has an even number
/// of characters and all of them are hex digits, and nothing otherwise.
pub open spec fn hex_decode_spec(s: Seq<char>) -> Option<Seq<u8>> {
    if s.len() % 2 == 0 && is_hex(s) {
        Some(hex_bytes(s))
    } else {
        None
    }
}

/// The hex digit for a value below 16.
fn hex_digit_of(n: u8) -> (c: char)
    requires
        n < 16,
    ensures
        c == hex_digit(n),
{
    if n < 10 {
        (0x30 + n) as char
    } else {
        (0x57 + n) as char
    }
}

/// The value of an ASCII byte read as a hex digit.
fn hex_value_of(b: u8) -> (r: Option<u8>)
    requires
        b < 128,
    ensures
        r == hex_value(b as char),
        r matches Some(v) ==> v < 16,
{
    if b >= 0x30 && b <= 0x39 {
        Some(b - 0x30)
    } else if b >= 0x61 && b <= 0x66 {
        Some(b - 0x57)
    } else if b >= 0x41 && b <= 0x46 {
        Some(b - 0x37)
    } else {
        None
    }
}

/// Writes bytes as hex text.
pub fn hex_encode(s: &[u8]) -> (r: String)
    ensures
        r@ == hex_encode_spec(s@),
{
    let mut st = String::new();
    for i in 0..s.len()
        invariant
            st@.len() == 2 * i,
            forall|j: int| 0 <= j < 2 * i ==> st@[j] == hex_encode_spec(s@)[j],
    {
        let b = s[i];
        assert(b >> 4 < 16 && b & 15 < 16) by (bit_vector);
        st.push(hex_digit_of(b >> 4));
        st.push(hex_digit_of(b & 15));
    }
    assert(st@ =~= hex_encode_spec(s@));
    st
}

/// Reads hex text. The text must have an even number of characters, each a
/// hex digit of either case; any other text is rejected.
pub fn hex_decode(s: &str) -> (r: Option<Vec<u8>>)
    ensures
        match r {
            Some(v) => hex_decode_spec(s@) == Some(v@),
            None => hex_decode_spec(s@).is_none(),
        },
{
    if !s.is_ascii() {
        return None;
    }
    let bytes = s.as_bytes();
    proof {
        is_ascii_spec_bytes(s);
        is_ascii_chars_nat_bound(s@);
    }
    if bytes.len() % 2 != 0 {
        return None;
    }
    let mut v: Vec<u8> = Vec::new();
    let total: usize = bytes.len();
    let pairs: usize = total / 2;
    for i in 0..pairs
        invariant
            is_ascii_chars(s@),
            total == bytes@.len() == s@.len() == 2 * pairs,
            forall|j: int| 0 <= j < s@.len() ==> bytes@[j] == s@[j] as u8,
            v@.len() == i,
            forall|j: int| 0 <= j < 2 * i ==> hex_value(#[trigger] s@[j]).is_some(),
            forall|j: int| 0 <= j < i ==> v@[j] == hex_bytes(s@)[j],
    {
        let high = bytes[2 * i];
        let low = bytes[2 * i + 1];
        assert(high as char == s@[2 * i] && low as char == s@[2 * i + 1]);
        match (hex_value_of(high), hex_value_of(low)) {
            (Some(h), Some(l)) => {
                v.push(16 * h + l);
            },
            _ => {
                return None;
            },
        }
    }
    assert(v@ =~= hex_bytes(s@));
    Some(v)
}

/// Decoding the hex text of any byte string gives the byte string back.
pub proof fn lemma_hex_round_trip(b: Seq<u8>)
    ensures
        hex_decode_spec(hex_encode_spec(b)) == Some(b),
{
    let text = hex_encode_spec(b);
    assert forall|n: u8| n < 16 implies hex_value(#[trigger] hex_digit(n)) == Some(n) by {}
    assert forall|i: int| 0 <= i < text.len() implies hex_value(#[trigger] text[i]).is_some() by {
        let x = b[i / 2];
        assert(x >> 4 < 16 && x & 15 < 16) by (bit_vector);
    }
    assert forall|i: int| 0 <= i < b.len() implies hex_bytes(text)[i] == b[i] by {
        let x = b[i];
        assert(x >> 4 < 16 && x & 15 < 16 && 16 * (x >> 4) + (x & 15) == x) by (bit_vector);
        assert(text[2 * i] == hex_digit(x >> 4));
        assert(text[2 * i + 1] == hex_digit(x & 15));
    }
    assert(hex_bytes(text) =~= b);
}

/// The base64 character for a value below 64, in the alphabet `A-Z`, `a-z`,
/// `0-9`, `+`, `/`.
pub open spec fn b64_char(n: u8) -> char {
    if n < 26 {
        (0x41 + n) as char
    } else if n < 52 {
        (0x47 + n) as char
    } else if n < 62 {
        (n - 4) as char
    } else if n == 62 {
        '+'
    } else {
        '/'
    }
}

/// The value of a base64 character, and `None` for a character outside the
/// alphabet.
pub open spec fn b64_value(c: char) -> Option<u8> {
    if 'A' <= c <= 'Z' {
        Some((c as u8 - 0x41) as u8)
    } else if 'a' <= c <= 'z' {
        Some((c as u8 - 0x47) as u8)
    } else if '0' <= c <= '9' {
        Some((c as u8 + 4) as u8)
    } else if c == '+' {
        Some(62u8)
    } else if c == '/' {
        Some(63u8)
    } else {
        None
    }
}

/// The byte at `i`, and zero beyond the end.
pub open spec fn byte_or_zero(b: Seq<u8>, i: int) -> u8 {
    if 0 <= i < b.len() {
        b[i]
    } else {
        0
    }
}

/// The `k`-th group of six bits in the bit string of `b`, which is padded
/// with zero bits to a whole number of groups.
pub open spec fn sextet(b: Seq<u8>, k: int) -> u8 {
    let i = k / 4 * 3;
    if k % 4 == 0 {
        b[i] >> 2
    } else if k % 4 == 1 {
        ((b[i] & 3) << 4) | (byte_or_zero(b, i + 1) >> 4)
    } else if k % 4 == 2 {
        ((byte_or_zero(b, i + 1) & 15) << 2) | (byte_or_zero(b, i + 2) >> 6)
    } else {
        byte_or_zero(b, i + 2) & 63
    }
}

/// How many base64 characters carry the bits of `n` bytes.
pub open spec fn b64_data_len(n: nat) -> nat {
    n / 3 * 4 + if n % 3 == 0 {
        0
    } else {
        n % 3 + 1
    }
}

/// The base64 text of a byte string: one character per group of six bits,
/// then `=` up to a multiple of four characters.
pub open spec fn to_b64_spec(b: Seq<u8>) -> Seq<char> {
    Seq::new(
        (b.len() + 2) / 3 * 4,
        |k: int|
            if k < b64_data_len(b.len()) {
                b64_char(sextet(b, k))
            } else {
                '='
            },
    )
}

/// A text without its `=` characters, wherever they stand.
pub open spec fn strip_padding(s: Seq<char>) -> Seq<char>
    decreases s.len(),
{
    if s.len() == 0 {
        s
    } else if s.last() == '=' {
        strip_padding(s.drop_last())
    } else {
        strip_padding(s.drop_last()).push(s.last())
    }
}

/// Whether every character of a text is `=` or in the base64 alphabet.
pub open spec fn is_b64(s: Seq<char>) -> bool {
    forall|i: int| 0 <= i < s.len() ==> s[i] == '=' || b64_value(#[trigger] s[i]).is_some()
}

/// How many whole bytes `m` base64 characters carry.
pub open spec fn b64_decoded_len(m: nat) -> nat {
    m / 4 * 3 + if m % 4 <= 1 {
        0nat
    } else {
        (m % 4 - 1) as nat
    }
}

/// Byte `j` of what the base64 characters `t` carry.
pub open spec fn b64_decoded_byte(t: Seq<char>, j: int) -> u8 {
    let i = j / 3 * 4;
    if j % 3 == 0 {
        (b64_value(t[i]).unwrap() << 2) | (b64_value(t[i + 1]).unwrap() >> 4)
    } else if j % 3 == 1 {
        ((b64_value(t[i + 1]).unwrap() & 15) << 4) | (b64_value(t[i + 2]).unwrap() >> 2)
    } else {
        ((b64_value(t[i + 2]).unwrap() & 3) << 6) | b64_value(t[i + 3]).unwrap()
    }
}

/// The bytes that base64 characters, without any `=`, carry. Bits that do
/// not fill a byte at the end are dropped.
pub open spec fn b64_bytes(t: Seq<char>) -> Seq<u8> {
    Seq::new(b64_decoded_len(t.len()), |j: int| b64_decoded_byte(t, j))
}

/// What decoding makes of a base64 text: `=` is passed over wherever it
/// stands, a character outside the alphabet makes the text invalid, and the
/// others give the bytes.
pub open spec fn from_b64_spec(s: Seq<char>) -> Result<Seq<u8>, Error> {
    if is_b64(s) {
        Ok(b64_bytes(strip_padding(s)))
    } else {
        Err(Error::DecodeError)
    }
}

/// The base64 character for a value below 64.
fn b64_char_of(n: u8) -> (c: char)
    requires
        n < 64,
    ensures
        c == b64_char(n),
{
    if n < 26 {
        (0x41 + n) as char
    } else if n < 52 {
        (0x47 + n) as char
    } else if n < 62 {
        (n - 4) as char
    } else if n == 62 {
        '+'
    } else {
        '/'
    }
}

/// The value of an ASCII byte read as a base64 character.
fn b64_value_of(b: u8) -> (r: Option<u8>)
    requires
        b < 128,
    ensures
        r == b64_value(b as char),
        r matches Some(v) ==> v < 64,
{
    if b >= 0x41 && b <= 0x5a {
        Some(b - 0x41)
    } else if b >= 0x61 && b <= 0x7a {
        Some(b - 0x47)
    } else if b >= 0x30 && b <= 0x39 {
        Some(b + 4)
    } else if b == 0x2b {
        Some(62)
    } else if b == 0x2f {
        Some(63)
    } else {
        None
    }
}

/// Writes bytes as base64 text.
pub fn to_b64(bytes: &[u8]) -> (r: String)
    ensures
        r@ == to_b64_spec(bytes@),
{
    let mut b64 = String::new();
    let n: usize = bytes.len();
    let groups: usize = n / 3;
    for g in 0..groups
        invariant
            n == bytes@.len(),
            groups == n / 3,
            b64@.len() == 4 * g,
            forall|k: int| 0 <= k < 4 * g ==> b64@[k] == b64_char(sextet(bytes@, k)),
    {
        let b0 = bytes[3 * g];
        let b1 = bytes[3 * g + 1];
        let b2 = bytes[3 * g + 2];
        assert(b0 >> 2 < 64 && ((b0 & 3) << 4) | (b1 >> 4) < 64 && ((b1 & 15) << 2) | (b2 >> 6) < 64
            && b2 & 63 < 64) by (bit_vector);
        b64.push(b64_char_of(b0 >> 2));
        b64.push(b64_char_of(((b0 & 3) << 4) | (b1 >> 4)));
        b64.push(b64_char_of(((b1 & 15) << 2) | (b2 >> 6)));
        b64.push(b64_char_of(b2 & 63));
        assert forall|k: int| 4 * g <= k < 4 * g + 4 implies b64@[k] == b64_char(
            sextet(bytes@, k),
        ) by {
            assert(k / 4 == g && k % 4 == k - 4 * g);
        }
    }
    let paddings: usize = n % 3;
    if paddings == 1 {
        let b0 = bytes[n - 1];
        assert(b0 >> 2 < 64 && (b0 & 3) << 4 < 64 && ((b0 & 3) << 4) | (0u8 >> 4) == (b0 & 3) << 4)
            by (bit_vector);
        b64.push(b64_char_of(b0 >> 2));
        b64.push(b64_char_of((b0 & 3) << 4));
        b64.push('=');
        b64.push('=');
    } else if paddings == 2 {
        let b0 = bytes[n - 2];
        let b1 = bytes[n - 1];
        assert(b0 >> 2 < 64 && ((b0 & 3) << 4) | (b1 >> 4) < 64 && (b1 & 15) << 2 < 64 && ((b1
            & 15) << 2) | (0u8 >> 6) == (b1 & 15) << 2) by (bit_vector);
        b64.push(b64_char_of(b0 >> 2));
        b64.push(b64_char_of(((b0 & 3) << 4) | (b1 >> 4)));
        b64.push(b64_char_of((b1 & 15) << 2));
        b64.push('=');
    }
    assert forall|k: int| 0 <= k < b64@.len() implies b64@[k] == to_b64_spec(bytes@)[k] by {
        if k >= 4 * groups {
            assert(k / 4 == groups && k % 4 == k - 4 * groups);
        }
    }
    assert(b64@ =~= to_b64_spec(bytes@));
    b64
}

/// Reads base64 text. `=` is passed over wherever it stands; a character
/// outside the alphabet makes the text invalid.
pub fn from_b64(s: &str) -> (r: Result<Vec<u8>, Error>)
    ensures
        match r {
            Ok(v) => from_b64_spec(s@) == Ok::<Seq<u8>, Error>(v@),
            Err(e) => from_b64_spec(s@) == Err::<Seq<u8>, Error>(e),
        },
{
    if !s.is_ascii() {
        return Err(Error::DecodeError);
    }
    let bytes = s.as_bytes();
    proof {
        is_ascii_spec_bytes(s);
        is_ascii_chars_nat_bound(s@);
    }
    let mut v: Vec<u8> = Vec::new();
    let mut phase: u8 = 0;
    let mut p: u8 = 0;
    for i in 0..bytes.len()
        invariant
            is_ascii_chars(s@),
            bytes@.len() == s@.len(),
            forall|j: int| 0 <= j < s@.len() ==> bytes@[j] == s@[j] as u8,
            is_b64(s@.take(i as int)),
            is_b64(strip_padding(s@.take(i as int))),
            phase == strip_padding(s@.take(i as int)).len() % 4,
            v@ == b64_bytes(strip_padding(s@.take(i as int))),
            p < 64,
            phase == 1 ==> p == b64_value(strip_padding(s@.take(i as int)).last()).unwrap(),
            phase == 2 ==> p == b64_value(strip_padding(s@.take(i as int)).last()).unwrap() & 15,
            phase == 3 ==> p == b64_value(strip_padding(s@.take(i as int)).last()).unwrap() & 3,
    {
        let c = bytes[i];
        let ghost before = strip_padding(s@.take(i as int));
        let ghost after = strip_padding(s@.take(i + 1));
        proof {
            assert(s@.take(i + 1).drop_last() =~= s@.take(i as int));
            assert(s@.take(i + 1).last() == s@[i as int]);
            assert(c as char == s@[i as int]);
        }
        if c != 0x3d {
            match b64_value_of(c) {
                None => {
                    assert(!is_b64(s@));
                    return Err(Error::DecodeError);
                },
                Some(x) => {
                    proof {
                        assert(after == before.push(s@[i as int]));
                        assert(is_b64(after));
                    }
                    if phase == 0 {
                        p = x;
                        assert(b64_bytes(after) =~= b64_bytes(before));
                    } else if phase == 1 {
                        assert(p << 2 == (p << 2) & 0xfc && x >> 4 < 16 && x & 15 < 64)
                            by (bit_vector);
                        v.push((p << 2) | (x >> 4));
                        p = x & 15;
                        assert(v@ =~= b64_bytes(after));
                    } else if phase == 2 {
                        assert(x & 3 < 64) by (bit_vector);
                        v.push((p << 4) | (x >> 2));
                        p = x & 3;
                        assert(v@ =~= b64_bytes(after));
                    } else {
                        v.push((p << 6) | x);
                        p = 0;
                        assert(v@ =~= b64_bytes(after));
                    }
                    phase = (phase + 1) % 4;
                },
            }
        } else {
            assert(after == before);
        }
        assert(is_b64(s@.take(i + 1)));
    }
    assert(s@.take(s@.len() as int) =~= s@);
    Ok(v)
}

/// Every character of the alphabet has the value it was chosen for, and
/// none of them is `=`.
proof fn lemma_b64_value_of_char(n: u8)
    requires
        n < 64,
    ensures
        b64_char(n) != '=',
        b64_value(b64_char(n)) == Some(n),
{
}

/// A group of six bits is a value below 64.
proof fn lemma_sextet_bound(b: Seq<u8>, k: int)
    ensures
        sextet(b, k) < 64,
{
    let i = k / 4 * 3;
    let x = b[i];
    let y = byte_or_zero(b, i + 1);
    let z = byte_or_zero(b, i + 2);
    assert(x >> 2 < 64 && ((x & 3) << 4) | (y >> 4) < 64 && ((y & 15) << 2) | (z >> 6) < 64 && z
        & 63 < 64) by (bit_vector);
}

/// Where all the `=` of a text stand at its end, stripping them leaves the
/// part before them.
proof fn lemma_strip_trailing_padding(s: Seq<char>, d: int)
    requires
        0 <= d <= s.len(),
        forall|k: int| 0 <= k < d ==> s[k] != '=',
        forall|k: int| d <= k < s.len() ==> s[k] == '=',
    ensures
        strip_padding(s) == s.take(d),
    decreases s.len(),
{
    if s.len() == 0 {
        assert(s.take(d) =~= s);
    } else if d == s.len() {
        lemma_strip_trailing_padding(s.drop_last(), d - 1);
        assert(s.drop_last().take(d - 1).push(s.last()) =~= s.take(d));
    } else {
        lemma_strip_trailing_padding(s.drop_last(), d);
        assert(s.drop_last().take(d) =~= s.take(d));
    }
}

/// Decoding the base64 text of any byte string gives the byte string back.
pub proof fn lemma_b64_round_trip(b: Seq<u8>)
    ensures
        from_b64_spec(to_b64_spec(b)) == Ok::<Seq<u8>, Error>(b),
{
    let text = to_b64_spec(b);
    let d = b64_data_len(b.len()) as int;
    assert forall|k: int| 0 <= k < d implies text[k] != '=' && b64_value(#[trigger] text[k])
        == Some(sextet(b, k)) by {
        lemma_sextet_bound(b, k);
        lemma_b64_value_of_char(sextet(b, k));
    }
    assert(is_b64(text));
    lemma_strip_trailing_padding(text, d);
    let t = strip_padding(text);
    assert(t.len() == d);
    assert(b64_decoded_len(t.len()) == b.len());
    assert forall|j: int| 0 <= j < b.len() implies b64_decoded_byte(t, j) == b[j] by {
        let i = j / 3 * 4;
        let q = j / 3 * 3;
        let x = b[q];
        let y = byte_or_zero(b, q + 1);
        let z = byte_or_zero(b, q + 2);
        assert(t[i] == text[i] && t[i + 1] == text[i + 1]);
        assert(i / 4 * 3 == q && (i + 1) / 4 * 3 == q && (i + 2) / 4 * 3 == q && (i + 3) / 4 * 3
            == q);
        assert(i % 4 == 0 && (i + 1) % 4 == 1 && (i + 2) % 4 == 2 && (i + 3) % 4 == 3);
        if j % 3 == 0 {
            assert(((x >> 2) << 2) | ((((x & 3) << 4) | (y >> 4)) >> 4) == x) by (bit_vector);
        } else if j % 3 == 1 {
            assert(t[i + 2] == text[i + 2]);
            assert((((((x & 3) << 4) | (y >> 4)) & 15) << 4) | ((((y & 15) << 2) | (z >> 6)) >> 2)
                == y) by (bit_vector);
        } else {
            assert(t[i + 2] == text[i + 2] && t[i + 3] == text[i + 3]);
            assert((((((y & 15) << 2) | (z >> 6)) & 3) << 6) | (z & 63) == z) by (bit_vector);
        }
    }
    assert(b64_bytes(t) =~= b);
}

} // verus!
