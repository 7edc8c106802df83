use std::collections::HashMap;

use cryptkit::basics::{
    count_bits, get_letter_count, hamming_distance, repeating_key_xor, single_xor, xor, ENG_FREQ,
};
use cryptkit::conversion::hex_encode;
use cryptkit::error::Error;

#[test]
fn distance() {
    let s = "this is a test";
    let s2 = "wokka wokka!!!";

    let result = 37;
    assert_eq!(result, hamming_distance(s.as_bytes(), s2.as_bytes()));
}

#[test]
fn xor_len() {
    let v1 = vec![0x58, 0x65, 0xde, 0xa5, 0xff];
    let v2 = vec![0x74, 0x68, 0x69, 0x73, 0x20, 0x69, 0x73, 0x20, 0x73, 0x6f,
                  0x6d, 0x65, 0x20, 0x74, 0x65, 0x78, 0x74, 0x21];
    let result = Err("length not equal of params");

    assert_eq!(Err(Error::LengthMismatch), xor(&v1, &v2));
    assert_eq!(result, xor(&v1, &v2).map_err(|e| e.message()));
}

#[test]
fn xor_pass() {
    let v1 = vec![0x58, 0x65, 0xde, 0xa5, 0xff];
    let v2 = vec![0x74, 0x68, 0x69, 0x73, 0x20];
    let result = vec![0x2c, 0xd, 0xb7, 0xd6, 0xdf];

    assert_eq!(Ok(result), xor(&v1, &v2));
}

#[test]
fn letter_count() {
    let text = "most of these exercises should take only a couple minutes";
    let mut len = 0;
    let exp_len: u32 = (text.len() - 9) as u32;
    let mut result: HashMap<u8, u32> = HashMap::new();
    result.insert(0, 2);
    result.insert(1, 0);
    result.insert(2, 2);
    result.insert(3, 1);
    result.insert(4, 8);
    result.insert(5, 1);
    result.insert(6, 0);
    result.insert(7, 2);
    result.insert(8, 2);
    result.insert(9, 0);
    result.insert(10, 1);
    result.insert(11, 3);
    result.insert(12, 2);
    result.insert(13, 2);
    result.insert(14, 5);
    result.insert(15, 1);
    result.insert(16, 0);
    result.insert(17, 1);
    result.insert(18, 6);
    result.insert(19, 4);
    result.insert(20, 3);
    result.insert(21, 0);
    result.insert(22, 0);
    result.insert(23, 1);
    result.insert(24, 1);
    result.insert(25, 0);

    let counts = get_letter_count(text.as_bytes(), &mut len).unwrap();
    let found: HashMap<u8, u32> = counts.iter().enumerate().map(|(i, c)| (i as u8, *c)).collect();
    assert_eq!(result, found);
    assert_eq!(exp_len, len);
}

#[test]
fn repeat_xor() {

    let text = "Burning 'em, if you ain't quick and nimble
I go crazy when I hear a cymbal";
    let key = "ICE";

    let result = "0b3637272a2b2e63622c2e69692a23693a2a3c6324202d623d63343c2a26226324272765272a282b2f20430a652e2c652a3124333a653e2b2027630c692b20283165286326302e27282f";

    assert_eq!(result, hex_encode(&repeating_key_xor(text.as_bytes(), key.as_bytes())));
}

#[test]
fn xor_of_empty_inputs() {
    assert_eq!(Ok(vec![]), xor(&[], &[]));
    assert_eq!(Vec::<u8>::new(), single_xor(&[], 0x55));
    assert_eq!(Vec::<u8>::new(), repeating_key_xor(&[], &[]));
    assert_eq!(Vec::<u8>::new(), repeating_key_xor(&[], &[1, 2]));
}

#[test]
fn single_xor_flips_with_one_byte() {
    assert_eq!(vec![0xff, 0x00, 0xf0, 0x5a], single_xor(&[0x00, 0xff, 0x0f, 0xa5], 0xff));
    assert_eq!(vec![1, 2, 3], single_xor(&[1, 2, 3], 0));
    let text = b"attack at dawn";
    assert_eq!(text.to_vec(), single_xor(&single_xor(text, 0x3c), 0x3c));
}

#[test]
fn repeating_key_wraps_around() {
    assert_eq!(vec![0x01 ^ 0xaa, 0x02 ^ 0xbb, 0x03 ^ 0xaa, 0x04 ^ 0xbb, 0x05 ^ 0xaa],
               repeating_key_xor(&[1, 2, 3, 4, 5], &[0xaa, 0xbb]));
    // A key longer than the text is used only as far as the text goes.
    assert_eq!(vec![0x10 ^ 1, 0x20 ^ 2], repeating_key_xor(&[0x10, 0x20], &[1, 2, 3, 4]));
    // Applying the key twice gives the text back.
    let text = b"the quick brown fox";
    let once = repeating_key_xor(text, b"key");
    assert_eq!(text.to_vec(), repeating_key_xor(&once, b"key"));
}

#[test]
fn xor_twice_gives_the_first_back() {
    let a = vec![0x12, 0x34, 0x56, 0x78];
    let b = vec![0xff, 0x0f, 0xf0, 0x00];
    let once = xor(&a, &b).unwrap();
    assert_eq!(Ok(a), xor(&once, &b));
}

#[test]
fn bits_of_a_byte() {
    assert_eq!(0, count_bits(0x00));
    assert_eq!(8, count_bits(0xff));
    assert_eq!(1, count_bits(0x80));
    assert_eq!(4, count_bits(0xa5));
    for x in 0..=255u8 {
        assert_eq!(x.count_ones(), count_bits(x));
    }
}

#[test]
fn distance_over_the_shorter_input() {
    assert_eq!(0, hamming_distance(&[], &[]));
    assert_eq!(0, hamming_distance(&[0xff, 0xff], &[]));
    assert_eq!(8, hamming_distance(&[0xff, 0xff], &[0x00]));
    assert_eq!(16, hamming_distance(&[0xff, 0xff], &[0x00, 0x00, 0x00]));
    assert_eq!(3, hamming_distance(&[0b1011], &[0b0000]));
    assert_eq!(0, hamming_distance(b"same", b"same"));
}

#[test]
fn letters_without_regard_to_case() {
    let mut len = 0;
    let counts = get_letter_count(b"AaZz \t\r\n!~", &mut len).unwrap();
    assert_eq!(2, counts[0]);
    assert_eq!(2, counts[25]);
    assert_eq!(4, counts.iter().sum::<u32>());
    assert_eq!(4, len);
}

#[test]
fn histogram_accounts_for_every_byte() {
    let text = b"Hello, World! 123\n";
    let mut len = 0;
    let counts = get_letter_count(text, &mut len).unwrap();
    let letters: u32 = counts.iter().sum();
    assert_eq!(10, letters);
    assert_eq!(letters, len);
    let ordinary = text.iter().filter(|b| !b.is_ascii_alphabetic()).count() as u32;
    assert_eq!(text.len() as u32, letters + ordinary);
}

#[test]
fn empty_text_has_an_empty_histogram() {
    let mut len = 77;
    assert_eq!(Ok([0u32; 26]), get_letter_count(&[], &mut len));
    assert_eq!(0, len);
}

#[test]
fn invalid_byte_is_reported() {
    let mut len = 0;
    assert_eq!(Err(Error::InvalidByte), get_letter_count(&[b'a', 0x00, b'b'], &mut len));
    assert_eq!(Err(Error::InvalidByte), get_letter_count(&[0x80], &mut len));
    assert_eq!(Err(Error::InvalidByte), get_letter_count(&[0x7f], &mut len));
    assert_eq!(Err(Error::InvalidByte), get_letter_count(&[31], &mut len));
    assert_eq!(Err(Error::InvalidByte), get_letter_count(&[11], &mut len));
    assert_eq!(
        Err("Impossible Charactere sequence"),
        get_letter_count(&[0xff], &mut len).map_err(|e| e.message())
    );
}

#[test]
fn length_on_failure_counts_the_bytes_before() {
    // Two ordinary bytes come before the invalid one: 6 - 2.
    let mut len = 0;
    assert_eq!(Err(Error::InvalidByte), get_letter_count(b"a, \x01,,", &mut len));
    assert_eq!(4, len);
}

#[test]
fn boundaries_of_the_byte_classes() {
    let mut len = 0;
    // '@' and '[' surround the capitals, '`' and '{' the small letters.
    let counts = get_letter_count(b"@[`{", &mut len).unwrap();
    assert_eq!([0u32; 26], counts);
    assert_eq!(0, len);
    let counts = get_letter_count(&[32, 126, 9, 10, 13], &mut len).unwrap();
    assert_eq!([0u32; 26], counts);
    assert_eq!(0, len);
}

#[test]
fn frequencies_sum_to_about_one() {
    let total: u32 = ENG_FREQ.iter().sum();
    assert_eq!(99_999, total);
    assert_eq!(12_702, ENG_FREQ[4]);
    assert_eq!(74, ENG_FREQ[25]);
}
