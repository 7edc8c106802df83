use cryptkit::conversion::{from_b64, hex_decode, hex_encode, to_b64};
use cryptkit::error::Error;

#[test]
fn b64_encode() {
    let bytes = "test strings";
    let b64 = "dGVzdCBzdHJpbmdz";

    assert_eq!(b64.to_string(), to_b64(bytes.as_bytes()));

    let bytes = "another strings";
    let b64 = "YW5vdGhlciBzdHJpbmdz";

    assert_eq!(b64.to_string(), to_b64(bytes.as_bytes()));

    let bytes = "the last strings";
    let b64 = "dGhlIGxhc3Qgc3RyaW5ncw==";

    assert_eq!(b64.to_string(), to_b64(bytes.as_bytes()));
}

#[test]
fn b64_decode() {
    let bytes = "test strings";
    let b64 = "dGVzdCBzdHJpbmdz";

    assert_eq!(Ok(bytes.as_bytes().to_vec()), from_b64(b64));

    let bytes = "another strings";
    let b64 = "YW5vdGhlciBzdHJpbmdz";

    assert_eq!(Ok(bytes.as_bytes().to_vec()), from_b64(b64));

    let bytes = "the last strings";
    let b64 = "dGhlIGxhc3Qgc3RyaW5ncw==";

    assert_eq!(Ok(bytes.as_bytes().to_vec()), from_b64(b64));
}

#[test]
fn decode_hex() {
    let hex = "54f2a2df15";
    let result = vec![0x54, 0xf2, 0xa2, 0xdf, 0x15];

    assert_eq!(Some(result), hex_decode(hex));

    let hex = "654d8da45d7d9a3ef";
    let result = None;

    assert_eq!(result, hex_decode(hex));

    let hex = "3215thisissometext";
    let result = None;

    assert_eq!(result, hex_decode(hex));
}

#[test]
fn encode_hex() {
    let bytes = "this is some text!".as_bytes();
    let result = "7468697320697320736f6d65207465787421";

    assert_eq!(result.to_string(), hex_encode(bytes));

    let bytes = vec![0x58, 0x65, 0xde, 0xa5, 0xff, 0x0a];
    let result = "5865dea5ff0a";

    assert_eq!(result.to_string(), hex_encode(&bytes));
}

#[test]
fn hex_of_the_empty_string() {
    assert_eq!("", hex_encode(&[]));
    assert_eq!(Some(vec![]), hex_decode(""));
}

#[test]
fn hex_reads_both_cases() {
    assert_eq!(Some(vec![0xab, 0xcd, 0xef]), hex_decode("ABCDEF"));
    assert_eq!(Some(vec![0xab, 0xcd, 0xef]), hex_decode("aBcDeF"));
    assert_eq!(Some(vec![0x00, 0x09, 0x90, 0xff]), hex_decode("000990ff"));
}

#[test]
fn hex_rejects_what_is_no_digit() {
    assert_eq!(None, hex_decode("0g"));
    assert_eq!(None, hex_decode("0G"));
    assert_eq!(None, hex_decode(" 0"));
    assert_eq!(None, hex_decode("0x10"));
    assert_eq!(None, hex_decode("/0"));
    assert_eq!(None, hex_decode(":0"));
    assert_eq!(None, hex_decode("@0"));
    assert_eq!(None, hex_decode("`0"));
    assert_eq!(None, hex_decode("a"));
    assert_eq!(None, hex_decode("é"));
    assert_eq!(None, hex_decode("1é2"));
    assert_eq!(None, hex_decode("١٢"));
}

#[test]
fn hex_round_trip_of_every_byte() {
    let all: Vec<u8> = (0..=255u8).collect();
    let text = hex_encode(&all);
    assert_eq!(512, text.len());
    assert!(text.starts_with("000102"));
    assert!(text.ends_with("fdfeff"));
    assert_eq!(Some(all), hex_decode(&text));
}

#[test]
fn b64_pads_to_four_characters() {
    assert_eq!("", to_b64(&[]));
    assert_eq!("Zg==", to_b64(b"f"));
    assert_eq!("Zm8=", to_b64(b"fo"));
    assert_eq!("Zm9v", to_b64(b"foo"));
    assert_eq!("Zm9vYg==", to_b64(b"foob"));
    assert_eq!("Zm9vYmE=", to_b64(b"fooba"));
    assert_eq!("Zm9vYmFy", to_b64(b"foobar"));
}

#[test]
fn b64_keeps_a_last_group_of_zero_bits() {
    assert_eq!("AA==", to_b64(&[0]));
    assert_eq!("AAA=", to_b64(&[0, 0]));
    assert_eq!("AAAA", to_b64(&[0, 0, 0]));
    assert_eq!("/xA=", to_b64(&[0xff, 0x10]));
    assert_eq!("QA==", to_b64(&[0x40]));
    assert_eq!(Ok(vec![0]), from_b64("AA=="));
    assert_eq!(Ok(vec![0x40]), from_b64(&to_b64(&[0x40])));
}

#[test]
fn b64_uses_the_whole_alphabet() {
    assert_eq!("+/+/", to_b64(&[0xfb, 0xff, 0xbf]));
    assert_eq!(Ok(vec![0xfb, 0xff, 0xbf]), from_b64("+/+/"));
    let text = "ABCDEFGHIJKLMNOPQRSTUVWXYZabcdefghijklmnopqrstuvwxyz0123456789+/";
    let bytes = from_b64(text).unwrap();
    assert_eq!(48, bytes.len());
    assert_eq!([0x00, 0x10, 0x83], bytes[..3]);
    assert_eq!(text, to_b64(&bytes));
}

#[test]
fn b64_round_trip_of_every_length() {
    for n in 0..70usize {
        let bytes: Vec<u8> = (0..n).map(|i| (i * 37 + n * 11) as u8).collect();
        let text = to_b64(&bytes);
        assert_eq!((n + 2) / 3 * 4, text.len());
        assert_eq!(Ok(bytes), from_b64(&text));
    }
    let all: Vec<u8> = (0..=255u8).collect();
    assert_eq!(Ok(all.clone()), from_b64(&to_b64(&all)));
}

#[test]
fn b64_rejects_what_is_not_in_the_alphabet() {
    assert_eq!(Err(Error::DecodeError), from_b64("dGVz dA=="));
    assert_eq!(Err(Error::DecodeError), from_b64("dGVz\n"));
    assert_eq!(Err(Error::DecodeError), from_b64("-_"));
    assert_eq!(Err(Error::DecodeError), from_b64("é"));
    assert_eq!(Err(Error::DecodeError), from_b64("AA*A"));
    assert_eq!(Err("Invalid base64 sequence"), from_b64("!").map_err(|e| e.message()));
}

#[test]
fn b64_passes_over_padding_anywhere() {
    assert_eq!(Ok(b"test".to_vec()), from_b64("dGVzdA=="));
    assert_eq!(Ok(b"test".to_vec()), from_b64("dGVzdA"));
    assert_eq!(Ok(b"test".to_vec()), from_b64("=dG=Vz=dA"));
    assert_eq!(Ok(vec![]), from_b64("===="));
    assert_eq!(Ok(vec![]), from_b64(""));
}

#[test]
fn b64_drops_bits_that_fill_no_byte() {
    assert_eq!(Ok(vec![]), from_b64("Z"));
    assert_eq!(Ok(vec![0x66]), from_b64("Zg"));
    assert_eq!(Ok(vec![0x66]), from_b64("Zh"));
    assert_eq!(Ok(vec![0x66, 0x6f, 0x6f]), from_b64("Zm9vY"));
}
