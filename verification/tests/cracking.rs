use cryptkit::basics::{get_letter_count, repeating_key_xor, single_xor, ENG_FREQ};
use cryptkit::conversion::{from_b64, to_b64};
use cryptkit::cracking::{
    best_single_xor, find_repeated_xor_key, guess_key_size, pick_best, score_candidates, Solver,
};
use cryptkit::error::Error;

const QUOTE: &str = "Alice was beginning to get very tired of sitting by her sister on the bank, and
    of having nothing to do: once or twice she had peeped into the book her sister was reading,
    but it had no pictures or conversations in it, `and what is the use of a book,' thought
    Alice `without pictures or conversation?' So she was considering in her own mind (as well
    as she could, for the hot day made her feel very sleepy and stupid), whether the pleasure
    of making a daisy-chain would be worth the trouble of getting up and picking the daisies,
    when suddenly a White Rabbit with pink eyes ran close by her.  There was nothing so very
    remarkable in that; nor did Alice think it so very much out of the way to hear the Rabbit
    say to itself, `Oh dear! Oh dear! I shall be late!' (when she thought it over afterwards,
    it occurred to her that she ought to have wondered at this, but at the time it all seemed
    quite natural); but when the Rabbit actually took a watch out of its waistcoat-pocket, and
    looked at it, and then hurried on, Alice started to her feet, for it flashed across her
    mind that she had never before seen a rabbit with either a waistcoat-pocket, or a watch to
    take out of it, and burning with curiosity, she ran across the field after it, and
    fortunately was just in time to see it pop down a large rabbit-hole under the hedge.";

/// The likeness of a text's letters to English: the sum over the letters of
/// the square root of expected share times observed share, in millionths.
fn likeness(text: &[u8]) -> Result<i64, Error> {
    let mut len = 0;
    let counts = get_letter_count(text, &mut len)?;
    let mut sum: f32 = 0.0;
    for (i, c) in counts.iter().enumerate() {
        sum += f32::sqrt(ENG_FREQ[i] as f32 / 100_000.0 * *c as f32 / len as f32);
    }
    if sum.is_nan() {
        return Err(Error::LengthMismatch);
    }
    Ok((sum * 1_000_000.0) as i64)
}

/// A scorer that goes by the first byte of a text alone, as the table says.
fn by_first_byte(table: Vec<(u8, Result<i64, Error>)>) -> impl Fn(&[u8]) -> Result<i64, Error> {
    move |text: &[u8]| {
        for (b, s) in table.iter() {
            if text.first() == Some(b) {
                return *s;
            }
        }
        Ok(0)
    }
}

#[test]
fn guess_repeated_xor() {
    let quote = QUOTE;
    let msg = quote.as_bytes();

    let key = [0x11, 0x23, 0x3f, 0xf9, 0x82, 0x12, 0x99, 0x22];
    let cipher = repeating_key_xor(&msg, &key);
    assert!(guess_key_size(&cipher).contains(&key.len()));
}

#[test]
fn key_sizes_of_the_known_text() {
    let key = [0x11, 0x23, 0x3f, 0xf9, 0x82, 0x12, 0x99, 0x22];
    let cipher = repeating_key_xor(QUOTE.as_bytes(), &key);
    assert_eq!(vec![8, 16, 24, 32, 40], guess_key_size(&cipher));
}

#[test]
fn short_text_keeps_the_first_guess() {
    // No size from 2 to 40 finds two whole chunks: the text itself stays.
    assert_eq!(vec![0], guess_key_size(&[]));
    assert_eq!(vec![1], guess_key_size(&[0x55]));
    assert_eq!(vec![3], guess_key_size(&[1, 2, 3]));
}

#[test]
fn metric_of_a_single_pair() {
    // Size 2 on four bytes: one pair, distance 16 over 2 bytes, which is
    // the worst metric and joins the first guess.
    assert_eq!(vec![4, 2], guess_key_size(&[0x00, 0x00, 0xff, 0xff]));
    // Distance 0: better than the first guess by more than a tenth.
    assert_eq!(vec![2], guess_key_size(&[0xab, 0xcd, 0xab, 0xcd]));
    // Distance 15 of 16: 7.5 bits per byte is within a tenth of 8.
    assert_eq!(vec![4, 2], guess_key_size(&[0x00, 0x00, 0xff, 0xfe]));
    // Distance 14 of 16: 7 bits per byte is not.
    assert_eq!(vec![2], guess_key_size(&[0x00, 0x00, 0xff, 0xfc]));
}

#[test]
fn a_zero_average_admits_no_other_size() {
    // All bytes equal: size 2 has metric 0 and replaces the first guess;
    // every later size has metric 0 too, which is not less than 0 and not
    // within a tenth of it.
    assert_eq!(vec![2], guess_key_size(&[7u8; 200]));
}

#[test]
fn leftover_chunks_are_not_paired() {
    // Seven bytes hold one pair of chunks of 2 and one of 3; the rest is
    // left out whatever it holds.
    let a = guess_key_size(&[1, 2, 1, 2, 9, 9, 9]);
    let b = guess_key_size(&[1, 2, 1, 2, 0, 0, 0]);
    assert_eq!(vec![2], a);
    assert_eq!(vec![2], b);
}

#[test]
fn single_byte_key_is_recovered() {
    let text = b"Cooking MC's like a pound of bacon";
    let cipher = single_xor(text, 0x58);
    let found = Solver::guess_single_xor(&cipher, likeness);
    assert_eq!(0x58, found.key);
    assert_eq!(to_b64(text), found.correct);
    assert_eq!(Ok(text.to_vec()), from_b64(&found.correct));
    assert!(found.proba > 0);
    assert_eq!(likeness(text), Ok(found.proba));
}

#[test]
fn search_agrees_with_its_wrapper() {
    let cipher = single_xor(b"An English sentence, short but plain.", 0xa7);
    let (key, proba, plain) = best_single_xor(&cipher, &likeness);
    let found = Solver::guess_single_xor(&cipher, likeness);
    assert_eq!(0xa7, key);
    assert_eq!(b"An English sentence, short but plain.".to_vec(), plain);
    assert_eq!(found.key, key);
    assert_eq!(found.proba, proba);
    assert_eq!(found.correct, to_b64(&plain));
}

#[test]
fn first_of_equal_maxima_wins() {
    // The text is the one byte 0, so candidate k is the text [k].
    let scorer = by_first_byte(vec![(9, Ok(5)), (3, Ok(7)), (200, Ok(7)), (4, Ok(6))]);
    let found = Solver::guess_single_xor(&[0], scorer);
    assert_eq!(3, found.key);
    assert_eq!(7, found.proba);
    assert_eq!(to_b64(&[3]), found.correct);
}

#[test]
fn nothing_wins_at_or_below_zero() {
    let scorer = by_first_byte(vec![(9, Ok(0)), (3, Ok(-7)), (200, Ok(i64::MIN))]);
    let found = Solver::guess_single_xor(&[0], scorer);
    assert_eq!(0, found.key);
    assert_eq!(0, found.proba);
    assert_eq!("", found.correct);
}

#[test]
fn unscorable_candidates_are_passed_over() {
    let scorer = by_first_byte(vec![
        (0, Err(Error::InvalidByte)),
        (1, Err(Error::DecodeError)),
        (2, Ok(1)),
        (3, Err(Error::LengthMismatch)),
        (255, Ok(2)),
    ]);
    let found = Solver::guess_single_xor(&[0], scorer);
    assert_eq!(255, found.key);
    assert_eq!(2, found.proba);
}

#[test]
fn search_on_an_empty_text() {
    let found = Solver::guess_single_xor(&[], likeness);
    assert_eq!(0, found.key);
    assert_eq!(0, found.proba);
    assert_eq!("", found.correct);
}

#[test]
fn repeating_key_is_recovered() {
    let key = [0x11, 0x23, 0x3f, 0xf9, 0x82, 0x12, 0x99, 0x22];
    let cipher = repeating_key_xor(QUOTE.as_bytes(), &key);
    let found = find_repeated_xor_key(&cipher, key.len(), likeness);
    assert_eq!(key.to_vec(), found);
    assert_eq!(QUOTE.as_bytes().to_vec(), repeating_key_xor(&cipher, &found));
}

#[test]
fn key_has_one_byte_per_column() {
    // Column p holds the bytes at p, p + 3, p + 6; each column picks the
    // key byte that turns its first byte into 'e'.
    let cipher = [b'e' ^ 1, b'e' ^ 2, b'e' ^ 3, 0, 0, 0, 0];
    assert_eq!(vec![1, 2, 3], find_repeated_xor_key(&cipher, 3, by_first_byte(vec![(b'e', Ok(1))])));
    assert_eq!(
        Vec::<u8>::new(),
        find_repeated_xor_key(&cipher, 0, by_first_byte(vec![(b'e', Ok(1))]))
    );
    // Columns beyond the text are empty and give key byte 0.
    assert_eq!(
        vec![b'e' ^ 9, 0, 0],
        find_repeated_xor_key(&[9], 3, by_first_byte(vec![(b'e', Ok(1))]))
    );
}

#[test]
fn candidates_are_scored_in_key_order() {
    // Each candidate is scored by its first byte, which is the key itself.
    let scores = score_candidates(&[0], &|text: &[u8]| Ok(text[0] as i64 - 100));
    assert_eq!(256, scores.len());
    assert_eq!(Ok(-100), scores[0]);
    assert_eq!(Ok(0), scores[100]);
    assert_eq!(Ok(155), scores[255]);
    let scores = score_candidates(&[0x0f, 0xf0], &|text: &[u8]| {
        if text[0] == text[1] { Err(Error::InvalidByte) } else { Ok((text[0] ^ text[1]) as i64) }
    });
    assert!(scores.iter().all(|s| *s == Ok(0xff)));
}

#[test]
fn winner_among_scores() {
    assert_eq!((0, 0), pick_best(&[]));
    assert_eq!((0, 0), pick_best(&[Ok(0), Ok(-1), Err(Error::InvalidByte)]));
    assert_eq!((1, 4), pick_best(&[Ok(3), Ok(4), Ok(4), Ok(2)]));
    assert_eq!((2, 1), pick_best(&[Err(Error::InvalidByte), Ok(0), Ok(1)]));
    assert_eq!((0, i64::MAX), pick_best(&[Ok(i64::MAX), Ok(i64::MAX)]));
    assert_eq!((0, 0), pick_best(&[Ok(i64::MIN)]));
}

#[test]
fn column_wise_search_undoes_the_cipher() {
    let text = b"It was the best of times, it was the worst of times, it was the age of wisdom, \
it was the age of foolishness, it was the epoch of belief, it was the epoch of incredulity, \
it was the season of Light, it was the season of Darkness, it was the spring of hope";
    let key = b"ICE";
    let cipher = repeating_key_xor(text, key);
    let found = find_repeated_xor_key(&cipher, 3, likeness);
    assert_eq!(key.to_vec(), found);
    assert_eq!(text.to_vec(), repeating_key_xor(&cipher, &found));
}
