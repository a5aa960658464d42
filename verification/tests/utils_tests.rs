//! Alphabet arithmetic and conversion tests.

use shiftcrack::utils::{bytes_to_str, reduce_key, str_to_bytes, CharToNum, NumToChar, Shift};

#[test]
fn shiftchar() {
    // positive shift
    assert_eq!('a'.shift(13), 'n');
    assert_eq!('a'.shift(13 + 27), 'n');
    assert_eq!('a'.shift(13 + 27 * 2), 'n');
    assert_eq!('a'.shift(13 + 27 * 3), 'n');
    assert_eq!('a'.shift(13 + 27 * 4), 'n');

    // negative shift
    assert_eq!('a'.shift(-14), 'n');
    assert_eq!('a'.shift(-14 - 27), 'n');
    assert_eq!('a'.shift(-14 - 27 * 2), 'n');
    assert_eq!('a'.shift(-14 - 27 * 3), 'n');
    assert_eq!('a'.shift(-14 - 27 * 4), 'n');
    assert_eq!('a'.shift(-14 - 27 * 4), 'n');
}

#[test]
fn encode_decode_round_trip() {
    for ch in "abcdefghijklmnopqrstuvwxyz ".chars() {
        assert_eq!(ch.to_num().to_char(), ch);
    }
    for s in 0u8..27 {
        assert_eq!(s.to_char().to_num(), s);
    }
}

#[test]
fn shift_round_trip() {
    for s in 0u8..27 {
        for k in -100i8..100 {
            assert_eq!(s.shift(k).shift(-k), s);
        }
    }
}

#[test]
fn key_reduce_idempotent() {
    let mut once: Vec<i8> = vec![-128, -27, -1, 0, 1, 26, 27, 28, 127];
    reduce_key(&mut once);
    let mut twice = once.clone();
    reduce_key(&mut twice);
    assert_eq!(once, twice);
    for k in &once {
        assert!(0 <= *k && *k < 27);
    }
}

#[test]
fn string_round_trip() {
    let text = "the quick brown fox jumps over the lazy dog";
    let bytes = str_to_bytes(text);
    assert_eq!(bytes.len(), text.len());
    assert_eq!(bytes_to_str(&bytes), text);
}
