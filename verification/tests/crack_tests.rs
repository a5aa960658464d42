//! Frequency, slicing and column-cracker tests.

use shiftcrack::ciphers::{Cipher, Encryptor};
use shiftcrack::crack::{best_crack, crack, slice, unslice, CrackResult};
use shiftcrack::dict::Dictionary;
use shiftcrack::freq::{Frequencies, FREQ_SCALE};
use shiftcrack::gen::Generator;
use shiftcrack::rng::Rng;
use shiftcrack::schedulers::RepeatingKey;
use shiftcrack::utils::str_to_bytes;

const WORDBANK: &str = "the quick brown fox jumps over lazy dog when morning light breaks \
    across quiet fields and small birds gather near tall trees while rivers run cold past \
    stone walls under grey skies every path leads home again";

#[test]
fn slice_unslice_round_trip() {
    let ct = str_to_bytes("the quick brown fox jumps over the lazy dog");
    for p in 1..=12usize {
        let blocks = slice(&ct, p);
        assert_eq!(blocks.len(), p);
        let total: usize = blocks.iter().map(|b| b.len()).sum();
        assert_eq!(total, ct.len());
        let back = unslice(blocks, p);
        assert_eq!(back, ct);
    }
}

#[test]
fn slice_assigns_by_residue() {
    let ct: Vec<u8> = (0u8..12).collect();
    let blocks = slice(&ct, 5);
    assert_eq!(blocks[0], vec![0u8, 5, 10]);
    assert_eq!(blocks[1], vec![1u8, 6, 11]);
    assert_eq!(blocks[2], vec![2u8, 7]);
    assert_eq!(blocks[4], vec![4u8, 9]);
}

#[test]
fn freq_sums_to_scale() {
    let bytes = str_to_bytes("abac abba cab");
    let f = Frequencies::from_bytes(&bytes);
    let total: u64 = f.values.iter().sum();
    assert!(total <= FREQ_SCALE);
    assert!(total > FREQ_SCALE - 27);
}

#[test]
fn freq_compare_self_is_zero() {
    let s = String::from(WORDBANK);
    let dict = Dictionary::from_string(&s);
    let f = Frequencies::from_dict(&dict);
    assert_eq!(f.compare(&f), 0);
}

#[test]
fn freq_compare_symmetric() {
    let f = Frequencies::from_bytes(&str_to_bytes("aaa bbb"));
    let g = Frequencies::from_bytes(&str_to_bytes("abc xyz"));
    assert_eq!(f.compare(&g), g.compare(&f));
    assert!(f.compare(&g) > 0);
}

#[test]
fn freq_empty_input_is_all_zero() {
    let f = Frequencies::from_bytes(&[]);
    assert!(f.values.iter().all(|v| *v == 0));
}

#[test]
fn crack_recovers_correct_period_plaintext() {
    // a simple periodic-key ciphertext cracked at its true period comes
    // back exactly, with no injection present
    let s = String::from(WORDBANK);
    let dict = Dictionary::from_string(&s);
    let baseline = Frequencies::from_dict(&dict);
    let mut gen = Generator::with_dict(&dict);
    let plaintext = str_to_bytes(&gen.generate_words(200));

    let key = vec![10, 10, 12, 1, 2, 3, 4];
    let mut enc = Encryptor::new(key, RepeatingKey, Rng::default());
    let ciphertext = enc.encrypt(&plaintext);

    let res = crack(&ciphertext, 7, &baseline);
    assert_eq!(res.plaintext, plaintext);
}

#[test]
fn best_crack_takes_smallest_confidence() {
    let rs = vec![
        CrackResult { plaintext: str_to_bytes("abc"), confidence: 9 },
        CrackResult { plaintext: str_to_bytes("def"), confidence: 2 },
        CrackResult { plaintext: str_to_bytes("ghi"), confidence: 2 },
        CrackResult { plaintext: str_to_bytes("jkl"), confidence: 5 },
    ];
    let best = best_crack(&rs);
    assert_eq!(best.plaintext, str_to_bytes("def"));
    assert_eq!(best.confidence, 2);
}
