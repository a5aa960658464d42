//! Keylength estimation, re-segmentation and end-to-end driver tests.

use shiftcrack::ciphers::{Cipher, Encryptor};
use shiftcrack::crack::CrackResult;
use shiftcrack::dict::{BytesDictionary, Dictionary};
use shiftcrack::driver::{accuracy, crack_single_ciphertext};
use shiftcrack::freq::{Frequencies, FREQ_SCALE};
use shiftcrack::gen::Generator;
use shiftcrack::keylength::{guesses, hamming_distance, keylength_guesses};
use shiftcrack::rng::Rng;
use shiftcrack::schedulers::{PeriodicRand, RepeatingKey};
use shiftcrack::spellcheck::spellcheck;
use shiftcrack::utils::{bytes_to_str, str_to_bytes};

const WORDBANK: &str = "the quick brown fox jumps over lazy dog when morning light breaks \
    across quiet fields and small birds gather near tall trees while rivers run cold past \
    stone walls under grey skies every path leads home again";

fn random_key(rng: &mut Rng, keylen: usize) -> Vec<i8> {
    let mut key = vec![0i8; keylen];
    for k in key.iter_mut() {
        *k = (rng.next() >> 32) as u8 as i8;
    }
    key
}

fn top_guesses(ciphertext: &[u8], n: usize) -> Vec<usize> {
    let mut keysizes = Vec::new();
    guesses(ciphertext, &mut keysizes);
    keysizes.iter().take(n).map(|(p, _)| *p).collect()
}

#[test]
fn hamming_distance_counts_bits() {
    assert_eq!(hamming_distance(&[0b1010], &[0b0101]), 4);
    assert_eq!(hamming_distance(&[0xff, 0x00], &[0x00, 0xff]), 16);
    assert_eq!(hamming_distance(&[1, 2, 3], &[1, 2, 3]), 0);
}

#[test]
fn simple_repeating_key() {
    // the true period of a plain repeating-key ciphertext ranks in the
    // top five
    let keylen = 13;
    let mut rng = Rng::default();
    let key = random_key(&mut rng, keylen);

    let s = String::from(WORDBANK);
    let dict = Dictionary::from_string(&s);
    let mut gen = Generator::with_dict(&dict);
    let plaintext = str_to_bytes(&gen.generate_words(400));

    let mut encryptor = Encryptor::new(key, RepeatingKey, rng);
    let ciphertext = encryptor.encrypt(&plaintext);

    let top = top_guesses(&ciphertext, 5);
    assert!(top.contains(&keylen), "keylength not in top 5: {:?}", top);
}

#[test]
fn rand_with_insert() {
    // inserting a random symbol every 4 positions over a period-7 key
    // makes the effective period their least common multiple, 28
    let keylen = 7;
    let mut rng = Rng::default();
    let key = random_key(&mut rng, keylen);

    let inserted_rand = PeriodicRand { period: 4, start: 6, overwrite: false };

    let s = String::from(WORDBANK);
    let dict = Dictionary::from_string(&s);
    let mut gen = Generator::with_dict(&dict);
    let plaintext = str_to_bytes(&gen.generate_words(400));

    let mut encryptor = Encryptor::new(key, inserted_rand, rng);
    let ciphertext = encryptor.encrypt(&plaintext);

    let top = top_guesses(&ciphertext, 5);
    assert!(top.contains(&28), "expected keylength 28 in top 5: {:?}", top);
}

#[test]
fn testing() {
    let newstring = String::from(
        "wordss wishes this pig the quics brown fox jumpede over the lazy dog cat lion seal fish canary sf f a fish carp sharks",
    );
    let cracked = CrackResult { plaintext: str_to_bytes(&newstring), confidence: 4000 };

    let targetplaintext = String::from(
        "words wishes that pig the quick brown fox jumped over the lazy dog cat lion seal fish canary sf f a fish carp shark",
    );
    let bytestarget = str_to_bytes(&targetplaintext);
    let dict = BytesDictionary::from_dict(&Dictionary {
        words: [
            "words", "wards", "wishes", "that", "pig", "the", "quick", "brown", "fox", "jumped",
            "over", "the", "lazy", "dog", "cat", "lion", "seal", "fish", "canary", "sf", "f", "a",
            "fosh", "carp", "shark", "pie", "sandle", "counter", "keyboard", "airplane", "fresh",
            "wishes",
        ]
        .map(String::from)
        .to_vec(),
    });

    println!("BEFORE TEST plaintext is  {}\n", bytes_to_str(&cracked.plaintext));

    let errorcorrect = spellcheck(&cracked, &dict);

    println!("AFTER TEST Plaintext is  {}\n", bytes_to_str(&errorcorrect.plaintext));

    assert_eq!(&errorcorrect.plaintext, &bytestarget);
}

#[test]
fn spellcheck_emits_dictionary_words() {
    // every emitted segment is a byte form of some dictionary word
    let s = String::from("words wish that pig the quick");
    let dict = Dictionary::from_string(&s);
    let bd = BytesDictionary::from_dict(&dict);
    let near = CrackResult { plaintext: str_to_bytes("words wish that pig the quick"), confidence: 1 };
    let fixed = spellcheck(&near, &bd);
    let text = bytes_to_str(&fixed.plaintext);
    for segment in text.split(' ') {
        assert!(
            dict.words.iter().any(|w| w == segment),
            "segment {:?} not in dictionary",
            segment
        );
    }
}

#[test]
fn end_to_end() {
    // full driver on a periodic-key ciphertext with no injection
    let s = String::from(WORDBANK);
    let dict = Dictionary::from_string(&s);
    let bytes_dict = BytesDictionary::from_dict(&dict);
    let baseline = Frequencies::from_dict(&dict);
    let mut gen = Generator::with_dict(&dict);

    let plaintext = str_to_bytes(&gen.generate_words(150));
    let key = vec![10, 10, 12, 1, 2, 3, 4];
    let mut enc = Encryptor::new(key, RepeatingKey, Rng::default());
    let ciphertext = enc.encrypt(&plaintext);

    let known: Vec<(Vec<u8>, Frequencies)> = Vec::new();
    let recovered = crack_single_ciphertext(&ciphertext, &baseline, &bytes_dict, &known);
    assert_eq!(
        bytes_to_str(&recovered),
        bytes_to_str(&plaintext),
        "cracked and spell checked result does not match actual plaintext"
    );
}

#[test]
fn known_candidate_recovered_verbatim() {
    // with known candidate plaintexts, the encrypted candidate comes back
    // exactly
    let s = String::from(WORDBANK);
    let dict = Dictionary::from_string(&s);
    let bytes_dict = BytesDictionary::from_dict(&dict);
    let baseline = Frequencies::from_dict(&dict);
    let mut gen = Generator::with_dict(&dict);

    let mut known: Vec<(Vec<u8>, Frequencies)> = Vec::new();
    for _ in 0..10 {
        let cand = str_to_bytes(&gen.generate_words(12));
        let freq = Frequencies::from_bytes(&cand);
        known.push((cand, freq));
    }

    let mut rng = Rng::with_seed(7, 1234);
    let keylen = 7 + (rng.next() as usize) % 13;
    let key = random_key(&mut rng, keylen);
    let chosen = known[3].0.clone();
    let mut enc = Encryptor::new(key, RepeatingKey, rng);
    let ciphertext = enc.encrypt(&chosen);

    let recovered = crack_single_ciphertext(&ciphertext, &baseline, &bytes_dict, &known);
    assert_eq!(recovered, chosen);
}

#[test]
fn accuracy_is_exact_for_exact_recovery() {
    let actual = str_to_bytes("the quick brown fox");
    assert_eq!(accuracy(&actual, &actual), FREQ_SCALE);
    let off = str_to_bytes("the quick brown fax");
    assert!(accuracy(&off, &actual) < FREQ_SCALE);
    assert!(accuracy(&off, &actual) > 0);
}

#[test]
fn undetrended_ranking_stays_in_range() {
    let s = String::from(WORDBANK);
    let dict = Dictionary::from_string(&s);
    let mut gen = Generator::with_dict(&dict);
    let plaintext = str_to_bytes(&gen.generate_words(300));
    let key = vec![3, 1, 4, 1, 5, 9, 2, 6, 5, 3, 5, 8, 9];
    let mut enc = Encryptor::new(key, RepeatingKey, Rng::default());
    let ciphertext = enc.encrypt(&plaintext);

    let top = keylength_guesses(&ciphertext);
    assert_eq!(top.len(), 30);
    assert!(top.iter().all(|p| (4..45).contains(p)));
}

#[test]
fn short_ciphertext_gets_empty_ranking() {
    let short = str_to_bytes("abcd");
    let mut keysizes = Vec::new();
    guesses(&short, &mut keysizes);
    assert!(keysizes.is_empty());

    // the driver then stays with the candidate pass alone
    let s = String::from(WORDBANK);
    let dict = Dictionary::from_string(&s);
    let bytes_dict = BytesDictionary::from_dict(&dict);
    let baseline = Frequencies::from_dict(&dict);
    let known: Vec<(Vec<u8>, Frequencies)> = Vec::new();
    let recovered = crack_single_ciphertext(&short, &baseline, &bytes_dict, &known);
    assert!(recovered.is_empty());
}
