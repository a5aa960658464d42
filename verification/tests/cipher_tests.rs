//! Cipher round-trip and stress tests.

use shiftcrack::ciphers::{Cipher, Encryptor, Rot13};
use shiftcrack::dict::Dictionary;
use shiftcrack::gen::Generator;
use shiftcrack::rng::{FromRng, Rng};
use shiftcrack::schedulers::{Aab, KeySchedule, RepeatingKey};
use shiftcrack::utils::{bytes_to_str, str_to_bytes};

const WORDBANK: &str = "the quick brown fox jumps over lazy dog when morning light breaks \
    across quiet fields and small birds gather near tall trees while rivers run cold past \
    stone walls under grey skies every path leads home again";

fn wordbank_dict() -> Dictionary {
    Dictionary::from_string(WORDBANK)
}

fn test_one<T: Cipher>(cipher: &mut T, gen: &mut Generator) {
    // pick number of words to generate
    let num_words = usize::max(10, gen.rng.next() as usize % 150);

    // generate plaintext, ciphertext, and then decrypt
    let plaintext = str_to_bytes(&gen.generate_words(num_words));
    let ciphertext = cipher.encrypt(&plaintext);
    let decrypted = cipher.decrypt(&ciphertext);

    // plaintext must always differ from ciphertext
    assert_ne!(plaintext, ciphertext);

    // decrypted text must always match original plaintext
    assert_eq!(plaintext, decrypted);
}

fn stresstest<T: Cipher>(mut cipher: T, cycles: usize) {
    let dict = wordbank_dict();
    let mut gen = Generator::with_dict(&dict);

    for _ in 0..cycles {
        test_one(&mut cipher, &mut gen);
    }
}

fn randomized_stresstest<T: Cipher + FromRng>(cycles: usize) {
    let mut rng = Rng::default();

    let dict = wordbank_dict();
    let mut gen = Generator::with_dict(&dict);

    for _ in 0..cycles {
        let mut cipher = T::from_rng(&mut rng);
        test_one(&mut cipher, &mut gen);
    }
}

#[test]
fn round_trip() {
    let mut rot13 = Rot13;

    // assert encryption works as expected
    let plaintext = str_to_bytes("abcdefghijklmnopqrstuvwxyz ");
    let ciphertext = rot13.encrypt(&plaintext);
    assert_eq!(bytes_to_str(&ciphertext), "nopqrstuvwxyz abcdefghijklm");

    // assert decryption produces the same plaintext
    let decrypted = rot13.decrypt(&ciphertext);
    assert_eq!(plaintext, decrypted);
}

#[test]
fn rot13_stresstest() {
    stresstest(Rot13, 10000);
}

#[test]
fn repeating_key_stress() {
    let key = vec![1, 2, 3, 4, 5, 6, 7, 8, 9];
    let sched = RepeatingKey;

    let encryptor = Encryptor::new(key, sched, Rng::default());
    stresstest(encryptor, 10000);
}

#[test]
fn aab_stress() {
    randomized_stresstest::<Encryptor<Aab>>(10000);
}

#[test]
fn encryptor_known_shift() {
    // key [0, 1, -1] cycling: every third symbol unshifted, then +1, then -1
    let key = vec![0, 1, -1];
    let mut enc = Encryptor::new(key, RepeatingKey, Rng::default());
    let plaintext = str_to_bytes("jkl ghi ghi abc abc abc def");
    let ciphertext = enc.encrypt(&plaintext);
    let decrypted = enc.decrypt(&ciphertext);
    assert_eq!(plaintext, decrypted);
    assert_eq!(ciphertext[0], plaintext[0]);
    assert_eq!(ciphertext[1], (plaintext[1] + 1) % 27);
    assert_eq!(ciphertext[2], (plaintext[2] + 26) % 27);
}

#[test]
fn schedule_req_is_checked() {
    // the schedule trait is callable through any implementation
    let sched = RepeatingKey;
    assert_eq!(sched.schedule(5, 3, 100).index_or_panic(), 2);
}
