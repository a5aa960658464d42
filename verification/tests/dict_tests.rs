//! Dictionary construction and lookup tests.

use shiftcrack::dict::{levenshtein, BytesDictionary, Dictionary};
use shiftcrack::utils::str_to_bytes;

#[test]
fn create() {
    let s = String::from("abc def ghi jkl");
    let d = Dictionary::from_string(&s);

    assert_eq!(d.len(), 4);
    assert_eq!(d.words[0], "abc");
    assert_eq!(d.words[1], "def");
    assert_eq!(d.words[2], "ghi");
    assert_eq!(d.words[3], "jkl");
}

#[test]
fn len() {
    let s = String::from("abc def ghi jkl");
    let d = Dictionary::from_string(&s);

    assert_eq!(d.len(), 4);
    assert_eq!(d.words.len(), 4);
}

#[test]
fn reject_nonascii() {
    let s = String::from("abc def g.hi jkl");
    let d = Dictionary::from_string(&s);

    assert_eq!(d.len(), 3);
    assert_eq!(d.words[0], "abc");
    assert_eq!(d.words[1], "def");
    assert_eq!(d.words[2], "jkl");
}

#[test]
fn rejected_words_are_reported() {
    let s = String::from("abc def g.hi jkl 123");
    let (d, rejected) = Dictionary::from_string_with_rejects(&s);

    assert_eq!(d.len(), 3);
    assert_eq!(rejected, vec![b"g.hi".to_vec(), b"123".to_vec()]);
}

#[test]
fn duplicates_are_dropped() {
    let s = String::from("abc def abc ghi def abc");
    let d = Dictionary::from_string(&s);

    assert_eq!(d.len(), 3);
    assert_eq!(d.words[0], "abc");
    assert_eq!(d.words[1], "def");
    assert_eq!(d.words[2], "ghi");
}

#[test]
fn non_ascii_tokens_are_rejected() {
    let s = String::from("abc caf\u{e9} def");
    let (d, rejected) = Dictionary::from_string_with_rejects(&s);

    assert_eq!(d.len(), 2);
    assert_eq!(d.words[0], "abc");
    assert_eq!(d.words[1], "def");
    assert_eq!(rejected.len(), 1);
    assert_eq!(String::from_utf8_lossy(&rejected[0]), "caf\u{e9}");
}

#[test]
fn order() {
    let s = String::from("def jkl abc ghi");
    let d = Dictionary::from_string(&s);

    assert_eq!(d.len(), 4);
    assert_eq!(d.words[0], "abc");
    assert_eq!(d.words[1], "def");
    assert_eq!(d.words[2], "ghi");
    assert_eq!(d.words[3], "jkl");
}

#[test]
fn trim() {
    let s = String::from("    abc \n  def \t ghi   jkl\n\n  ");
    let d = Dictionary::from_string(&s);

    assert_eq!(d.len(), 4);
    assert_eq!(d.words[0], "abc");
    assert_eq!(d.words[1], "def");
    assert_eq!(d.words[2], "ghi");
    assert_eq!(d.words[3], "jkl");
}

#[test]
fn lowercasing() {
    let s = String::from("DEF Abc");
    let d = Dictionary::from_string(&s);
    assert_eq!(d.words[0], "abc");
    assert_eq!(d.words[1], "def");
}

#[test]
fn levenshtein_distances() {
    assert_eq!(levenshtein(b"", b""), 0);
    assert_eq!(levenshtein(b"abc", b"abc"), 0);
    assert_eq!(levenshtein(b"abc", b"acb"), 2);
    assert_eq!(levenshtein(b"kitten", b"sitting"), 3);
    assert_eq!(levenshtein(b"", b"abcd"), 4);
    assert_eq!(levenshtein(b"abcd", b""), 4);
}

#[test]
fn best_match() {
    // hand-built byte dictionary without trailing spaces, so probe
    // distances speak of the bare words
    let dict = BytesDictionary {
        words: vec![
            str_to_bytes("abc"),
            str_to_bytes("def"),
            str_to_bytes("ghi"),
            str_to_bytes("jkl"),
        ],
    };
    let (word, d) = dict.best_levenshtein(&str_to_bytes("acb"));
    assert_eq!(word, &str_to_bytes("abc"));
    assert_eq!(d, 2);

    let (word, d) = dict.best_levenshtein(&str_to_bytes("de"));
    assert_eq!(word, &str_to_bytes("def"));
    assert_eq!(d, 1);

    let (word, d) = dict.best_levenshtein(&str_to_bytes("ghi"));
    assert_eq!(word, &str_to_bytes("ghi"));
    assert_eq!(d, 0);

    let (word, d) = dict.best_levenshtein(&str_to_bytes(" jkl "));
    assert_eq!(word, &str_to_bytes("jkl"));
    assert_eq!(d, 2);

    let (word, d) = dict.best_levenshtein(&str_to_bytes("abc def"));
    assert_eq!(word, &str_to_bytes("abc"));
    assert_eq!(d, 4);
}

#[test]
fn byte_form_words_end_in_space() {
    let s = String::from("abc def");
    let d = Dictionary::from_string(&s);
    let bd = BytesDictionary::from_dict(&d);
    assert_eq!(bd.words.len(), 2);
    for w in &bd.words {
        assert_eq!(*w.last().unwrap(), 26u8);
    }
    assert_eq!(bd.words[0], vec![0u8, 1, 2, 26]);
}
