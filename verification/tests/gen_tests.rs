//! Plaintext generator tests.

use shiftcrack::dict::Dictionary;
use shiftcrack::gen::Generator;

#[test]
fn generate_words() {
    let s = String::from("abc def ghi jkl");
    let d = Dictionary::from_string(&s);

    let mut g = Generator::with_dict(&d);
    assert_eq!("jkl", g.generate_words(1));
    assert_eq!("ghi", g.generate_words(1));
    assert_eq!("ghi", g.generate_words(1));
    assert_eq!("abc", g.generate_words(1));
    assert_eq!("abc", g.generate_words(1));
    assert_eq!("abc", g.generate_words(1));
    assert_eq!("def", g.generate_words(1));
}

#[test]
fn generate_sentence() {
    let s = String::from("abc def ghi jkl");
    let d = Dictionary::from_string(&s);

    let mut g = Generator::with_dict(&d);
    assert_eq!("jkl ghi ghi abc abc abc def", g.generate_words(7));
}

#[test]
fn clone_debug() {
    let s = String::from("abc def ghi jkl");
    let d = Dictionary::from_string(&s);

    let gen = Generator::with_dict(&d);
    let new_gen = gen.clone();
    println!("{:?}", new_gen);
}

#[test]
fn generate_into_appends_with_space() {
    let s = String::from("abc def ghi jkl");
    let d = Dictionary::from_string(&s);

    let mut g = Generator::with_dict(&d);
    let mut dest = String::from("start");
    g.generate_words_into(1, &mut dest);
    assert_eq!(dest, "start jkl");
}
