//! Alphabet and shift arithmetic for the 27-symbol message space.
//!
//! Symbols are integers in `[0, 27)`: `0` is `a`, ..., `25` is `z`, and `26`
//! is the space. Shifts are signed amounts applied modulo the alphabet size.

use vstd::prelude::*;

verus! {

use vstd::arithmetic::div_mod::lemma_mod_add_multiples_vanish;
use vstd::arithmetic::div_mod::lemma_add_mod_noop;
use vstd::arithmetic::div_mod::lemma_small_mod;

/// Number of symbols in the alphabet: `a`..`z` plus space.
pub const ALPHABET_LEN: u8 = 27;

/// A symbol is valid when it names one of the 27 alphabet members.
pub open spec fn valid_sym(s: u8) -> bool {
    s < 27
}

/// A character the alphabet covers: a lowercase ASCII letter or a space.
pub open spec fn valid_char(c: char) -> bool {
    c == ' ' || ('a' <= c && c <= 'z')
}

/// The symbol a character encodes to.
pub open spec fn sym_of_char(c: char) -> u8 {
    if c == ' ' {
        26u8
    } else {
        (c as int - 'a' as int) as u8
    }
}

/// The character a symbol decodes to.
pub open spec fn char_of_sym(s: u8) -> char {
    if s == 26 {
        ' '
    } else {
        (s as int + 'a' as int) as char
    }
}

/// One symbol shifted by a signed amount, wrapping modulo the alphabet.
pub open spec fn shifted_sym(s: u8, amount: int) -> u8 {
    ((s as int + amount % 27) % 27) as u8
}

/// Reduce a signed shift amount into `[0, 27)`, as Euclidean remainder.
fn reduce_shift(amount: i8) -> (r: u8)
    ensures
        r as int == (amount as int) % 27,
        r < 27,
{
    let wide: i16 = amount as i16 + 135;
    let r: u16 = (wide as u16) % 27;
    proof {
        lemma_mod_add_multiples_vanish(amount as int + 108, 27);
        lemma_mod_add_multiples_vanish(amount as int + 81, 27);
        lemma_mod_add_multiples_vanish(amount as int + 54, 27);
        lemma_mod_add_multiples_vanish(amount as int + 27, 27);
        lemma_mod_add_multiples_vanish(amount as int, 27);
    }
    r as u8
}

/// Conversion of a character to its symbol.
pub trait CharToNum: Sized {
    /// Inputs the conversion is defined on.
    spec fn to_num_req(self) -> bool;

    /// The symbol this value encodes to.
    spec fn spec_to_num(self) -> u8;

    /// Encode to a symbol in `[0, 27)`.
    fn to_num(self) -> (r: u8)
        requires
            self.to_num_req(),
        ensures
            r == self.spec_to_num(),
            r < 27,
    ;
}

impl CharToNum for char {
    open spec fn to_num_req(self) -> bool {
        valid_char(self)
    }

    open spec fn spec_to_num(self) -> u8 {
        sym_of_char(self)
    }

    fn to_num(self) -> (r: u8) {
        if self == ' ' {
            26
        } else {
            ((self as u32) - 97) as u8
        }
    }
}

/// Conversion of a symbol back to its character.
pub trait NumToChar: Sized {
    /// The character this value decodes to.
    spec fn spec_to_char(self) -> char;

    /// Decode to a character; out-of-range values are first reduced
    /// modulo the alphabet size.
    fn to_char(self) -> (r: char)
        ensures
            r == self.spec_to_char(),
    ;
}

impl NumToChar for u8 {
    open spec fn spec_to_char(self) -> char {
        char_of_sym((self as int % 27) as u8)
    }

    fn to_char(self) -> (r: char) {
        let num = self % 27;
        if num == 26 {
            ' '
        } else {
            (num + 97) as char
        }
    }
}

/// Shift by a signed amount, wrapping around the alphabet.
pub trait Shift: Sized {
    /// Inputs the shift is defined on.
    spec fn shift_req(self) -> bool;

    /// The shifted value.
    spec fn spec_shift(self, amount: i8) -> Self;

    /// Apply the shift.
    fn shift(self, amount: i8) -> (r: Self)
        requires
            self.shift_req(),
        ensures
            r == self.spec_shift(amount),
    ;
}

impl Shift for char {
    open spec fn shift_req(self) -> bool {
        valid_char(self)
    }

    open spec fn spec_shift(self, amount: i8) -> char {
        char_of_sym(shifted_sym(sym_of_char(self), amount as int))
    }

    fn shift(self, amount: i8) -> (r: char) {
        let amt = reduce_shift(amount);
        let num = self.to_num();
        proof {
            lemma_small_mod((num + amt) as nat % 27, 27);
        }
        (num + amt).to_char()
    }
}

impl Shift for u8 {
    open spec fn shift_req(self) -> bool {
        valid_sym(self)
    }

    open spec fn spec_shift(self, amount: i8) -> u8 {
        shifted_sym(self, amount as int)
    }

    fn shift(self, amount: i8) -> (r: u8) {
        proof {
            // name the contract's spec functions so their definitions open
            assert(self.shift_req());
        }
        let amt = reduce_shift(amount);
        let r = (self + amt) % 27;
        proof {
            assert(r == self.spec_shift(amount));
        }
        r
    }
}

/// A key: a sequence of signed shift amounts.
pub type Key = Vec<i8>;

/// A key value reduced to the smallest equivalent non-negative shift.
pub open spec fn reduced_key_sym(k: i8) -> i8 {
    ((k as int) % 27) as i8
}

/// A whole key reduced elementwise.
pub open spec fn reduced_key(key: Seq<i8>) -> Seq<i8> {
    key.map_values(|k: i8| reduced_key_sym(k))
}

/// Normalize a key so every shift amount lies in `[0, 27)`.
pub fn reduce_key(key: &mut Key)
    ensures
        final(key)@ == reduced_key(old(key)@),
{
    let ghost orig = key@;
    let mut out: Vec<i8> = Vec::new();
    let mut i: usize = 0;
    while i < key.len()
        invariant
            i <= key@.len(),
            key@ == orig,
            out@.len() == i as int,
            forall|j: int| 0 <= j < i as int ==> out@[j] == reduced_key_sym(orig[j]),
        decreases key@.len() - i,
    {
        let r = reduce_shift(key[i]);
        out.push(r as i8);
        i += 1;
    }
    *key = out;
    proof {
        assert(key@ =~= reduced_key(orig));
    }
}

/// Reducing a key is idempotent: a second pass changes nothing.
pub proof fn lemma_reduce_key_idempotent(key: Seq<i8>)
    ensures
        reduced_key(reduced_key(key)) == reduced_key(key),
{
    assert forall|j: int| 0 <= j < key.len() implies reduced_key_sym(reduced_key_sym(key[j]))
        == reduced_key_sym(key[j]) by {
        lemma_small_mod((key[j] as int % 27) as nat, 27);
    }
    assert(reduced_key(reduced_key(key)) =~= reduced_key(key));
}

/// Encoding a valid character and decoding the symbol gives the
/// character back.
pub proof fn lemma_char_round_trip(c: char)
    requires
        valid_char(c),
    ensures
        char_of_sym(sym_of_char(c)) == c,
{
}

/// Decoding a valid symbol and encoding the character gives the
/// symbol back.
pub proof fn lemma_sym_round_trip(s: u8)
    requires
        valid_sym(s),
    ensures
        sym_of_char(char_of_sym(s)) == s,
{
}

/// Shifting by an amount and then by its negation restores the symbol.
pub proof fn lemma_shift_round_trip(s: u8, amount: int)
    requires
        valid_sym(s),
    ensures
        shifted_sym(shifted_sym(s, amount), -amount) == s,
{
    let a = amount % 27;
    let b = (-amount) % 27;
    lemma_add_mod_noop(amount, -amount, 27);
    assert((a + b) % 27 == 0);
    let t = (s as int + a) % 27;
    lemma_small_mod(s as nat, 27);
    if a + b == 0 {
        assert(a == 0 && b == 0);
        assert(shifted_sym(shifted_sym(s, amount), -amount) == s);
    } else {
        assert(a + b == 27) by {
            assert(0 <= a < 27 && 0 <= b < 27);
            assert((a + b) % 27 == 0);
            if a + b < 27 {
                lemma_small_mod((a + b) as nat, 27);
            } else {
                lemma_mod_add_multiples_vanish(a + b - 27, 27);
                lemma_small_mod((a + b - 27) as nat, 27);
            }
        }
        lemma_add_mod_noop(s as int + a, b, 27);
        assert((t + b) % 27 == (s as int + a + b) % 27);
        lemma_mod_add_multiples_vanish(s as int, 27);
        assert((s as int + 27) % 27 == s as int % 27);
    }
}

/// Translate a string over the alphabet to its symbol sequence.
pub fn str_to_bytes(s: &str) -> (r: Vec<u8>)
    requires
        forall|i: int| 0 <= i < s@.len() ==> valid_char(#[trigger] s@[i]),
    ensures
        r@.len() == s@.len(),
        forall|i: int| 0 <= i < s@.len() ==> r@[i] == sym_of_char(s@[i]),
{
    let len = s.unicode_len();
    let mut out: Vec<u8> = Vec::new();
    let mut i: usize = 0;
    while i < len
        invariant
            i <= len,
            len == s@.len(),
            forall|j: int| 0 <= j < s@.len() ==> valid_char(#[trigger] s@[j]),
            out@.len() == i as int,
            forall|j: int| 0 <= j < i as int ==> out@[j] == sym_of_char(s@[j]),
        decreases len - i,
    {
        let c = s.get_char(i);
        out.push(c.to_num());
        i += 1;
    }
    out
}

/// Relies on `String::from_utf8` (std): a sequence of ASCII bytes is valid
/// UTF-8 and decodes to one character per byte, each with the byte's code.
#[verifier::external_body]
pub(crate) fn string_from_ascii(bytes: Vec<u8>) -> (r: String)
    requires
        forall|i: int| 0 <= i < bytes@.len() ==> bytes@[i] < 128,
    ensures
        r@.len() == bytes@.len(),
        forall|i: int| 0 <= i < bytes@.len() ==> r@[i] == #[trigger] bytes@[i] as char,
{
    String::from_utf8(bytes).expect("ascii bytes are valid utf-8")
}

/// Translate a symbol sequence back to a string for presentation.
pub fn bytes_to_str(bytes: &[u8]) -> (r: String)
    requires
        forall|i: int| 0 <= i < bytes@.len() ==> valid_sym(#[trigger] bytes@[i]),
    ensures
        r@.len() == bytes@.len(),
        forall|i: int| 0 <= i < bytes@.len() ==> r@[i] == char_of_sym(bytes@[i]),
{
    let mut ascii: Vec<u8> = Vec::new();
    let mut i: usize = 0;
    while i < bytes.len()
        invariant
            i <= bytes@.len(),
            forall|j: int| 0 <= j < bytes@.len() ==> valid_sym(#[trigger] bytes@[j]),
            ascii@.len() == i as int,
            forall|j: int| 0 <= j < i as int ==> ascii@[j] < 128,
            forall|j: int| 0 <= j < i as int ==> #[trigger] ascii@[j] as char == char_of_sym(
                bytes@[j],
            ),
        decreases bytes@.len() - i,
    {
        let b = bytes[i];
        let code: u8 = if b == 26 {
            32
        } else {
            b + 97
        };
        ascii.push(code);
        i += 1;
    }
    let r = string_from_ascii(ascii);
    proof {
        assert forall|j: int| 0 <= j < bytes@.len() implies r@[j] == char_of_sym(bytes@[j]) by {
            assert(ascii@[j] as char == char_of_sym(bytes@[j]));
            assert(r@[j] == ascii@[j] as char);
        }
    }
    r
}

} // verus!
