//! Cipher implementations: the project encryption scheme and a plain
//! rotation cipher.
//!
//! Texts are handled as symbol sequences in `[0, 27)`; see
//! [`crate::utils::str_to_bytes`] and [`crate::utils::bytes_to_str`] for the
//! string forms.

use vstd::prelude::*;

verus! {

use crate::rng::{stepped, FromRng, Rng};
use crate::schedulers::{KeySchedule, NextKey};
use crate::utils::{reduced_key, shifted_sym, valid_sym, Key, Shift};

/// What every cipher can do: turn plaintext symbols into ciphertext
/// symbols and back, appending to a caller-owned buffer.
pub trait Cipher: Sized {
    /// Inputs encryption is defined on.
    spec fn enc_req(self, plaintext: Seq<u8>) -> bool;

    /// The ciphertext produced and the state left behind.
    spec fn spec_encrypt(self, plaintext: Seq<u8>) -> (Seq<u8>, Self);

    /// Inputs decryption is defined on.
    spec fn dec_req(self, ciphertext: Seq<u8>) -> bool;

    /// The plaintext recovered and the state left behind.
    spec fn spec_decrypt(self, ciphertext: Seq<u8>) -> (Seq<u8>, Self);

    /// Encrypt, appending the ciphertext symbols to `ciphertext`.
    fn encrypt_into(&mut self, plaintext: &[u8], ciphertext: &mut Vec<u8>)
        requires
            old(self).enc_req(plaintext@),
        ensures
            final(ciphertext)@ == old(ciphertext)@ + old(self).spec_encrypt(plaintext@).0,
            *final(self) == old(self).spec_encrypt(plaintext@).1,
    ;

    /// Decrypt, appending the plaintext symbols to `plaintext`.
    fn decrypt_into(&mut self, ciphertext: &[u8], plaintext: &mut Vec<u8>)
        requires
            old(self).dec_req(ciphertext@),
        ensures
            final(plaintext)@ == old(plaintext)@ + old(self).spec_decrypt(ciphertext@).0,
            *final(self) == old(self).spec_decrypt(ciphertext@).1,
    ;

    /// Encrypt the given plaintext and return the ciphertext.
    fn encrypt(&mut self, plaintext: &[u8]) -> (r: Vec<u8>)
        requires
            old(self).enc_req(plaintext@),
        ensures
            r@ == old(self).spec_encrypt(plaintext@).0,
            *final(self) == old(self).spec_encrypt(plaintext@).1,
    {
        let mut ciphertext: Vec<u8> = Vec::new();
        self.encrypt_into(plaintext, &mut ciphertext);
        proof {
            assert(ciphertext@ =~= old(self).spec_encrypt(plaintext@).0);
        }
        ciphertext
    }

    /// Decrypt the given ciphertext and return the plaintext.
    fn decrypt(&mut self, ciphertext: &[u8]) -> (r: Vec<u8>)
        requires
            old(self).dec_req(ciphertext@),
        ensures
            r@ == old(self).spec_decrypt(ciphertext@).0,
            *final(self) == old(self).spec_decrypt(ciphertext@).1,
    {
        let mut plaintext: Vec<u8> = Vec::new();
        self.decrypt_into(ciphertext, &mut plaintext);
        proof {
            assert(plaintext@ =~= old(self).spec_decrypt(ciphertext@).0);
        }
        plaintext
    }
}

/// A plain rotation cipher shifting every symbol by thirteen.
#[derive(Debug)]
pub struct Rot13;

impl Cipher for Rot13 {
    open spec fn enc_req(self, plaintext: Seq<u8>) -> bool {
        forall|i: int| 0 <= i < plaintext.len() ==> valid_sym(#[trigger] plaintext[i])
    }

    open spec fn spec_encrypt(self, plaintext: Seq<u8>) -> (Seq<u8>, Self) {
        (plaintext.map_values(|b: u8| shifted_sym(b, 13)), self)
    }

    open spec fn dec_req(self, ciphertext: Seq<u8>) -> bool {
        forall|i: int| 0 <= i < ciphertext.len() ==> valid_sym(#[trigger] ciphertext[i])
    }

    open spec fn spec_decrypt(self, ciphertext: Seq<u8>) -> (Seq<u8>, Self) {
        (ciphertext.map_values(|b: u8| shifted_sym(b, -13)), self)
    }

    fn encrypt_into(&mut self, plaintext: &[u8], ciphertext: &mut Vec<u8>) {
        let mut i: usize = 0;
        while i < plaintext.len()
            invariant
                i <= plaintext@.len(),
                forall|t: int| 0 <= t < plaintext@.len() ==> valid_sym(#[trigger] plaintext@[t]),
                ciphertext@ == old(ciphertext)@ + plaintext@.take(i as int).map_values(
                    |b: u8| shifted_sym(b, 13),
                ),
            decreases plaintext@.len() - i,
        {
            ciphertext.push(plaintext[i].shift(13));
            proof {
                assert(ciphertext@ =~= old(ciphertext)@ + plaintext@.take(i + 1).map_values(
                    |b: u8| shifted_sym(b, 13),
                ));
            }
            i += 1;
        }
        proof {
            assert(plaintext@.take(plaintext@.len() as int) =~= plaintext@);
        }
    }

    fn decrypt_into(&mut self, ciphertext: &[u8], plaintext: &mut Vec<u8>) {
        let mut i: usize = 0;
        while i < ciphertext.len()
            invariant
                i <= ciphertext@.len(),
                forall|t: int| 0 <= t < ciphertext@.len() ==> valid_sym(#[trigger] ciphertext@[t]),
                plaintext@ == old(plaintext)@ + ciphertext@.take(i as int).map_values(
                    |b: u8| shifted_sym(b, -13),
                ),
            decreases ciphertext@.len() - i,
        {
            plaintext.push(ciphertext[i].shift(-13));
            proof {
                assert(plaintext@ =~= old(plaintext)@ + ciphertext@.take(i + 1).map_values(
                    |b: u8| shifted_sym(b, -13),
                ));
            }
            i += 1;
        }
        proof {
            assert(ciphertext@.take(ciphertext@.len() as int) =~= ciphertext@);
        }
    }
}

/// Upper bound on output length: encryption stops once the ciphertext
/// has grown this far, so a schedule that never consumes plaintext
/// cannot run away.
pub open spec fn enc_cap(ptlen: int) -> int {
    ptlen * 32 + 1024
}

/// Ciphertext produced from `pt` with `fuel` output positions left, the
/// next output position being `idx`. A key-indexed choice shifts and
/// consumes one plaintext symbol; a random slot emits one generator draw.
pub open spec fn encrypt_rec<K: KeySchedule>(
    ks: K,
    key: Seq<i8>,
    s: Rng,
    pt: Seq<u8>,
    ptlen: int,
    keylen: int,
    idx: int,
    fuel: nat,
) -> Seq<u8>
    decreases fuel,
{
    if pt.len() == 0 || fuel == 0 {
        Seq::empty()
    } else {
        match ks.spec_schedule(idx, keylen, ptlen) {
            NextKey::KeyIndex(i) => seq![shifted_sym(pt[0], key[i as int] as int)] + encrypt_rec(
                ks,
                key,
                s,
                pt.skip(1),
                ptlen,
                keylen,
                idx + 1,
                (fuel - 1) as nat,
            ),
            NextKey::Rand => seq![(s.x as u8) % 27] + encrypt_rec(
                ks,
                key,
                stepped(s),
                pt,
                ptlen,
                keylen,
                idx + 1,
                (fuel - 1) as nat,
            ),
        }
    }
}

/// Plaintext recovered from ciphertext positions `[idx, ct.len())`: each
/// key-indexed position unshifts its symbol, random slots are dropped.
pub open spec fn decrypt_rec<K: KeySchedule>(
    ks: K,
    key: Seq<i8>,
    ct: Seq<u8>,
    ptlen: int,
    keylen: int,
    idx: int,
) -> Seq<u8>
    decreases ct.len() - idx when idx <= ct.len()
{
    if idx >= ct.len() {
        Seq::empty()
    } else {
        match ks.spec_schedule(idx, keylen, ptlen) {
            NextKey::KeyIndex(i) => seq![shifted_sym(ct[idx], -(key[i as int] as int))]
                + decrypt_rec(ks, key, ct, ptlen, keylen, idx + 1),
            NextKey::Rand => decrypt_rec(ks, key, ct, ptlen, keylen, idx + 1),
        }
    }
}

/// The main encryption scheme: a key of shift amounts, a pluggable key
/// schedule, and a generator for the random-injection slots.
pub struct Encryptor<K: KeySchedule> {
    /// The key, normalized to shifts in `[0, 27)` on construction.
    pub key: Key,
    /// The scheduling algorithm.
    pub keyschedule: K,
    /// Generator for injected random symbols.
    pub rng: Rng,
    /// Length of the plaintext most recently encrypted; the out-of-band
    /// size parameter the recipient shares.
    pub prev_plaintext_length: Option<usize>,
}

impl<K: KeySchedule> Encryptor<K> {
    /// Create a new encryptor with the given key, schedule and generator;
    /// the key is normalized on the way in.
    pub fn new(key: Key, keyschedule: K, rng: Rng) -> (r: Self)
        ensures
            r.key@ == reduced_key(key@),
            r.keyschedule == keyschedule,
            r.rng == rng,
            r.prev_plaintext_length is None,
    {
        let mut key = key;
        crate::utils::reduce_key(&mut key);
        Self { key, keyschedule, rng, prev_plaintext_length: None }
    }

    /// Every key shift is already normalized into the alphabet.
    pub open spec fn key_wf(self) -> bool {
        forall|k: int| 0 <= k < self.key@.len() ==> 0 <= #[trigger] self.key@[k] < 27
    }

    /// Every schedule choice in the first `cap` output positions is
    /// accepted by the schedule and lands inside the key.
    pub open spec fn sched_ok(self, ptlen: int, cap: int) -> bool {
        forall|idx: int|
            0 <= idx < cap ==> {
                &&& self.keyschedule.sched_req(idx, self.key@.len() as int, ptlen)
                &&& (#[trigger] self.keyschedule.spec_schedule(
                    idx,
                    self.key@.len() as int,
                    ptlen,
                ) matches NextKey::KeyIndex(i) ==> i < self.key@.len())
            }
    }
}

impl<K: KeySchedule> Cipher for Encryptor<K> {
    /// Encryption needs: no undecrypted text pending, a non-empty
    /// normalized key, valid symbols, a plaintext short enough for the
    /// index arithmetic, and a schedule that stays within the key for
    /// every position the output could reach.
    open spec fn enc_req(self, plaintext: Seq<u8>) -> bool {
        &&& self.prev_plaintext_length is None
        &&& 1 <= self.key@.len() <= 0x1000
        &&& self.key_wf()
        &&& plaintext.len() <= 0x10_0000
        &&& (forall|i: int| 0 <= i < plaintext.len() ==> valid_sym(#[trigger] plaintext[i]))
        &&& self.sched_ok(plaintext.len() as int, enc_cap(plaintext.len() as int))
    }

    open spec fn spec_encrypt(self, plaintext: Seq<u8>) -> (Seq<u8>, Self) {
        let ct = encrypt_rec(
            self.keyschedule,
            self.key@,
            self.rng,
            plaintext,
            plaintext.len() as int,
            self.key@.len() as int,
            0,
            enc_cap(plaintext.len() as int) as nat,
        );
        (
            ct,
            Encryptor {
                key: self.key,
                keyschedule: self.keyschedule,
                rng: self.rng,
                prev_plaintext_length: Some(plaintext.len() as usize),
            },
        )
    }

    /// Decryption needs: the stashed plaintext length of the preceding
    /// encryption, a non-empty normalized key, valid symbols, and a
    /// schedule that stays within the key across the whole ciphertext.
    open spec fn dec_req(self, ciphertext: Seq<u8>) -> bool {
        &&& self.prev_plaintext_length is Some
        &&& 1 <= self.key@.len() <= 0x1000
        &&& self.key_wf()
        &&& ciphertext.len() <= 0x1000_0000
        &&& (forall|i: int| 0 <= i < ciphertext.len() ==> valid_sym(#[trigger] ciphertext[i]))
        &&& self.sched_ok(self.prev_plaintext_length->0 as int, ciphertext.len() as int)
    }

    open spec fn spec_decrypt(self, ciphertext: Seq<u8>) -> (Seq<u8>, Self) {
        let pt = decrypt_rec(
            self.keyschedule,
            self.key@,
            ciphertext,
            self.prev_plaintext_length->0 as int,
            self.key@.len() as int,
            0,
        );
        (
            pt,
            Encryptor {
                key: self.key,
                keyschedule: self.keyschedule,
                rng: self.rng,
                prev_plaintext_length: None,
            },
        )
    }

    fn encrypt_into(&mut self, plaintext: &[u8], ciphertext: &mut Vec<u8>) {
        let ghost init = *old(self);
        let ghost cap_g = enc_cap(plaintext@.len() as int);
        let ghost full = init.spec_encrypt(plaintext@).0;
        let keylen = self.key.len();
        let ptlen = plaintext.len();
        self.prev_plaintext_length = Some(ptlen);

        // work on a copy of the generator so decryption replays from the
        // same state
        let mut rng = Rng { x: self.rng.x, y: self.rng.y };

        let cap = ptlen * 32 + 1024;
        let mut consumed: usize = 0;
        let mut emitted: usize = 0;
        proof {
            assert(rng == init.rng);
            assert(plaintext@.skip(0) =~= plaintext@);
            assert(ciphertext@.skip(old(ciphertext)@.len() as int) =~= Seq::<u8>::empty());
            assert(Seq::<u8>::empty() + encrypt_rec(
                init.keyschedule,
                init.key@,
                init.rng,
                plaintext@,
                ptlen as int,
                keylen as int,
                0,
                cap_g as nat,
            ) =~= encrypt_rec(
                init.keyschedule,
                init.key@,
                init.rng,
                plaintext@,
                ptlen as int,
                keylen as int,
                0,
                cap_g as nat,
            ));
            assert(ciphertext@ =~= old(ciphertext)@ + Seq::<u8>::empty());
        }
        while consumed < ptlen && emitted < cap
            invariant
                consumed <= ptlen,
                emitted <= cap,
                cap == cap_g,
                ptlen == plaintext@.len() <= 0x10_0000,
                keylen == init.key@.len(),
                1 <= keylen <= 0x1000,
                init.key_wf(),
                forall|t: int| 0 <= t < plaintext@.len() ==> valid_sym(#[trigger] plaintext@[t]),
                init.sched_ok(ptlen as int, cap_g),
                self.key == init.key,
                self.keyschedule == init.keyschedule,
                self.rng == init.rng,
                self.prev_plaintext_length == Some(ptlen),
                full == init.spec_encrypt(plaintext@).0,
                ciphertext@.len() == old(ciphertext)@.len() + emitted,
                ciphertext@ == old(ciphertext)@ + ciphertext@.skip(old(ciphertext)@.len() as int),
                full == ciphertext@.skip(old(ciphertext)@.len() as int) + encrypt_rec(
                    init.keyschedule,
                    init.key@,
                    rng,
                    plaintext@.skip(consumed as int),
                    ptlen as int,
                    keylen as int,
                    emitted as int,
                    (cap_g - emitted) as nat,
                ),
            decreases cap - emitted,
        {
            let ghost pre_ct = ciphertext@;
            let ghost pre_rng = rng;
            let ghost pre_consumed = consumed as int;
            let ghost suffix = encrypt_rec(
                init.keyschedule,
                init.key@,
                pre_rng,
                plaintext@.skip(pre_consumed),
                ptlen as int,
                keylen as int,
                emitted as int,
                (cap_g - emitted) as nat,
            );
            let next_key = self.keyschedule.schedule(emitted, keylen, ptlen);
            match next_key {
                NextKey::KeyIndex(index) => {
                    let shift = self.key[index];
                    let cipher_sym = plaintext[consumed].shift(shift);
                    ciphertext.push(cipher_sym);
                    consumed += 1;
                    proof {
                        assert(plaintext@.skip(pre_consumed)[0] == plaintext@[pre_consumed]);
                        assert(plaintext@.skip(pre_consumed).skip(1) =~= plaintext@.skip(
                            consumed as int,
                        ));
                        assert(suffix == seq![cipher_sym] + encrypt_rec(
                            init.keyschedule,
                            init.key@,
                            rng,
                            plaintext@.skip(consumed as int),
                            ptlen as int,
                            keylen as int,
                            emitted as int + 1,
                            (cap_g - emitted - 1) as nat,
                        ));
                    }
                },
                NextKey::Rand => {
                    let word = rng.next();
                    #[verifier::truncate]
                    let b = word as u8;
                    ciphertext.push(b % 27);
                    proof {
                        assert(suffix == seq![(pre_rng.x as u8) % 27] + encrypt_rec(
                            init.keyschedule,
                            init.key@,
                            rng,
                            plaintext@.skip(consumed as int),
                            ptlen as int,
                            keylen as int,
                            emitted as int + 1,
                            (cap_g - emitted - 1) as nat,
                        ));
                    }
                },
            }
            emitted += 1;
            proof {
                assert(ciphertext@.skip(old(ciphertext)@.len() as int) =~= pre_ct.skip(
                    old(ciphertext)@.len() as int,
                ) + seq![ciphertext@.last()]);
                assert((pre_ct.skip(old(ciphertext)@.len() as int) + seq![ciphertext@.last()])
                    + encrypt_rec(
                    init.keyschedule,
                    init.key@,
                    rng,
                    plaintext@.skip(consumed as int),
                    ptlen as int,
                    keylen as int,
                    emitted as int,
                    (cap_g - emitted) as nat,
                ) =~= pre_ct.skip(old(ciphertext)@.len() as int) + (seq![ciphertext@.last()]
                    + encrypt_rec(
                    init.keyschedule,
                    init.key@,
                    rng,
                    plaintext@.skip(consumed as int),
                    ptlen as int,
                    keylen as int,
                    emitted as int,
                    (cap_g - emitted) as nat,
                )));
                assert(ciphertext@ =~= old(ciphertext)@ + ciphertext@.skip(
                    old(ciphertext)@.len() as int,
                ));
            }
        }
        proof {
            assert(encrypt_rec(
                init.keyschedule,
                init.key@,
                rng,
                plaintext@.skip(consumed as int),
                ptlen as int,
                keylen as int,
                emitted as int,
                (cap_g - emitted) as nat,
            ) =~= Seq::<u8>::empty()) by {
                if consumed == ptlen {
                    assert(plaintext@.skip(consumed as int).len() == 0);
                }
            }
            assert(full =~= ciphertext@.skip(old(ciphertext)@.len() as int));
            assert(ciphertext@ =~= old(ciphertext)@ + full);
        }
    }

    fn decrypt_into(&mut self, ciphertext: &[u8], plaintext: &mut Vec<u8>) {
        let ghost init = *old(self);
        let keylen = self.key.len();
        let ptlen = match self.prev_plaintext_length {
            Some(l) => l,
            None => {
                proof {
                    assert(false);
                }
                0
            },
        };
        self.prev_plaintext_length = None;

        let mut index: usize = 0;
        while index < ciphertext.len()
            invariant
                index <= ciphertext@.len(),
                ciphertext@.len() <= 0x1000_0000,
                keylen == init.key@.len(),
                1 <= keylen <= 0x1000,
                init.key_wf(),
                ptlen == init.prev_plaintext_length->0,
                forall|t: int| 0 <= t < ciphertext@.len() ==> valid_sym(#[trigger] ciphertext@[t]),
                init.sched_ok(ptlen as int, ciphertext@.len() as int),
                self.key == init.key,
                self.keyschedule == init.keyschedule,
                self.rng == init.rng,
                self.prev_plaintext_length is None,
                decrypt_rec(
                    init.keyschedule,
                    init.key@,
                    ciphertext@,
                    ptlen as int,
                    keylen as int,
                    0,
                ) == plaintext@.skip(old(plaintext)@.len() as int) + decrypt_rec(
                    init.keyschedule,
                    init.key@,
                    ciphertext@,
                    ptlen as int,
                    keylen as int,
                    index as int,
                ),
                plaintext@ == old(plaintext)@ + plaintext@.skip(old(plaintext)@.len() as int),
                plaintext@.len() >= old(plaintext)@.len(),
            decreases ciphertext@.len() - index,
        {
            let ghost pre_pt = plaintext@;
            let next_key = self.keyschedule.schedule(index, keylen, ptlen);
            match next_key {
                NextKey::KeyIndex(i) => {
                    let shift = self.key[i];
                    let neg: i8 = -shift;
                    let plain_sym = ciphertext[index].shift(neg);
                    plaintext.push(plain_sym);
                },
                NextKey::Rand => {},
            }
            index += 1;
            proof {
                assert(plaintext@.skip(old(plaintext)@.len() as int) =~= pre_pt.skip(
                    old(plaintext)@.len() as int,
                ) + plaintext@.skip(pre_pt.len() as int));
                assert((pre_pt.skip(old(plaintext)@.len() as int) + plaintext@.skip(
                    pre_pt.len() as int,
                )) + decrypt_rec(
                    init.keyschedule,
                    init.key@,
                    ciphertext@,
                    ptlen as int,
                    keylen as int,
                    index as int,
                ) =~= pre_pt.skip(old(plaintext)@.len() as int) + (plaintext@.skip(
                    pre_pt.len() as int,
                ) + decrypt_rec(
                    init.keyschedule,
                    init.key@,
                    ciphertext@,
                    ptlen as int,
                    keylen as int,
                    index as int,
                )));
                assert(plaintext@ =~= old(plaintext)@ + plaintext@.skip(
                    old(plaintext)@.len() as int,
                ));
            }
        }
        proof {
            assert(plaintext@ =~= old(plaintext)@ + decrypt_rec(
                init.keyschedule,
                init.key@,
                ciphertext@,
                ptlen as int,
                keylen as int,
                0,
            ));
        }
    }
}


/// Number of key-indexed (plaintext-consuming) choices the schedule
/// makes in the window `[idx, idx + n)`.
pub open spec fn real_count<K: KeySchedule>(
    ks: K,
    keylen: int,
    ptlen: int,
    idx: int,
    n: nat,
) -> nat
    decreases n,
{
    if n == 0 {
        0
    } else {
        (if ks.spec_schedule(idx, keylen, ptlen) is KeyIndex {
            1nat
        } else {
            0nat
        }) + real_count(ks, keylen, ptlen, idx + 1, (n - 1) as nat)
    }
}

/// A schedule keeps every key-indexed choice inside the key over the
/// window `[idx, idx + n)`; random slots are free.
pub open spec fn sched_in_bounds<K: KeySchedule>(
    ks: K,
    keylen: int,
    ptlen: int,
    idx: int,
    n: int,
) -> bool {
    forall|j: int|
        idx <= j < idx + n ==> ((#[trigger] ks.spec_schedule(j, keylen, ptlen)) matches
            NextKey::KeyIndex(i) ==> i < keylen)
}

/// Encryption emits at most one symbol per unit of fuel, and every
/// emitted symbol lies in the alphabet.
pub proof fn lemma_encrypt_rec_shape<K: KeySchedule>(
    ks: K,
    key: Seq<i8>,
    s: Rng,
    pt: Seq<u8>,
    ptlen: int,
    idx: int,
    fuel: nat,
)
    requires
        forall|i: int| 0 <= i < pt.len() ==> valid_sym(#[trigger] pt[i]),
    ensures
        encrypt_rec(ks, key, s, pt, ptlen, key.len() as int, idx, fuel).len() <= fuel,
        forall|i: int|
            0 <= i < encrypt_rec(ks, key, s, pt, ptlen, key.len() as int, idx, fuel).len()
                ==> valid_sym(#[trigger] encrypt_rec(ks, key, s, pt, ptlen, key.len() as int, idx, fuel)[i]),
    decreases fuel,
{
    let keylen = key.len() as int;
    if pt.len() == 0 || fuel == 0 {
    } else {
        match ks.spec_schedule(idx, keylen, ptlen) {
            NextKey::KeyIndex(_) => {
                lemma_encrypt_rec_shape(ks, key, s, pt.skip(1), ptlen, idx + 1, (fuel - 1) as nat);
            },
            NextKey::Rand => {
                lemma_encrypt_rec_shape(ks, key, stepped(s), pt, ptlen, idx + 1, (fuel - 1) as nat);
            },
        }
    }
}

/// Encrypting and then decrypting restores the plaintext whenever the
/// schedule offers at least as many real (key-indexed) slots inside the
/// output window as there are plaintext symbols: injected positions are
/// dropped on the way back and each real position is unshifted by the
/// same key symbol.
pub proof fn lemma_round_trip_within_cap<K: KeySchedule>(
    ks: K,
    key: Seq<i8>,
    s: Rng,
    pt: Seq<u8>,
    full: Seq<u8>,
    ptlen: int,
    idx: int,
    fuel: nat,
)
    requires
        forall|i: int| 0 <= i < pt.len() ==> valid_sym(#[trigger] pt[i]),
        forall|k: int| 0 <= k < key.len() ==> 0 <= #[trigger] key[k] < 27,
        real_count(ks, key.len() as int, ptlen, idx, fuel) >= pt.len(),
        sched_in_bounds(ks, key.len() as int, ptlen, idx, fuel as int),
        0 <= idx,
        full.len() == idx + encrypt_rec(ks, key, s, pt, ptlen, key.len() as int, idx, fuel).len(),
        full.skip(idx) == encrypt_rec(ks, key, s, pt, ptlen, key.len() as int, idx, fuel),
    ensures
        decrypt_rec(ks, key, full, ptlen, key.len() as int, idx) == pt,
    decreases fuel,
{
    let keylen = key.len() as int;
    let ct = encrypt_rec(ks, key, s, pt, ptlen, keylen, idx, fuel);
    if pt.len() == 0 {
        assert(ct.len() == 0);
        assert(decrypt_rec(ks, key, full, ptlen, keylen, idx) =~= pt);
    } else {
        assert(fuel > 0);
        match ks.spec_schedule(idx, keylen, ptlen) {
            NextKey::KeyIndex(i) => {
                assert(i < keylen);
                let tail = encrypt_rec(
                    ks,
                    key,
                    s,
                    pt.skip(1),
                    ptlen,
                    keylen,
                    idx + 1,
                    (fuel - 1) as nat,
                );
                assert(ct == seq![shifted_sym(pt[0], key[i as int] as int)] + tail);
                assert(full.skip(idx).skip(1) =~= full.skip(idx + 1));
                assert(ct.skip(1) =~= tail);
                assert(full.skip(idx + 1) =~= tail);
                lemma_round_trip_within_cap(
                    ks,
                    key,
                    s,
                    pt.skip(1),
                    full,
                    ptlen,
                    idx + 1,
                    (fuel - 1) as nat,
                );
                assert(full[idx] == full.skip(idx)[0]);
                assert(full[idx] == shifted_sym(pt[0], key[i as int] as int));
                crate::utils::lemma_shift_round_trip(pt[0], key[i as int] as int);
                assert(decrypt_rec(ks, key, full, ptlen, keylen, idx) == seq![pt[0]]
                    + decrypt_rec(ks, key, full, ptlen, keylen, idx + 1));
                assert(seq![pt[0]] + pt.skip(1) =~= pt);
            },
            NextKey::Rand => {
                let tail = encrypt_rec(ks, key, stepped(s), pt, ptlen, keylen, idx + 1, (fuel
                    - 1) as nat);
                assert(ct == seq![(s.x as u8) % 27] + tail);
                assert(full.skip(idx).skip(1) =~= full.skip(idx + 1));
                assert(ct.skip(1) =~= tail);
                assert(full.skip(idx + 1) =~= tail);
                lemma_round_trip_within_cap(
                    ks,
                    key,
                    stepped(s),
                    pt,
                    full,
                    ptlen,
                    idx + 1,
                    (fuel - 1) as nat,
                );
                assert(idx < full.len());
                assert(decrypt_rec(ks, key, full, ptlen, keylen, idx) == decrypt_rec(
                    ks,
                    key,
                    full,
                    ptlen,
                    keylen,
                    idx + 1,
                ));
            },
        }
    }
}

/// The round trip at the encryptor level, injections allowed: whenever
/// the output cap leaves room for one real slot per plaintext symbol,
/// encryption consumes the whole plaintext and the paired decryption
/// returns it exactly.
pub proof fn lemma_encryptor_round_trip_within_cap<K: KeySchedule>(e: Encryptor<K>, pt: Seq<u8>)
    requires
        e.enc_req(pt),
        real_count(
            e.keyschedule,
            e.key@.len() as int,
            pt.len() as int,
            0,
            enc_cap(pt.len() as int) as nat,
        ) >= pt.len(),
    ensures
        e.spec_encrypt(pt).1.dec_req(e.spec_encrypt(pt).0),
        e.spec_encrypt(pt).1.spec_decrypt(e.spec_encrypt(pt).0).0 == pt,
{
    let keylen = e.key@.len() as int;
    let ptlen = pt.len() as int;
    let cap = enc_cap(ptlen);
    let ct = e.spec_encrypt(pt).0;
    let after = e.spec_encrypt(pt).1;
    assert(cap >= 1024) by (nonlinear_arith)
        requires
            cap == ptlen * 32 + 1024,
            ptlen >= 0,
    ;
    lemma_encrypt_rec_shape(e.keyschedule, e.key@, e.rng, pt, ptlen, 0, cap as nat);
    assert(ct.len() <= cap);
    assert(sched_in_bounds(e.keyschedule, keylen, ptlen, 0, cap));
    assert(ct.skip(0) =~= ct);
    lemma_round_trip_within_cap(e.keyschedule, e.key@, e.rng, pt, ct, ptlen, 0, cap as nat);
    assert(after.prev_plaintext_length->0 == ptlen);
    assert(after.sched_ok(ptlen, ct.len() as int));
}

/// A schedule makes an in-bounds, injection-free choice at every position
/// of the window `[idx, idx + n)`.
pub open spec fn injection_free<K: KeySchedule>(
    ks: K,
    keylen: int,
    ptlen: int,
    idx: int,
    n: int,
) -> bool {
    forall|j: int|
        idx <= j < idx + n ==> ((#[trigger] ks.spec_schedule(j, keylen, ptlen)) matches
            NextKey::KeyIndex(i) && i < keylen)
}

/// Encrypting and then decrypting restores the plaintext wherever the
/// schedule never injects: every output position carries one shifted
/// plaintext symbol, and unshifting it by the same key symbol undoes it.
pub proof fn lemma_injection_free_round_trip<K: KeySchedule>(
    ks: K,
    key: Seq<i8>,
    s: Rng,
    pt: Seq<u8>,
    full: Seq<u8>,
    ptlen: int,
    idx: int,
    fuel: nat,
)
    requires
        forall|i: int| 0 <= i < pt.len() ==> valid_sym(#[trigger] pt[i]),
        forall|k: int| 0 <= k < key.len() ==> 0 <= #[trigger] key[k] < 27,
        pt.len() <= fuel,
        0 <= idx,
        injection_free(ks, key.len() as int, ptlen, idx, pt.len() as int),
        full.len() == idx + encrypt_rec(ks, key, s, pt, ptlen, key.len() as int, idx, fuel).len(),
        full.skip(idx) == encrypt_rec(ks, key, s, pt, ptlen, key.len() as int, idx, fuel),
    ensures
        encrypt_rec(ks, key, s, pt, ptlen, key.len() as int, idx, fuel).len() == pt.len(),
        decrypt_rec(ks, key, full, ptlen, key.len() as int, idx) == pt,
    decreases pt.len(),
{
    let keylen = key.len() as int;
    let ct = encrypt_rec(ks, key, s, pt, ptlen, keylen, idx, fuel);
    if pt.len() == 0 {
        assert(decrypt_rec(ks, key, full, ptlen, keylen, idx) =~= pt);
    } else {
        let choice = ks.spec_schedule(idx, keylen, ptlen);
        assert(choice is KeyIndex);
        let i = choice->KeyIndex_0;
        assert(i < keylen);
        let tail = encrypt_rec(ks, key, s, pt.skip(1), ptlen, keylen, idx + 1, (fuel - 1) as nat);
        assert(ct == seq![shifted_sym(pt[0], key[i as int] as int)] + tail);
        assert(full.skip(idx).skip(1) =~= full.skip(idx + 1));
        assert(ct.skip(1) =~= tail);
        assert(full.skip(idx + 1) =~= tail);
        lemma_injection_free_round_trip(ks, key, s, pt.skip(1), full, ptlen, idx + 1, (fuel
            - 1) as nat);
        assert(full[idx] == full.skip(idx)[0]);
        assert(full[idx] == shifted_sym(pt[0], key[i as int] as int));
        crate::utils::lemma_shift_round_trip(pt[0], key[i as int] as int);
        assert(shifted_sym(full[idx], -(key[i as int] as int)) == pt[0]);
        assert(decrypt_rec(ks, key, full, ptlen, keylen, idx) == seq![pt[0]] + decrypt_rec(
            ks,
            key,
            full,
            ptlen,
            keylen,
            idx + 1,
        ));
        assert(seq![pt[0]] + pt.skip(1) =~= pt);
    }
}

/// The round trip at the encryptor level: with an injection-free schedule
/// the decryption of an encryption returns the plaintext exactly.
pub proof fn lemma_encryptor_round_trip<K: KeySchedule>(e: Encryptor<K>, pt: Seq<u8>)
    requires
        e.enc_req(pt),
        injection_free(e.keyschedule, e.key@.len() as int, pt.len() as int, 0, pt.len() as int),
    ensures
        e.spec_encrypt(pt).0.len() == pt.len(),
        e.spec_encrypt(pt).1.spec_decrypt(e.spec_encrypt(pt).0).0 == pt,
{
    let ct = e.spec_encrypt(pt).0;
    let cap = enc_cap(pt.len() as int);
    assert(pt.len() <= cap) by (nonlinear_arith)
        requires
            cap == pt.len() * 32 + 1024,
            pt.len() >= 0,
    ;
    assert(ct.skip(0) =~= ct);
    lemma_injection_free_round_trip(
        e.keyschedule,
        e.key@,
        e.rng,
        pt,
        ct,
        pt.len() as int,
        0,
        cap as nat,
    );
}

impl<K: KeySchedule + FromRng> FromRng for Encryptor<K> {
    /// A key, a schedule and a child generator are drawn in order.
    open spec fn from_rng_post(s: Rng, r: Self, left: Rng) -> bool {
        exists|s1: Rng, s2: Rng|
            #![auto]
            {
                &&& (r.key@, s1) == crate::rng::spec_key_round(s, 128)
                &&& K::from_rng_post(s1, r.keyschedule, s2)
                &&& Rng::from_rng_post(s2, r.rng, left)
                &&& r.prev_plaintext_length is None
            }
    }

    fn from_rng(rng: &mut Rng) -> (r: Self) {
        let key = Key::from_rng(rng);
        let ghost s1 = *rng;
        let keyschedule = K::from_rng(rng);
        let ghost s2 = *rng;
        let new_rng = Rng::from_rng(rng);
        let r = Self { key, keyschedule, rng: new_rng, prev_plaintext_length: None };
        proof {
            assert((r.key@, s1) == crate::rng::spec_key_round(*old(rng), 128) && K::from_rng_post(
                s1,
                r.keyschedule,
                s2,
            ) && Rng::from_rng_post(s2, r.rng, *rng));
        }
        r
    }
}

} // verus!
