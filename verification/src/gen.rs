//! Deterministic plaintext generation from a wordbank.
//!
//! Generated texts are used to self-test the cracker: since the plaintext
//! is known, the recovery can be scored exactly.

use vstd::prelude::*;

verus! {

use crate::dict::Dictionary;
use crate::rng::{stepped, stepped_n, Rng};

/// `num_words` words drawn uniformly from the bank and joined with single
/// spaces, together with the generator state left behind.
pub open spec fn gen_words(ws: Seq<Seq<char>>, s: Rng, n: nat) -> (Seq<char>, Rng)
    decreases n,
{
    if n == 0 {
        (Seq::empty(), s)
    } else {
        let w = ws[(s.x as usize) as int % ws.len() as int];
        let rest = gen_words(ws, stepped(s), (n - 1) as nat);
        if n == 1 {
            (w, rest.1)
        } else {
            (w + seq![' '] + rest.0, rest.1)
        }
    }
}

/// The joining prefix: a single space when appending to text that does
/// not already end in one.
pub open spec fn join_prefix(dest: Seq<char>) -> Seq<char> {
    if dest.len() > 0 && dest.last() != ' ' {
        dest + seq![' ']
    } else {
        dest
    }
}

/// A deterministic plaintext generator over a dictionary wordbank.
#[derive(Clone, Debug)]
pub struct Generator<'d> {
    /// The wordbank drawn from.
    pub dictionary: &'d Dictionary,
    /// The generator state; public so runs can be reproduced.
    pub rng: Rng,
}

impl<'d> Generator<'d> {
    /// A generator over the given wordbank, with the default seed.
    pub fn with_dict(dictionary: &'d Dictionary) -> (r: Self)
        ensures
            r.dictionary == dictionary,
            r.rng == (Rng { x: 0x54d3a3130133750b, y: 0x3e69b0ed931eb512 }),
    {
        Self { rng: Rng::default(), dictionary }
    }

    /// Pick `num_words` words from the wordbank and return them joined
    /// with single spaces.
    pub fn generate_words(&mut self, num_words: usize) -> (r: String)
        requires
            old(self).dictionary.words@.len() > 0,
        ensures
            r@ == gen_words(old(self).dictionary.words.deep_view(), old(self).rng, num_words as nat).0,
            final(self).rng == gen_words(
                old(self).dictionary.words.deep_view(),
                old(self).rng,
                num_words as nat,
            ).1,
            final(self).dictionary == old(self).dictionary,
    {
        let mut sentence = String::new();
        self.generate_words_into(num_words, &mut sentence);
        proof {
            assert(Seq::<char>::empty() + gen_words(
                old(self).dictionary.words.deep_view(),
                old(self).rng,
                num_words as nat,
            ).0 =~= gen_words(
                old(self).dictionary.words.deep_view(),
                old(self).rng,
                num_words as nat,
            ).0);
        }
        sentence
    }

    /// Same as [`Self::generate_words`], but appends to an existing
    /// buffer, adding a joining space first when needed.
    pub fn generate_words_into(&mut self, num_words: usize, dest: &mut String)
        requires
            old(self).dictionary.words@.len() > 0,
        ensures
            final(dest)@ == join_prefix(old(dest)@) + gen_words(
                old(self).dictionary.words.deep_view(),
                old(self).rng,
                num_words as nat,
            ).0,
            final(self).rng == gen_words(
                old(self).dictionary.words.deep_view(),
                old(self).rng,
                num_words as nat,
            ).1,
            final(self).dictionary == old(self).dictionary,
    {
        let ghost ws = self.dictionary.words.deep_view();
        let ghost s0 = self.rng;
        proof {
            assert forall|t: int| 0 <= t < ws.len() implies ws[t]
                == (#[trigger] self.dictionary.words@[t])@ by {
                assert(ws[t] == self.dictionary.words@[t].deep_view());
                assert(self.dictionary.words@[t].deep_view() =~= self.dictionary.words@[t]@);
            }
        }

        proof {
            reveal_strlit(" ");
        }
        // prepend a space if appending to an existing sentence
        let dlen = dest.as_str().unicode_len();
        if dlen > 0 {
            let lastc = dest.as_str().get_char(dlen - 1);
            if lastc != ' ' {
                dest.append(" ");
                proof {
                    reveal_strlit(" ");
                    assert(dest@ =~= join_prefix(old(dest)@));
                }
            }
        }
        proof {
            assert(dest@ =~= join_prefix(old(dest)@));
        }

        let ghost base = dest@;
        let mut i: usize = 0;
        while i < num_words
            invariant
                i <= num_words,
                ws == self.dictionary.words.deep_view(),
                self.dictionary == old(self).dictionary,
                self.dictionary.words@.len() == ws.len() > 0,
                forall|t: int| 0 <= t < ws.len() ==> ws[t] == (#[trigger] self.dictionary.words@[t])@,
                self.rng == stepped_n(s0, i as nat),
                gen_words(ws, s0, num_words as nat).0 == dest@.skip(base.len() as int) + (if i
                    < num_words && i > 0 {
                    seq![' ']
                } else {
                    Seq::<char>::empty()
                }) + gen_words(ws, self.rng, (num_words - i) as nat).0,
                gen_words(ws, s0, num_words as nat).1 == gen_words(
                    ws,
                    self.rng,
                    (num_words - i) as nat,
                ).1,
                dest@ == base + dest@.skip(base.len() as int),
            decreases num_words - i,
        {
            let ghost pre = dest@;
            let ghost s_here = self.rng;
            if i > 0 {
                dest.append(" ");
            }
            let word = self.rng.pick(self.dictionary.words.as_slice());
            dest.append(word.as_str());
            proof {
                reveal_strlit(" ");
                crate::rng::lemma_stepped_n_unfold(s0, (i + 1) as nat);
                let w = ws[(s_here.x as usize) as int % ws.len() as int];
                assert(word@ == w);
                if i > 0 {
                    assert(dest@.skip(base.len() as int) =~= pre.skip(base.len() as int)
                        + seq![' '] + w);
                } else {
                    assert(dest@.skip(base.len() as int) =~= pre.skip(base.len() as int) + w);
                }
                let tail = gen_words(ws, s_here, (num_words - i) as nat);
                let tail2 = gen_words(ws, stepped(s_here), (num_words - i - 1) as nat);
                if num_words - i == 1 {
                    assert(tail.0 == w && tail.1 == tail2.1);
                } else {
                    assert(tail.0 == w + seq![' '] + tail2.0 && tail.1 == tail2.1);
                }
                assert(gen_words(ws, s0, num_words as nat).0 =~= dest@.skip(base.len() as int)
                    + (if i + 1 < num_words && i + 1 > 0 {
                    seq![' ']
                } else {
                    Seq::<char>::empty()
                }) + gen_words(ws, stepped(s_here), (num_words - i - 1) as nat).0);
                assert(dest@ =~= base + dest@.skip(base.len() as int));
            }
            i += 1;
        }
        proof {
            assert(gen_words(ws, self.rng, 0).0 =~= Seq::<char>::empty());
            assert(dest@ =~= join_prefix(old(dest)@) + gen_words(ws, s0, num_words as nat).0);
        }
    }
}

} // verus!
