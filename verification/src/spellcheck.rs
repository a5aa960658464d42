//! Correcting nearly-perfect plaintext into a plausible sequence of
//! dictionary words.
//!
//! The cracker may leave some columns off by one shift. This pass walks the
//! near-plaintext left to right and greedily replaces each probe window with
//! the dictionary word closest to it by edit distance, preferring longer
//! windows and closer matches.

use vstd::prelude::*;

verus! {

use crate::crack::CrackResult;
use crate::dict::{lev, levenshtein, BytesDictionary};

/// The greedy score of matching a probe of `bytes_used` symbols at edit
/// distance `distance`: longer probes and smaller distances score higher,
/// and an exact match outranks any imperfect one.
pub open spec fn word_score(bytes_used: nat, distance: nat) -> nat {
    if distance == 0 {
        0xFFFF_FFFF
    } else {
        (bytes_used * 1000) / distance
    }
}

/// The probe length and dictionary index the greedy pass picks among probe
/// lengths `[1, l]`: the highest score, the longest probe on ties.
pub open spec fn best_probe_upto(rest: Seq<u8>, ws: Seq<Seq<u8>>, l: int) -> (int, int)
    decreases l,
{
    if l <= 1 {
        (1, BytesDictionary::best_index(ws, rest.take(1)))
    } else {
        let prev = best_probe_upto(rest, ws, l - 1);
        let ci = BytesDictionary::best_index(ws, rest.take(l));
        if word_score(l as nat, lev(rest.take(l), ws[ci])) >= word_score(
            prev.0 as nat,
            lev(rest.take(prev.0), ws[prev.1]),
        ) {
            (l, ci)
        } else {
            prev
        }
    }
}

/// Length of the longest of the first `n` words.
pub open spec fn max_word_len_upto(ws: Seq<Seq<u8>>, n: nat) -> nat
    decreases n,
{
    if n == 0 {
        0
    } else {
        let prev = max_word_len_upto(ws, (n - 1) as nat);
        if ws[n - 1].len() > prev {
            ws[n - 1].len()
        } else {
            prev
        }
    }
}

/// The exclusive probe bound at a cursor: one past the longest word, capped
/// by the bytes remaining.
pub open spec fn probe_bound(ws: Seq<Seq<u8>>, remaining: int) -> int {
    let longest = max_word_len_upto(ws, ws.len()) + 1;
    if longest <= remaining {
        longest as int
    } else {
        remaining
    }
}

/// The words the greedy pass emits, concatenated, walking `rest` to its
/// end. Fewer than two remaining symbols end the walk.
pub open spec fn spell_rec(rest: Seq<u8>, ws: Seq<Seq<u8>>) -> Seq<u8>
    decreases rest.len(),
{
    if rest.len() <= 1 {
        Seq::empty()
    } else {
        let picked = best_probe_upto(rest, ws, probe_bound(ws, rest.len() as int) - 1);
        let l = if 1 <= picked.0 < rest.len() {
            picked.0
        } else {
            1
        };
        let i = if 0 <= picked.1 < ws.len() {
            picked.1
        } else {
            0
        };
        ws[i] + spell_rec(rest.skip(l), ws)
    }
}

/// What the re-segmenter returns for a near-plaintext: the greedy word
/// concatenation with the final trailing space popped.
pub open spec fn spell_spec(input: Seq<u8>, ws: Seq<Seq<u8>>) -> Seq<u8> {
    let full = spell_rec(input, ws);
    if full.len() > 0 {
        full.drop_last()
    } else {
        full
    }
}

/// The greedy pick keeps its probe length inside `[1, l]` and its index
/// inside the dictionary.
proof fn lemma_best_probe_range(rest: Seq<u8>, ws: Seq<Seq<u8>>, l: int)
    requires
        ws.len() > 0,
        l >= 1,
    ensures
        1 <= best_probe_upto(rest, ws, l).0 <= l,
        0 <= best_probe_upto(rest, ws, l).1 < ws.len(),
    decreases l,
{
    if l <= 1 {
        lemma_best_index_range(ws, rest.take(1));
    } else {
        lemma_best_probe_range(rest, ws, l - 1);
        lemma_best_index_range(ws, rest.take(l));
    }
}

/// The closest-word index stays inside the dictionary.
proof fn lemma_best_index_upto_range(ws: Seq<Seq<u8>>, probe: Seq<u8>, n: nat)
    requires
        ws.len() > 0,
    ensures
        0 <= BytesDictionary::best_index_upto(ws, probe, n) < if n <= 1 {
            1int
        } else {
            n as int
        },
    decreases n,
{
    if n > 1 {
        lemma_best_index_upto_range(ws, probe, (n - 1) as nat);
    }
}

/// The closest-word index stays inside the dictionary.
proof fn lemma_best_index_range(ws: Seq<Seq<u8>>, probe: Seq<u8>)
    requires
        ws.len() > 0,
    ensures
        0 <= BytesDictionary::best_index(ws, probe) < ws.len(),
{
    lemma_best_index_upto_range(ws, probe, ws.len());
}

/// Exploit knowing the source dictionary: fix up incorrectly guessed
/// shifts by re-segmenting the near-plaintext into dictionary words. The
/// result's confidence is the edit distance from the re-segmentation back
/// to its input, scaled by the input's own confidence.
pub fn spellcheck(cracked: &CrackResult, dict: &BytesDictionary) -> (r: CrackResult)
    requires
        dict.wf(),
        dict.words@.len() > 0,
        forall|i: int| 0 <= i < dict.words@.len() ==> (#[trigger] dict.words@[i])@.len() < 0x400,
        cracked.plaintext@.len() < 0x10_0000,
        -0x4000_0000_0000_0000_0000 <= cracked.confidence <= 0x4000_0000_0000_0000_0000,
    ensures
        r.plaintext@ == spell_spec(cracked.plaintext@, dict.words.deep_view()),
        r.confidence == lev(
            spell_spec(cracked.plaintext@, dict.words.deep_view()),
            cracked.plaintext@,
        ) * cracked.confidence,
{
    let ghost ws = dict.words.deep_view();
    let ghost input = cracked.plaintext@;
    proof {
        assert forall|t: int| 0 <= t < ws.len() implies ws[t] == (#[trigger] dict.words@[t])@ by {
            assert(ws[t] == dict.words@[t].deep_view());
            assert(dict.words@[t].deep_view() =~= dict.words@[t]@);
        }
    }

    // one past the longest byte-form word, so probes cover every word length
    let mut longest: usize = 0;
    let mut t: usize = 0;
    while t < dict.words.len()
        invariant
            t <= dict.words@.len(),
            ws == dict.words.deep_view(),
            forall|k: int| 0 <= k < ws.len() ==> ws[k] == (#[trigger] dict.words@[k])@,
            forall|i: int| 0 <= i < dict.words@.len() ==> (#[trigger] dict.words@[i])@.len()
                < 0x400,
            longest == max_word_len_upto(ws, t as nat),
            longest < 0x400,
        decreases dict.words@.len() - t,
    {
        let wl = dict.words[t].len();
        if wl > longest {
            longest = wl;
        }
        t += 1;
    }
    let longest = longest + 1;

    let mut plaintext: Vec<u8> = Vec::new();
    let mut start: usize = 0;
    let n = cracked.plaintext.len();
    proof {
        assert(input.skip(0) =~= input);
        assert(Seq::<u8>::empty() + spell_rec(input, ws) =~= spell_rec(input, ws));
    }
    while n - start > 1
        invariant
            start <= n,
            n == input.len(),
            input == cracked.plaintext@,
            input.len() < 0x10_0000,
            ws == dict.words.deep_view(),
            dict.wf(),
            dict.words@.len() > 0,
            ws.len() == dict.words@.len(),
            forall|k: int| 0 <= k < ws.len() ==> ws[k] == (#[trigger] dict.words@[k])@,
            forall|i: int| 0 <= i < dict.words@.len() ==> (#[trigger] dict.words@[i])@.len()
                < 0x400,
            longest == max_word_len_upto(ws, ws.len()) + 1,
            longest <= 0x400,
            spell_rec(input, ws) == plaintext@ + spell_rec(input.skip(start as int), ws),
            plaintext@.len() <= start * 0x400,
        decreases n - start,
    {
        let ghost rest = input.skip(start as int);
        let remaining = n - start;
        let rbound = if longest <= remaining {
            longest
        } else {
            remaining
        };
        proof {
            assert(rest.len() == remaining);
            assert(rbound == probe_bound(ws, remaining as int));
            assert(rbound >= 2) by {
                assert(max_word_len_upto(ws, ws.len()) >= ws[0].len()) by {
                    lemma_max_word_len_ge(ws, ws.len(), 0);
                }
                assert(ws[0].len() > 0);
            }
        }

        // scan every probe length, keeping the best score; on ties the
        // longer (later) probe wins
        let probe1 = &cracked.plaintext[start..start + 1];
        proof {
            assert(probe1@ =~= rest.take(1));
        }
        let (w0, d0) = dict.best_levenshtein(probe1);
        proof {
            crate::dict::lemma_lev_upper_bound(
                rest.take(1),
                ws[BytesDictionary::best_index(ws, rest.take(1))],
            );
        }
        let mut best_l: usize = 1;
        let mut best_i_word: &Vec<u8> = w0;
        let mut best_d: usize = d0;
        let mut l: usize = 2;
        proof {
            lemma_best_index_range(ws, rest.take(1));
        }
        while l < rbound
            invariant
                2 <= l <= rbound,
                rbound <= remaining,
                remaining == n - start,
                start < n,
                n == input.len(),
                input == cracked.plaintext@,
                input.len() < 0x10_0000,
                rest == input.skip(start as int),
                rest.len() == remaining,
                ws == dict.words.deep_view(),
                dict.wf(),
                dict.words@.len() > 0,
                ws.len() == dict.words@.len(),
                forall|k: int| 0 <= k < ws.len() ==> ws[k] == (#[trigger] dict.words@[k])@,
                forall|i: int| 0 <= i < dict.words@.len() ==> (#[trigger] dict.words@[i])@.len()
                    < 0x400,
                1 <= best_l < l,
                best_d < 0x2000_0000,
                best_l as int == best_probe_upto(rest, ws, l - 1).0,
                best_i_word == &dict.words@[best_probe_upto(rest, ws, l - 1).1],
                best_d == lev(rest.take(best_l as int), ws[best_probe_upto(rest, ws, l - 1).1]),
            decreases rbound - l,
        {
            proof {
                lemma_best_probe_range(rest, ws, l - 1);
                lemma_best_index_range(ws, rest.take(l as int));
            }
            let probe = &cracked.plaintext[start..start + l];
            proof {
                assert(probe@ =~= rest.take(l as int));
            }
            let (w, d) = dict.best_levenshtein(probe);
            proof {
                crate::dict::lemma_lev_upper_bound(
                    rest.take(l as int),
                    ws[BytesDictionary::best_index(ws, rest.take(l as int))],
                );
            }
            let score: u64 = if d == 0 {
                0xFFFF_FFFF
            } else {
                (l as u64) * 1000 / (d as u64)
            };
            let best_score: u64 = if best_d == 0 {
                0xFFFF_FFFF
            } else {
                (best_l as u64) * 1000 / (best_d as u64)
            };
            proof {
                assert(score == word_score(l as nat, d as nat));
                assert(best_score == word_score(
                    best_l as nat,
                    lev(rest.take(best_l as int), ws[best_probe_upto(rest, ws, l - 1).1]),
                ));
            }
            if score >= best_score {
                best_l = l;
                best_i_word = w;
                best_d = d;
            }
            l += 1;
        }

        proof {
            lemma_best_probe_range(rest, ws, rbound - 1);
            let picked = best_probe_upto(rest, ws, rbound - 1);
            assert(best_l as int == picked.0);
            assert(1 <= picked.0 < rest.len());
            assert(0 <= picked.1 < ws.len());
            assert(best_i_word@ == ws[picked.1]);
            assert(spell_rec(rest, ws) == ws[picked.1] + spell_rec(rest.skip(picked.0), ws));
            assert(rest.skip(picked.0) =~= input.skip(start as int + picked.0));
        }
        let mut segment = best_i_word.clone();
        proof {
            assert(segment@ =~= best_i_word@);
            assert((plaintext@ + segment@) + spell_rec(
                input.skip(start as int + best_l as int),
                ws,
            ) =~= plaintext@ + (segment@ + spell_rec(input.skip(start as int + best_l as int), ws)));
        }
        plaintext.append(&mut segment);
        start += best_l;
    }
    proof {
        assert(spell_rec(input.skip(start as int), ws) =~= Seq::<u8>::empty());
        assert(plaintext@ + Seq::<u8>::empty() =~= plaintext@);
        assert(plaintext@ == spell_rec(input, ws));
    }

    // pop the trailing space every byte-form dictionary word carries
    plaintext.pop();
    proof {
        assert(plaintext@ == spell_spec(input, ws));
    }

    let distance = levenshtein(plaintext.as_slice(), cracked.plaintext.as_slice());
    proof {
        crate::dict::lemma_lev_upper_bound(plaintext@, cracked.plaintext@);
        let di = distance as int;
        let cf = cracked.confidence as int;
        assert(di < 0x8000_0000);
        assert(di * cf <= di * 0x4000_0000_0000_0000_0000 && di * cf >= -(di
            * 0x4000_0000_0000_0000_0000)) by (nonlinear_arith)
            requires
                0 <= di,
                -0x4000_0000_0000_0000_0000 <= cf <= 0x4000_0000_0000_0000_0000,
        ;
        assert(di * 0x4000_0000_0000_0000_0000 < 0x4000_0000_0000_0000_0000_0000_0000_0000)
            by (nonlinear_arith)
            requires
                0 <= di < 0x8000_0000,
        ;
    }
    let confidence = (distance as i128) * cracked.confidence;
    CrackResult { plaintext, confidence }
}

/// The longest-word bound dominates each single word.
proof fn lemma_max_word_len_ge(ws: Seq<Seq<u8>>, n: nat, i: int)
    requires
        0 <= i < n,
        n <= ws.len(),
    ensures
        max_word_len_upto(ws, n) >= ws[i].len(),
    decreases n,
{
    if i < n - 1 {
        lemma_max_word_len_ge(ws, (n - 1) as nat, i);
    }
}

/// A sequence of dictionary picks, concatenated in order.
pub open spec fn concat_words(ws: Seq<Seq<u8>>, picks: Seq<int>) -> Seq<u8>
    decreases picks.len(),
{
    if picks.len() == 0 {
        Seq::empty()
    } else {
        ws[picks.first()] + concat_words(ws, picks.drop_first())
    }
}

/// All picks name dictionary words.
pub open spec fn picks_valid(ws: Seq<Seq<u8>>, picks: Seq<int>) -> bool {
    forall|k: int| 0 <= k < picks.len() ==> 0 <= #[trigger] picks[k] < ws.len()
}

/// Everything the greedy pass emits is a concatenation of dictionary
/// words: each emitted segment is the byte form of some dictionary word.
pub proof fn lemma_spellcheck_segments(rest: Seq<u8>, ws: Seq<Seq<u8>>)
    requires
        ws.len() > 0,
    ensures
        exists|picks: Seq<int>|
            #[trigger] picks_valid(ws, picks) && spell_rec(rest, ws) == concat_words(ws, picks),
    decreases rest.len(),
{
    if rest.len() <= 1 {
        let picks = Seq::<int>::empty();
        assert(picks_valid(ws, picks));
        assert(spell_rec(rest, ws) == concat_words(ws, picks));
    } else {
        let picked = best_probe_upto(rest, ws, probe_bound(ws, rest.len() as int) - 1);
        let l = if 1 <= picked.0 < rest.len() {
            picked.0
        } else {
            1
        };
        let i = if 0 <= picked.1 < ws.len() {
            picked.1
        } else {
            0
        };
        lemma_spellcheck_segments(rest.skip(l), ws);
        let tail_picks = choose|picks: Seq<int>|
            #[trigger] picks_valid(ws, picks) && spell_rec(rest.skip(l), ws) == concat_words(
                ws,
                picks,
            );
        let picks = seq![i] + tail_picks;
        assert(picks.drop_first() =~= tail_picks);
        assert(picks.first() == i);
        assert(picks_valid(ws, picks));
        assert(spell_rec(rest, ws) == concat_words(ws, picks));
    }
}

} // verus!
