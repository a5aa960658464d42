//! The cracking driver: compose keylength estimation, column cracking and
//! re-segmentation into a single plaintext recovery.
//!
//! Two scenarios are supported. With known candidate plaintexts, each
//! candidate's own frequency distribution drives the cracker and a close
//! enough edit-distance match returns that candidate verbatim. Otherwise
//! the dictionary baseline drives the cracker at every ranked keylength,
//! and the re-segmented result with the smallest confidence wins.

use vstd::prelude::*;

verus! {

use crate::crack::{crack, crack_spec, CrackResult};
use crate::dict::{lev, levenshtein, BytesDictionary};
use crate::freq::{Frequencies, FREQ_SCALE};
use crate::keylength::{guesses, ranking_ok, SCORE_CAP};
use crate::spellcheck::{spell_spec, spellcheck};
use crate::utils::valid_sym;

/// How a candidate scores at one linear try index: the edit distance of
/// the crack at that keylength to the candidate, over the candidate
/// length. Try `t` pairs candidate `t / 117` with keylength `3 + t % 117`.
#[verifier::opaque]
pub open spec fn a_score(ct: Seq<u8>, known: Seq<(Vec<u8>, Frequencies)>, t: int) -> (nat, nat) {
    let k = t / 117;
    let p = 3 + t % 117;
    (lev(crack_spec(ct, p, known[k].1.values@).0, known[k].0@), known[k].0@.len())
}

/// Fraction comparison: `a` is strictly better (smaller) than `b`.
pub open spec fn frac_lt(a: (nat, nat), b: (nat, nat)) -> bool {
    a.0 * b.1 < b.0 * a.1
}

/// The first try index among `[0, n)` with the best candidate score.
pub open spec fn a_best_upto(ct: Seq<u8>, known: Seq<(Vec<u8>, Frequencies)>, n: nat) -> int
    decreases n,
{
    if n <= 1 {
        0
    } else {
        let prev = a_best_upto(ct, known, (n - 1) as nat);
        if frac_lt(a_score(ct, known, n - 1), a_score(ct, known, prev)) {
            n - 1
        } else {
            prev
        }
    }
}

/// Whether the known-candidate pass hits: some candidate reconstructs to
/// within 0.8 edits per symbol of itself.
pub open spec fn a_pass(ct: Seq<u8>, known: Seq<(Vec<u8>, Frequencies)>) -> bool {
    known.len() > 0 && {
        let best = a_score(ct, known, a_best_upto(ct, known, (known.len() * 117) as nat));
        best.0 * 10 < 8 * best.1
    }
}

/// What one ranked keylength contributes in the unknown-plaintext pass:
/// the re-segmented crack and its confidence, the crack confidence scaled
/// by the keylength score and by the re-segmentation distance. Confidence
/// stays non-negative, so a below-one period score scales by one instead
/// of cancelling or flipping the comparison.
#[verifier::opaque]
pub open spec fn b_entry(
    ct: Seq<u8>,
    base: Seq<u64>,
    ws: Seq<Seq<u8>>,
    pair: (usize, i128),
) -> (Seq<u8>, int) {
    let cracked = crack_spec(ct, pair.0 as int, base);
    let factor: int = if pair.1 >= 1 {
        pair.1 as int
    } else {
        1
    };
    let scaled = cracked.1 * factor;
    let sp = spell_spec(cracked.0, ws);
    (sp, lev(sp, cracked.0) * scaled)
}

/// The first index among `[0, n)` of the ranked list whose entry has the
/// smallest confidence.
pub open spec fn b_best_upto(
    ct: Seq<u8>,
    base: Seq<u64>,
    ws: Seq<Seq<u8>>,
    ranked: Seq<(usize, i128)>,
    n: nat,
) -> int
    decreases n,
{
    if n <= 1 {
        0
    } else {
        let prev = b_best_upto(ct, base, ws, ranked, (n - 1) as nat);
        if b_entry(ct, base, ws, ranked[n - 1]).1 < b_entry(ct, base, ws, ranked[prev]).1 {
            n - 1
        } else {
            prev
        }
    }
}

/// The plaintext the driver returns, given the keylength ranking. An
/// empty ranking (the ciphertext was too short to estimate) falls back to
/// the closest known candidate regardless of its score, or to the empty
/// text when none is known.
pub open spec fn driver_spec(
    ct: Seq<u8>,
    base: Seq<u64>,
    ws: Seq<Seq<u8>>,
    known: Seq<(Vec<u8>, Frequencies)>,
    ranked: Seq<(usize, i128)>,
) -> Seq<u8> {
    if a_pass(ct, known) {
        known[a_best_upto(ct, known, (known.len() * 117) as nat) / 117].0@
    } else if ranked.len() == 0 {
        if known.len() > 0 {
            known[a_best_upto(ct, known, (known.len() * 117) as nat) / 117].0@
        } else {
            Seq::empty()
        }
    } else {
        b_entry(ct, base, ws, ranked[b_best_upto(ct, base, ws, ranked, ranked.len())]).0
    }
}

/// One known-candidate try: crack at the keylength of try `t` with the
/// candidate's distribution and measure the edit distance to the
/// candidate.
fn a_try(ciphertext: &[u8], known: &Vec<(Vec<u8>, Frequencies)>, t: usize) -> (r: (usize, usize))
    requires
        forall|i: int| 0 <= i < ciphertext@.len() ==> valid_sym(#[trigger] ciphertext@[i]),
        ciphertext@.len() < 0x10_0000,
        known@.len() >= 1,
        known@.len() <= 0x1000,
        t < known@.len() * 117,
        forall|k: int| 0 <= k < known@.len() ==> (#[trigger] known@[k]).1.wf(),
        forall|k: int| 0 <= k < known@.len() ==> 1 <= (#[trigger] known@[k]).0@.len() < 0x10_0000,
    ensures
        (r.0 as nat, r.1 as nat) == a_score(ciphertext@, known@, t as int),
        r.0 <= 0x20_0000,
        1 <= r.1 < 0x10_0000,
{
    let ghost ct = ciphertext@;
    let ghost kn = known@;
    proof {
        assert(t as int / 117 < kn.len() && t as int % 117 < 117) by (nonlinear_arith)
            requires
                0 <= (t as int),
                (t as int) < kn.len() * 117,
                kn.len() >= 1,
        ;
    }
    let k = t / 117;
    let p = 3 + t % 117;
    let res = crack(ciphertext, p, &known[k].1);
    proof {
        crate::crack::lemma_crack_pointwise(ct, p as int, kn[k as int].1.values@);
    }
    let d = levenshtein(res.plaintext.as_slice(), known[k].0.as_slice());
    let l = known[k].0.len();
    proof {
        reveal(a_score);
        crate::dict::lemma_lev_upper_bound(res.plaintext@, kn[k as int].0@);
        assert((d as nat, l as nat) == a_score(ct, kn, t as int));
    }
    (d, l)
}

/// Recover a plaintext from the ciphertext alone. The known-candidate
/// pass is tried first: every candidate distribution drives the cracker
/// at every keylength, and a reconstruction within 0.8 edits per symbol
/// returns its candidate verbatim. Otherwise every ranked keylength is
/// cracked against the dictionary baseline, re-segmented, and the result
/// with the smallest confidence wins.
#[verifier::rlimit(100)]
pub fn crack_single_ciphertext(
    ciphertext: &[u8],
    baseline: &Frequencies,
    bytes_dict: &BytesDictionary,
    known: &Vec<(Vec<u8>, Frequencies)>,
) -> (r: Vec<u8>)
    requires
        forall|i: int| 0 <= i < ciphertext@.len() ==> valid_sym(#[trigger] ciphertext@[i]),
        ciphertext@.len() < 0x10_0000,
        baseline.wf(),
        bytes_dict.wf(),
        bytes_dict.words@.len() > 0,
        forall|i: int| 0 <= i < bytes_dict.words@.len() ==> (#[trigger] bytes_dict.words@[i])@.len()
            < 0x400,
        known@.len() <= 0x1000,
        forall|k: int| 0 <= k < known@.len() ==> (#[trigger] known@[k]).1.wf(),
        forall|k: int| 0 <= k < known@.len() ==> 1 <= (#[trigger] known@[k]).0@.len() < 0x10_0000,
    ensures
        exists|ranked: Seq<(usize, i128)>|
            {
                &&& #[trigger] ranking_ok(ciphertext@, ranked)
                &&& r@ == driver_spec(
                    ciphertext@,
                    baseline.values@,
                    bytes_dict.words.deep_view(),
                    known@,
                    ranked,
                )
            },
{
    let ghost ct = ciphertext@;
    let ghost base = baseline.values@;
    let ghost ws = bytes_dict.words.deep_view();
    let ghost kn = known@;

    // rank the candidate keylengths once; both passes lean on the ranking
    let mut keysizes: Vec<(usize, i128)> = Vec::new();
    guesses(ciphertext, &mut keysizes);
    let ghost ranked = keysizes@;

    // known-candidate pass: crack with each candidate's own distribution
    // at every keylength and keep the closest reconstruction
    let mut best_t: usize = 0;
    let mut best_lev: usize = 0;
    let mut best_len: usize = 1;
    let total = known.len() * 117;
    if known.len() > 0 {
        proof {
            assert(kn.len() * 117 >= 117) by (nonlinear_arith)
                requires
                    kn.len() >= 1,
            ;
        }
        let (d0, l0) = a_try(ciphertext, known, 0);
        best_lev = d0;
        best_len = l0;
        let mut t: usize = 1;
        while t < total
            invariant
                1 <= t <= total,
                total == kn.len() * 117,
                kn.len() <= 0x1000,
                ct == ciphertext@,
                ct.len() < 0x10_0000,
                kn == known@,
                forall|i: int| 0 <= i < ct.len() ==> valid_sym(#[trigger] ct[i]),
                forall|k: int| 0 <= k < kn.len() ==> (#[trigger] kn[k]).1.wf(),
                forall|k: int| 0 <= k < kn.len() ==> 1 <= (#[trigger] kn[k]).0@.len() < 0x10_0000,
                best_t < t,
                best_t as int == a_best_upto(ct, kn, t as nat),
                (best_lev as nat, best_len as nat) == a_score(ct, kn, best_t as int),
                best_lev <= 0x20_0000,
                1 <= best_len < 0x10_0000,
            decreases total - t,
        {
            let (d, l) = a_try(ciphertext, known, t);
            proof {
                assert((d as int) * (best_len as int) <= 0x20_0000 * 0x10_0000 && (best_lev as int)
                    * (l as int) <= 0x20_0000 * 0x10_0000) by (nonlinear_arith)
                    requires
                        0 <= (d as int) <= 0x20_0000,
                        0 <= (best_len as int) <= 0x10_0000,
                        0 <= (best_lev as int) <= 0x20_0000,
                        0 <= (l as int) <= 0x10_0000,
                ;
            }
            let cur_better = (d as u64) * (best_len as u64) < (best_lev as u64) * (l as u64);
            if cur_better {
                best_t = t;
                best_lev = d;
                best_len = l;
            }
            t += 1;
        }
        if (best_lev as u64) * 10 < 8 * (best_len as u64) {
            proof {
                assert(a_pass(ct, kn));
                assert(best_t as int / 117 < kn.len()) by (nonlinear_arith)
                    requires
                        0 <= (best_t as int),
                        (best_t as int) < kn.len() * 117,
                        kn.len() >= 1,
                ;
            }
            let kb = best_t / 117;
            let chosen = known[kb].0.clone();
            proof {
                assert(chosen@ =~= kn[kb as int].0@);
                assert(ranking_ok(ct, ranked) && chosen@ == driver_spec(ct, base, ws, kn, ranked));
            }
            return chosen;
        }
        proof {
            assert(!a_pass(ct, kn));
        }
    }
    proof {
        if kn.len() == 0 {
            assert(!a_pass(ct, kn));
        }
    }

    // too little ciphertext to rank: stay with the candidate pass alone
    if keysizes.len() == 0 {
        if known.len() > 0 {
            proof {
                assert(best_t as int / 117 < kn.len()) by (nonlinear_arith)
                    requires
                        0 <= (best_t as int),
                        (best_t as int) < kn.len() * 117,
                        kn.len() >= 1,
                ;
            }
            let kb = best_t / 117;
            let chosen = known[kb].0.clone();
            proof {
                assert(chosen@ =~= kn[kb as int].0@);
                assert(ranking_ok(ct, ranked) && chosen@ == driver_spec(ct, base, ws, kn, ranked));
            }
            return chosen;
        }
        let empty: Vec<u8> = Vec::new();
        proof {
            assert(empty@ =~= Seq::<u8>::empty());
            assert(ranking_ok(ct, ranked) && empty@ == driver_spec(ct, base, ws, kn, ranked));
        }
        return empty;
    }

    // unknown-plaintext pass: crack every ranked keylength against the
    // dictionary baseline and re-segment
    let (p0, s0) = keysizes[0];
    let f0: i128 = if s0 >= 1 {
        s0
    } else {
        1
    };
    let first = crack(ciphertext, p0, baseline);
    proof {
        lemma_scale_bounds(first.confidence as int, f0 as int);
        crate::crack::lemma_crack_pointwise(ct, p0 as int, base);
    }
    let scaled = CrackResult { plaintext: first.plaintext, confidence: first.confidence * f0 };
    let sp = spellcheck(&scaled, bytes_dict);
    let mut best_pt = sp.plaintext;
    let mut best_conf = sp.confidence;
    proof {
        reveal(b_entry);
        assert((best_pt@, best_conf as int) == b_entry(ct, base, ws, ranked[0]));
    }
    let mut j: usize = 1;
    while j < keysizes.len()
        invariant
            1 <= j <= ranked.len(),
            ranked == keysizes@,
            ranked.len() == 117,
            ct == ciphertext@,
            ct.len() < 0x10_0000,
            base == baseline.values@,
            ws == bytes_dict.words.deep_view(),
            baseline.wf(),
            bytes_dict.wf(),
            bytes_dict.words@.len() > 0,
            forall|i: int| 0 <= i < bytes_dict.words@.len() ==> (#[trigger] bytes_dict.words@[i])@.len()
                < 0x400,
            forall|i: int| 0 <= i < ct.len() ==> valid_sym(#[trigger] ct[i]),
            forall|i: int|
                0 <= i < ranked.len() ==> ((3 <= (#[trigger] ranked[i]).0 < 120) && -SCORE_CAP <= ranked[i].1
                    <= SCORE_CAP),
            (best_pt@, best_conf as int) == b_entry(
                ct,
                base,
                ws,
                ranked[b_best_upto(ct, base, ws, ranked, j as nat)],
            ),
        decreases ranked.len() - j,
    {
        let (p, s) = keysizes[j];
        let f: i128 = if s >= 1 {
            s
        } else {
            1
        };
        let res = crack(ciphertext, p, baseline);
        proof {
            lemma_scale_bounds(res.confidence as int, f as int);
            crate::crack::lemma_crack_pointwise(ct, p as int, base);
        }
        let scaled = CrackResult { plaintext: res.plaintext, confidence: res.confidence * f };
        let sp = spellcheck(&scaled, bytes_dict);
        proof {
            reveal(b_entry);
            assert((sp.plaintext@, sp.confidence as int) == b_entry(ct, base, ws, ranked[j as int]));
        }
        if sp.confidence < best_conf {
            best_pt = sp.plaintext;
            best_conf = sp.confidence;
        }
        j += 1;
    }
    proof {
        assert(best_pt@ == driver_spec(ct, base, ws, kn, ranked));
        assert(ranking_ok(ct, ranked));
    }
    best_pt
}

/// The scaled confidence stays well inside the re-segmenter's accepted
/// range.
proof fn lemma_scale_bounds(conf: int, score: int)
    requires
        0 <= conf <= 150 * 27 * FREQ_SCALE,
        1 <= score <= SCORE_CAP,
    ensures
        -0x4000_0000_0000_0000_0000 <= conf * score <= 0x4000_0000_0000_0000_0000,
{
    assert(conf * score <= (150 * 27 * FREQ_SCALE) * SCORE_CAP && conf * score >= 0)
        by (nonlinear_arith)
        requires
            0 <= conf <= 150 * 27 * FREQ_SCALE,
            1 <= score <= SCORE_CAP,
    ;
}

/// Recovery accuracy of an attempt, as a fixed-point fraction of
/// [`FREQ_SCALE`]: one minus the normalized edit distance of the
/// recovered text to the actual plaintext, floored at zero.
pub fn accuracy(recovered: &[u8], actual: &[u8]) -> (r: u64)
    requires
        1 <= actual@.len() < 0x10_0000,
        recovered@.len() < 0x4000_0000,
    ensures
        r == accuracy_spec(recovered@, actual@),
{
    let d = levenshtein(recovered, actual);
    proof {
        crate::dict::lemma_lev_upper_bound(recovered@, actual@);
    }
    let scaled = (d as u64) * FREQ_SCALE / (actual.len() as u64);
    if scaled >= FREQ_SCALE {
        0
    } else {
        FREQ_SCALE - scaled
    }
}

/// One minus the normalized edit distance, scaled by [`FREQ_SCALE`] and
/// floored at zero.
pub open spec fn accuracy_spec(recovered: Seq<u8>, actual: Seq<u8>) -> u64 {
    let scaled = (lev(recovered, actual) * FREQ_SCALE) as nat / actual.len();
    if scaled >= FREQ_SCALE {
        0u64
    } else {
        (FREQ_SCALE - scaled) as u64
    }
}

} // verus!
