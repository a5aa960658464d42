//! Symbol-frequency distributions over the 27-symbol alphabet.
//!
//! A distribution holds, for each symbol, its relative frequency as a
//! fixed-point fraction scaled by [`FREQ_SCALE`]. Distributions are compared
//! by the sum of per-bin absolute differences (L1 distance): lower is closer.

use vstd::prelude::*;

verus! {

use crate::dict::Dictionary;
use crate::utils::{char_of_sym, str_to_bytes, sym_of_char, valid_char, valid_sym};

/// Denominator of the fixed-point frequency fractions.
pub const FREQ_SCALE: u64 = 1048576;

/// Number of occurrences of symbol `v` in `s`.
pub open spec fn count_sym(s: Seq<u8>, v: u8) -> nat
    decreases s.len(),
{
    if s.len() == 0 {
        0
    } else {
        count_sym(s.drop_last(), v) + if s.last() == v {
            1nat
        } else {
            0nat
        }
    }
}

/// A count of `count` out of `total`, as a fixed-point fraction of
/// [`FREQ_SCALE`]. An empty total gives an all-zero distribution.
pub open spec fn freq_value(count: nat, total: nat) -> u64 {
    if total == 0 {
        0u64
    } else {
        ((count * (FREQ_SCALE as nat)) / total) as u64
    }
}

/// Number of occurrences of character `c` in `s`.
pub open spec fn count_char(s: Seq<char>, c: char) -> nat
    decreases s.len(),
{
    if s.len() == 0 {
        0
    } else {
        count_char(s.drop_last(), c) + if s.last() == c {
            1nat
        } else {
            0nat
        }
    }
}

/// Number of occurrences of character `c` across all words.
pub open spec fn words_char_count(ws: Seq<Seq<char>>, c: char) -> nat
    decreases ws.len(),
{
    if ws.len() == 0 {
        0
    } else {
        words_char_count(ws.drop_last(), c) + count_char(ws.last(), c)
    }
}

/// The dictionary-wide count a symbol contributes to the baseline: letter
/// occurrences for `a`..`z`, and one trailing space per word for the space.
pub open spec fn dict_count(ws: Seq<Seq<char>>, k: u8) -> nat {
    if k < 26 {
        words_char_count(ws, char_of_sym(k))
    } else {
        ws.len()
    }
}

/// Sum of the dictionary counts of the first `n` symbols.
pub open spec fn dict_count_sum(ws: Seq<Seq<char>>, n: nat) -> nat
    decreases n,
{
    if n == 0 {
        0
    } else {
        dict_count_sum(ws, (n - 1) as nat) + dict_count(ws, (n - 1) as u8)
    }
}

/// Total weight of the dictionary baseline: all letter occurrences plus one
/// space per word.
pub open spec fn dict_total(ws: Seq<Seq<char>>) -> nat {
    dict_count_sum(ws, 27)
}

/// L1 distance between the first `n` bins of two value sequences.
pub open spec fn l1_partial(a: Seq<u64>, b: Seq<u64>, n: nat) -> nat
    decreases n,
{
    if n == 0 {
        0
    } else {
        l1_partial(a, b, (n - 1) as nat) + if a[n - 1] >= b[n - 1] {
            (a[n - 1] - b[n - 1]) as nat
        } else {
            (b[n - 1] - a[n - 1]) as nat
        }
    }
}

/// L1 distance between two 27-bin value sequences.
pub open spec fn l1_dist(a: Seq<u64>, b: Seq<u64>) -> nat {
    l1_partial(a, b, 27)
}

/// A frequency distribution over the 27 symbols.
pub struct Frequencies {
    /// `values[k]` is the relative frequency of symbol `k`, scaled by
    /// [`FREQ_SCALE`].
    pub values: Vec<u64>,
}

impl Frequencies {
    /// A well-formed distribution has one bin per symbol, none above the
    /// scale denominator.
    pub open spec fn wf(self) -> bool {
        &&& self.values@.len() == 27
        &&& forall|k: int| 0 <= k < 27 ==> self.values@[k] <= FREQ_SCALE
    }

    /// Generate the baseline character frequency from the given dictionary.
    pub fn from_dict(dict: &Dictionary) -> (r: Self)
        requires
            dict_total(dict.words.deep_view()) < 0x1_0000_0000,
        ensures
            r.wf(),
            forall|k: int| 0 <= k < 27 ==> r.values@[k] == freq_value(
                dict_count(dict.words.deep_view(), k as u8),
                dict_total(dict.words.deep_view()),
            ),
    {
        let ghost ws = dict.words.deep_view();
        let mut counts: Vec<u64> = Vec::new();
        let mut k: usize = 0;
        while k < 27
            invariant
                k <= 27,
                counts@.len() == k as int,
                ws == dict.words.deep_view(),
                dict_total(ws) < 0x1_0000_0000,
                forall|t: int| 0 <= t < k as int ==> counts@[t] == dict_count(ws, t as u8),
            decreases 27 - k,
        {
            if k == 26 {
                counts.push(dict.words.len() as u64);
            } else {
                let letter = (k as u8 + 97) as char;
                proof {
                    assert(letter == char_of_sym(k as u8));
                    lemma_dict_count_le_total(ws, k as u8);
                }
                let mut count: u64 = 0;
                let mut w: usize = 0;
                while w < dict.words.len()
                    invariant
                        w <= dict.words@.len(),
                        ws == dict.words.deep_view(),
                        letter == char_of_sym(k as u8),
                        k < 26,
                        dict_total(ws) < 0x1_0000_0000,
                        count == words_char_count(ws.take(w as int), letter),
                        count <= 0x1_0000_0000u64,
                    decreases dict.words@.len() - w,
                {
                    proof {
                        lemma_words_char_count_prefix_le(ws, letter, (w + 1) as int);
                        lemma_dict_count_le_total(ws, k as u8);
                        assert(ws.take(w + 1).drop_last() =~= ws.take(w as int));
                        assert(ws.take(w + 1).last() == ws[w as int]);
                    }
                    let word = &dict.words[w];
                    let wlen = word.unicode_len();
                    let ghost wchars = ws[w as int];
                    let mut c: usize = 0;
                    let mut wcount: u64 = 0;
                    while c < wlen
                        invariant
                            c <= wlen,
                            wlen == wchars.len(),
                            wchars == word@,
                            word == dict.words@[w as int],
                            w < dict.words@.len(),
                            ws == dict.words.deep_view(),
                            wcount == count_char(wchars.take(c as int), letter),
                            wcount <= c,
                        decreases wlen - c,
                    {
                        proof {
                            assert(wchars.take(c + 1).drop_last() =~= wchars.take(c as int));
                            assert(wchars.take(c + 1).last() == wchars[c as int]);
                        }
                        if word.get_char(c) == letter {
                            wcount += 1;
                        }
                        c += 1;
                    }
                    proof {
                        assert(wchars.take(wlen as int) =~= wchars);
                        assert(words_char_count(ws.take(w + 1), letter) == words_char_count(
                            ws.take(w as int),
                            letter,
                        ) + count_char(wchars, letter));
                    }
                    count += wcount;
                    w += 1;
                }
                proof {
                    assert(ws.take(dict.words@.len() as int) =~= ws);
                }
                counts.push(count);
            }
            k += 1;
        }

        let mut total: u64 = 0;
        let mut k2: usize = 0;
        while k2 < 27
            invariant
                k2 <= 27,
                counts@.len() == 27,
                ws == dict.words.deep_view(),
                dict_total(ws) < 0x1_0000_0000,
                forall|t: int| 0 <= t < 27 ==> counts@[t] == dict_count(ws, t as u8),
                total == dict_count_sum(ws, k2 as nat),
            decreases 27 - k2,
        {
            proof {
                lemma_dict_count_sum_le(ws, (k2 + 1) as nat, 27);
            }
            total += counts[k2];
            k2 += 1;
        }

        let mut values: Vec<u64> = Vec::new();
        let mut k3: usize = 0;
        while k3 < 27
            invariant
                k3 <= 27,
                counts@.len() == 27,
                ws == dict.words.deep_view(),
                dict_total(ws) < 0x1_0000_0000,
                total == dict_total(ws),
                forall|t: int| 0 <= t < 27 ==> counts@[t] == dict_count(ws, t as u8),
                values@.len() == k3 as int,
                forall|t: int| 0 <= t < k3 as int ==> values@[t] == freq_value(
                    dict_count(ws, t as u8),
                    dict_total(ws),
                ),
                forall|t: int| 0 <= t < k3 as int ==> values@[t] <= FREQ_SCALE,
            decreases 27 - k3,
        {
            let v: u64 = if total == 0 {
                0
            } else {
                proof {
                    lemma_dict_count_le_total(ws, k3 as u8);
                    vstd::arithmetic::div_mod::lemma_div_is_ordered(
                        counts@[k3 as int] * FREQ_SCALE as int,
                        total as int * FREQ_SCALE as int,
                        total as int,
                    );
                    vstd::arithmetic::div_mod::lemma_div_by_multiple(FREQ_SCALE as int, total as int);
                }
                counts[k3] * FREQ_SCALE / total
            };
            values.push(v);
            k3 += 1;
        }
        Frequencies { values }
    }

    /// Calculate the character frequency of a byte sequence of symbols.
    pub fn from_bytes(bytes: &[u8]) -> (r: Self)
        requires
            forall|i: int| 0 <= i < bytes@.len() ==> valid_sym(#[trigger] bytes@[i]),
            bytes@.len() < 0x1_0000_0000,
        ensures
            r.wf(),
            forall|k: int| 0 <= k < 27 ==> r.values@[k] == freq_value(
                count_sym(bytes@, k as u8),
                bytes@.len(),
            ),
    {
        let mut counts: Vec<u64> = vec![0u64; 27];
        let mut i: usize = 0;
        while i < bytes.len()
            invariant
                i <= bytes@.len(),
                bytes@.len() < 0x1_0000_0000,
                forall|j: int| 0 <= j < bytes@.len() ==> valid_sym(#[trigger] bytes@[j]),
                counts@.len() == 27,
                forall|k: int| 0 <= k < 27 ==> counts@[k] == count_sym(
                    bytes@.take(i as int),
                    k as u8,
                ),
            decreases bytes@.len() - i,
        {
            let b = bytes[i];
            proof {
                lemma_count_sym_le(bytes@.take(i as int), b);
                assert forall|k: int| 0 <= k < 27 implies #[trigger] count_sym(
                    bytes@.take(i + 1),
                    k as u8,
                ) == count_sym(bytes@.take(i as int), k as u8) + (if k == b as int {
                    1nat
                } else {
                    0nat
                }) by {
                    assert(bytes@.take(i + 1).drop_last() =~= bytes@.take(i as int));
                    assert(bytes@.take(i + 1).last() == bytes@[i as int]);
                }
            }
            let cur = counts[b as usize];
            counts[b as usize] = cur + 1;
            i += 1;
        }
        proof {
            assert(bytes@.take(bytes@.len() as int) =~= bytes@);
        }

        let total: u64 = bytes.len() as u64;
        let mut values: Vec<u64> = Vec::new();
        let mut k: usize = 0;
        while k < 27
            invariant
                k <= 27,
                counts@.len() == 27,
                total == bytes@.len(),
                bytes@.len() < 0x1_0000_0000,
                forall|t: int| 0 <= t < 27 ==> counts@[t] == count_sym(bytes@, t as u8),
                values@.len() == k as int,
                forall|t: int| 0 <= t < k as int ==> values@[t] == freq_value(
                    count_sym(bytes@, t as u8),
                    bytes@.len(),
                ),
                forall|t: int| 0 <= t < k as int ==> values@[t] <= FREQ_SCALE,
            decreases 27 - k,
        {
            let v: u64 = if total == 0 {
                0
            } else {
                proof {
                    lemma_count_sym_le(bytes@, k as u8);
                    vstd::arithmetic::div_mod::lemma_div_is_ordered(
                        counts@[k as int] * FREQ_SCALE as int,
                        total as int * FREQ_SCALE as int,
                        total as int,
                    );
                    vstd::arithmetic::div_mod::lemma_div_by_multiple(FREQ_SCALE as int, total as int);
                }
                counts[k] * FREQ_SCALE / total
            };
            values.push(v);
            k += 1;
        }
        Frequencies { values }
    }

    /// Calculate the character frequency of a string over the alphabet.
    pub fn from_str(s: &str) -> (r: Self)
        requires
            forall|i: int| 0 <= i < s@.len() ==> valid_char(#[trigger] s@[i]),
            s@.len() < 0x1_0000_0000,
        ensures
            r.wf(),
            forall|k: int| 0 <= k < 27 ==> r.values@[k] == freq_value(
                count_sym(s@.map_values(|c: char| sym_of_char(c)), k as u8),
                s@.len(),
            ),
    {
        let bytes = str_to_bytes(s);
        proof {
            assert(bytes@ =~= s@.map_values(|c: char| sym_of_char(c)));
        }
        Self::from_bytes(bytes.as_slice())
    }

    /// Compare two frequency distributions by L1 distance. Lower means
    /// closer; equal distributions give zero.
    pub fn compare(&self, other: &Self) -> (r: u64)
        requires
            self.wf(),
            other.wf(),
        ensures
            r == l1_dist(self.values@, other.values@),
            r <= 27 * FREQ_SCALE,
    {
        let mut sum: u64 = 0;
        let mut k: usize = 0;
        while k < 27
            invariant
                k <= 27,
                self.wf(),
                other.wf(),
                sum == l1_partial(self.values@, other.values@, k as nat),
                sum <= k * FREQ_SCALE,
            decreases 27 - k,
        {
            let a = self.values[k];
            let b = other.values[k];
            let d = if a >= b {
                a - b
            } else {
                b - a
            };
            sum += d;
            k += 1;
        }
        sum
    }
}

/// A symbol's count never exceeds the sequence length.
pub proof fn lemma_count_sym_le(s: Seq<u8>, v: u8)
    ensures
        count_sym(s, v) <= s.len(),
    decreases s.len(),
{
    if s.len() > 0 {
        lemma_count_sym_le(s.drop_last(), v);
    }
}

/// A character's count never exceeds the word length.
proof fn lemma_count_char_le(s: Seq<char>, c: char)
    ensures
        count_char(s, c) <= s.len(),
    decreases s.len(),
{
    if s.len() > 0 {
        lemma_count_char_le(s.drop_last(), c);
    }
}

/// Character counts grow monotonically with word prefixes.
proof fn lemma_words_char_count_prefix_le(ws: Seq<Seq<char>>, c: char, n: int)
    requires
        0 <= n <= ws.len(),
    ensures
        words_char_count(ws.take(n), c) <= words_char_count(ws, c),
    decreases ws.len() - n,
{
    if n == ws.len() {
        assert(ws.take(n) =~= ws);
    } else {
        lemma_words_char_count_prefix_le(ws, c, n + 1);
        assert(ws.take(n + 1).drop_last() =~= ws.take(n));
    }
}

/// Partial dictionary-count sums are monotone in the bin bound.
proof fn lemma_dict_count_sum_le(ws: Seq<Seq<char>>, n: nat, m: nat)
    requires
        n <= m,
    ensures
        dict_count_sum(ws, n) <= dict_count_sum(ws, m),
    decreases m - n,
{
    if n < m {
        lemma_dict_count_sum_le(ws, n, (m - 1) as nat);
    }
}

/// Every single bin's dictionary count is at most the dictionary total.
pub proof fn lemma_dict_count_le_total(ws: Seq<Seq<char>>, k: u8)
    requires
        k < 27,
    ensures
        dict_count(ws, k) <= dict_total(ws),
{
    lemma_dict_count_sum_le(ws, k as nat, 27);
    lemma_dict_count_sum_le(ws, (k + 1) as nat, 27);
    assert(dict_count_sum(ws, (k + 1) as nat) == dict_count_sum(ws, k as nat) + dict_count(ws, k));
}

/// The distance of a distribution to itself is zero.
pub proof fn lemma_compare_self_zero(a: Seq<u64>)
    ensures
        l1_dist(a, a) == 0,
{
    lemma_l1_partial_self_zero(a, 27);
}

proof fn lemma_l1_partial_self_zero(a: Seq<u64>, n: nat)
    ensures
        l1_partial(a, a, n) == 0,
    decreases n,
{
    if n > 0 {
        lemma_l1_partial_self_zero(a, (n - 1) as nat);
    }
}

/// The distance between two distributions does not depend on their order.
pub proof fn lemma_compare_symmetric(a: Seq<u64>, b: Seq<u64>)
    ensures
        l1_dist(a, b) == l1_dist(b, a),
{
    lemma_l1_partial_symmetric(a, b, 27);
}

proof fn lemma_l1_partial_symmetric(a: Seq<u64>, b: Seq<u64>, n: nat)
    ensures
        l1_partial(a, b, n) == l1_partial(b, a, n),
    decreases n,
{
    if n > 0 {
        lemma_l1_partial_symmetric(a, b, (n - 1) as nat);
    }
}

/// For a non-empty input the fixed-point frequencies sum to nearly the whole
/// scale: the rounding error stays below one unit per bin.
pub proof fn lemma_freq_values_sum(bytes: Seq<u8>)
    requires
        bytes.len() > 0,
        forall|i: int| 0 <= i < bytes.len() ==> valid_sym(#[trigger] bytes[i]),
    ensures
        freq_values_sum(bytes, 27) <= FREQ_SCALE,
        freq_values_sum(bytes, 27) > FREQ_SCALE - 27,
{
    lemma_count_sum_total(bytes, 27);
    lemma_freq_sum_bounds(bytes, 27);
    let total = bytes.len();
    let s = freq_values_sum(bytes, 27);
    assert(count_sum(bytes, 27) == total);
    assert(s <= FREQ_SCALE) by (nonlinear_arith)
        requires
            s * total <= total * FREQ_SCALE,
            total > 0,
    ;
    assert(s > FREQ_SCALE - 27) by (nonlinear_arith)
        requires
            s * total + 27 * total > total * FREQ_SCALE,
            total > 0,
    ;
}

/// Sum of the fixed-point frequency values of the first `n` bins.
pub open spec fn freq_values_sum(bytes: Seq<u8>, n: nat) -> nat
    decreases n,
{
    if n == 0 {
        0
    } else {
        freq_values_sum(bytes, (n - 1) as nat) + freq_value(
            count_sym(bytes, (n - 1) as u8),
            bytes.len(),
        ) as nat
    }
}

/// Sum of the counts of the first `n` bins.
pub open spec fn count_sum(bytes: Seq<u8>, n: nat) -> nat
    decreases n,
{
    if n == 0 {
        0
    } else {
        count_sum(bytes, (n - 1) as nat) + count_sym(bytes, (n - 1) as u8)
    }
}

/// Every byte of a valid-symbol sequence lands in exactly one of the 27
/// bins, so the bin counts sum to the length.
proof fn lemma_count_sum_total(bytes: Seq<u8>, n: nat)
    requires
        n == 27,
        forall|i: int| 0 <= i < bytes.len() ==> valid_sym(#[trigger] bytes[i]),
    ensures
        count_sum(bytes, 27) == bytes.len(),
    decreases bytes.len(),
{
    if bytes.len() == 0 {
        lemma_count_sum_zero(bytes, 27);
    } else {
        let prefix = bytes.drop_last();
        assert(forall|i: int| 0 <= i < prefix.len() ==> valid_sym(#[trigger] prefix[i]));
        lemma_count_sum_total(prefix, 27);
        lemma_count_sum_step(bytes, prefix, 27);
        assert(valid_sym(bytes.last()));
    }
}

/// The empty sequence has zero in every bin.
proof fn lemma_count_sum_zero(bytes: Seq<u8>, n: nat)
    requires
        bytes.len() == 0,
    ensures
        count_sum(bytes, n) == 0,
    decreases n,
{
    if n > 0 {
        lemma_count_sum_zero(bytes, (n - 1) as nat);
    }
}

/// Appending one byte raises the first-`n` count sum by one exactly when the
/// byte's bin lies below `n`.
proof fn lemma_count_sum_step(bytes: Seq<u8>, prefix: Seq<u8>, n: nat)
    requires
        bytes.len() > 0,
        prefix == bytes.drop_last(),
        n <= 256,
    ensures
        count_sum(bytes, n) == count_sum(prefix, n) + if (bytes.last() as nat) < n {
            1nat
        } else {
            0nat
        },
    decreases n,
{
    if n > 0 {
        lemma_count_sum_step(bytes, prefix, (n - 1) as nat);
        let k = (n - 1) as u8;
        assert(count_sum(bytes, n) == count_sum(bytes, (n - 1) as nat) + count_sym(bytes, k));
        assert(count_sym(bytes, k) == count_sym(prefix, k) + if bytes.last() == k {
            1nat
        } else {
            0nat
        });
        assert(count_sum(prefix, n) == count_sum(prefix, (n - 1) as nat) + count_sym(prefix, k));
        assert(bytes.last() == k <==> bytes.last() as nat == n - 1);
    }
}

/// Summed floor divisions stay within `n` units of the exact fraction sum.
proof fn lemma_freq_sum_bounds(bytes: Seq<u8>, n: nat)
    requires
        bytes.len() > 0,
        n <= 27,
        forall|i: int| 0 <= i < bytes.len() ==> valid_sym(#[trigger] bytes[i]),
    ensures
        freq_values_sum(bytes, n) * bytes.len() <= count_sum(bytes, n) * FREQ_SCALE,
        freq_values_sum(bytes, n) * bytes.len() + n * bytes.len() >= count_sum(bytes, n)
            * FREQ_SCALE,
        n > 0 ==> freq_values_sum(bytes, n) * bytes.len() + n * bytes.len() > count_sum(bytes, n)
            * FREQ_SCALE,
    decreases n,
{
    let total = bytes.len();
    if n == 0 {
    } else {
        lemma_freq_sum_bounds(bytes, (n - 1) as nat);
        let c = count_sym(bytes, (n - 1) as u8);
        let v = freq_value(c, total);
        lemma_count_sym_le(bytes, (n - 1) as u8);
        let prod = (c * (FREQ_SCALE as nat)) as int;
        let t = total as int;
        let q = prod / t;
        let m = prod % t;
        vstd::arithmetic::div_mod::lemma_fundamental_div_mod(prod, t);
        vstd::arithmetic::div_mod::lemma_mod_bound(prod, t);
        assert(prod == t * q + m);
        assert(0 <= m < t);
        assert(prod <= t * (FREQ_SCALE as int)) by (nonlinear_arith)
            requires
                prod == (c * (FREQ_SCALE as nat)) as int,
                t == total as int,
                c <= total,
        ;
        vstd::arithmetic::div_mod::lemma_div_is_ordered(prod, t * (FREQ_SCALE as int), t);
        vstd::arithmetic::div_mod::lemma_div_by_multiple(FREQ_SCALE as int, t);
        assert(q <= FREQ_SCALE);
        assert(v == q);
        assert(v * t <= prod) by (nonlinear_arith)
            requires
                t > 0,
                v == q,
                prod == t * q + m,
                0 <= m,
                m < t,
        ;
        assert(v * t + t > prod) by (nonlinear_arith)
            requires
                t > 0,
                v == q,
                prod == t * q + m,
                0 <= m,
                m < t,
        ;
        let s1 = freq_values_sum(bytes, (n - 1) as nat) as int;
        let c1 = count_sum(bytes, (n - 1) as nat) as int;
        let sn = freq_values_sum(bytes, n) as int;
        let cn = count_sum(bytes, n) as int;
        assert(sn == s1 + v);
        assert(cn == c1 + c);
        assert(s1 * t <= c1 * (FREQ_SCALE as int));
        assert(sn * t <= cn * (FREQ_SCALE as int)) by (nonlinear_arith)
            requires
                sn == s1 + v,
                cn == c1 + c,
                s1 * t <= c1 * (FREQ_SCALE as int),
                v * t <= prod,
                prod == (c * (FREQ_SCALE as nat)) as int,
        ;
        assert(s1 * t + (n - 1) * t >= c1 * (FREQ_SCALE as int));
        assert(sn * t + n * t > cn * (FREQ_SCALE as int)) by (nonlinear_arith)
            requires
                sn == s1 + v,
                cn == c1 + c,
                s1 * t + (n - 1) * t >= c1 * (FREQ_SCALE as int),
                v * t + t > prod,
                prod == (c * (FREQ_SCALE as nat)) as int,
        ;
    }
}

} // verus!
