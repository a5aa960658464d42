//! Cracking ciphertext once a candidate keylength is known.
//!
//! The ciphertext is de-interleaved into one column per key position; each
//! column is brute-forced over the 27 possible shifts against a baseline
//! frequency distribution; the shifted columns are re-interleaved into a
//! candidate plaintext whose confidence is the summed per-column distance
//! (lower is better).

use vstd::prelude::*;

verus! {

use vstd::arithmetic::div_mod::{
    lemma_fundamental_div_mod_converse_div,
    lemma_fundamental_div_mod_converse_mod,
    lemma_fundamental_div_mod,
    lemma_mod_bound,
};
use crate::freq::{l1_dist, count_sym, freq_value, Frequencies, FREQ_SCALE};
use crate::utils::{shifted_sym, valid_sym, Shift};

/// A guessed plaintext along with a confidence value. Lower confidence
/// values mean more confident, with zero the absolute most confident.
pub struct CrackResult {
    /// Guessed plaintext, as symbols in `[0, 27)`.
    pub plaintext: Vec<u8>,
    /// Confidence: per-column L1 distances summed, later scaled by the
    /// keylength ranking and the re-segmentation edit distance.
    pub confidence: i128,
}

/// Length of the column at residue `j` of a text of length `n` sliced with
/// period `p`.
pub open spec fn col_len(n: int, p: int, j: int) -> int {
    if n > j {
        (n - j - 1) / p + 1
    } else {
        0
    }
}

/// The column at residue `j`: every `p`-th symbol starting at position `j`.
pub open spec fn column_spec(ct: Seq<u8>, p: int, j: int) -> Seq<u8> {
    Seq::new(col_len(ct.len() as int, p, j) as nat, |r: int| ct[j + r * p])
}

/// All `p` columns of the ciphertext.
pub open spec fn columns_spec(ct: Seq<u8>, p: int) -> Seq<Seq<u8>> {
    Seq::new(p as nat, |j: int| column_spec(ct, p, j))
}

/// Slice ciphertext into one column per key index: position `i` lands in
/// column `i % keylength`, intra-column order preserved.
pub fn slice(ciphertext: &[u8], keylength: usize) -> (r: Vec<Vec<u8>>)
    requires
        keylength >= 1,
        ciphertext@.len() + keylength < usize::MAX,
    ensures
        r@.len() == keylength,
        forall|j: int| 0 <= j < keylength ==> #[trigger] r@[j]@ == column_spec(
            ciphertext@,
            keylength as int,
            j,
        ),
{
    let n = ciphertext.len();
    let mut blocks: Vec<Vec<u8>> = Vec::new();
    let mut j: usize = 0;
    while j < keylength
        invariant
            j <= keylength,
            1 <= keylength,
            n == ciphertext@.len(),
            n + keylength < usize::MAX,
            blocks@.len() == j as int,
            forall|t: int| 0 <= t < j as int ==> #[trigger] blocks@[t]@ == column_spec(
                ciphertext@,
                keylength as int,
                t,
            ),
        decreases keylength - j,
    {
        let mut block: Vec<u8> = Vec::new();
        let mut r: usize = 0;
        loop
            invariant
                1 <= keylength,
                j < keylength,
                n == ciphertext@.len(),
                n + keylength < usize::MAX,
                block@.len() == r as int,
                r > 0 ==> j + (r - 1) * keylength < n,
                forall|t: int| 0 <= t < r as int ==> #[trigger] block@[t] == ciphertext@[j + t
                    * keylength],
            ensures
                block@ == column_spec(ciphertext@, keylength as int, j as int),
            decreases n - j - r * keylength + keylength,
        {
            proof {
                if r > 0 {
                    assert(r as int * keylength as int == (r as int - 1) * keylength as int
                        + keylength as int) by (nonlinear_arith);
                }
            }
            let idx = j + r * keylength;
            if idx >= n {
                proof {
                    lemma_col_len_char(n as int, keylength as int, j as int, r as int);
                    assert(block@ =~= column_spec(ciphertext@, keylength as int, j as int));
                }
                break;
            }
            proof {
                assert((r as int - 1 + 1) * keylength as int == (r as int - 1) * keylength as int
                    + keylength as int) by (nonlinear_arith);
                assert((r as int) * keylength as int >= r as int) by (nonlinear_arith)
                    requires
                        keylength >= 1,
                        r >= 0,
                ;
            }
            block.push(ciphertext[idx]);
            r += 1;
            proof {
                assert(r as int * keylength as int == (r as int - 1) * keylength as int
                    + keylength as int) by (nonlinear_arith);
            }
        }
        blocks.push(block);
        j += 1;
    }
    blocks
}

/// The number of push rounds the column loop makes equals the column length.
proof fn lemma_col_len_char(n: int, p: int, j: int, r: int)
    requires
        p >= 1,
        0 <= j,
        0 <= r,
        j + r * p >= n,
        r > 0 ==> j + (r - 1) * p < n,
        r == 0 ==> j >= n,
    ensures
        r == col_len(n, p, j),
{
    if r == 0 {
    } else {
        assert(j < n) by (nonlinear_arith)
            requires
                j + (r - 1) * p < n,
                r >= 1,
                p >= 1,
                0 <= j,
        ;
        let x = n - j - 1;
        let rem = x - (r - 1) * p;
        assert(0 <= rem < p) by (nonlinear_arith)
            requires
                rem == n - j - 1 - (r - 1) * p,
                j + (r - 1) * p < n,
                j + r * p >= n,
                p >= 1,
        ;
        lemma_fundamental_div_mod_converse_div(x, p, r - 1, rem);
    }
}

/// One row of the re-interleaving: the `i`-th byte of every block long
/// enough to have one, in block order, over the first blocks only.
pub open spec fn unslice_row(blocks: Seq<Seq<u8>>, i: int) -> Seq<u8>
    decreases blocks.len(),
{
    if blocks.len() == 0 {
        Seq::empty()
    } else {
        unslice_row(blocks.drop_last(), i) + if blocks.last().len() > i {
            seq![blocks.last()[i]]
        } else {
            Seq::empty()
        }
    }
}

/// The first `nrows` rows of the re-interleaving, concatenated.
pub open spec fn unslice_rows(blocks: Seq<Seq<u8>>, nrows: nat) -> Seq<u8>
    decreases nrows,
{
    if nrows == 0 {
        Seq::empty()
    } else {
        unslice_rows(blocks, (nrows - 1) as nat) + unslice_row(blocks, nrows - 1)
    }
}

/// The whole re-interleaving: as many rows as the first block holds.
pub open spec fn unslice_spec(blocks: Seq<Seq<u8>>) -> Seq<u8> {
    unslice_rows(blocks, blocks[0].len())
}

/// Re-interleave the cracked columns back into position order. The first
/// block must be a longest one, as [`slice`] produces.
pub fn unslice(pt_blocks: Vec<Vec<u8>>, keylength: usize) -> (r: Vec<u8>)
    requires
        pt_blocks@.len() > 0,
    ensures
        r@ == unslice_spec(pt_blocks.deep_view()),
{
    let ghost bv = pt_blocks.deep_view();
    let nrows = pt_blocks[0].len();
    let mut out: Vec<u8> = Vec::new();
    let mut i: usize = 0;
    while i < nrows
        invariant
            i <= nrows,
            bv == pt_blocks.deep_view(),
            bv.len() == pt_blocks@.len() > 0,
            nrows == bv[0].len(),
            out@ == unslice_rows(bv, i as nat),
        decreases nrows - i,
    {
        let mut j: usize = 0;
        while j < pt_blocks.len()
            invariant
                j <= pt_blocks@.len(),
                i < nrows,
                bv == pt_blocks.deep_view(),
                bv.len() == pt_blocks@.len(),
                nrows == bv[0].len(),
                out@ == unslice_rows(bv, i as nat) + unslice_row(bv.take(j as int), i as int),
            decreases pt_blocks@.len() - j,
        {
            proof {
                assert(bv.take(j + 1).drop_last() =~= bv.take(j as int));
                assert(bv.take(j + 1).last() == bv[j as int]);
            }
            let block = &pt_blocks[j];
            if i < block.len() {
                out.push(block[i]);
            }
            j += 1;
        }
        proof {
            assert(bv.take(bv.len() as int) =~= bv);
            assert(out@ == unslice_rows(bv, (i + 1) as nat));
        }
        i += 1;
    }
    out
}

/// Sum of the lengths of the first `k` columns.
pub open spec fn col_len_sum(n: int, p: int, k: int) -> int
    decreases k,
{
    if k <= 0 {
        0
    } else {
        col_len_sum(n, p, k - 1) + col_len(n, p, k - 1)
    }
}

/// Removing the last symbol shortens exactly the column its position
/// belongs to.
proof fn lemma_col_len_step(n: int, p: int, j: int)
    requires
        p >= 1,
        0 <= j < p,
        n >= 1,
    ensures
        col_len(n, p, j) == col_len(n - 1, p, j) + if (n - 1) % p == j {
            1int
        } else {
            0int
        },
{
    lemma_mod_bound(n - 1, p);
    if j > n - 1 {
        assert((n - 1) % p <= n - 1) by {
            lemma_fundamental_div_mod(n - 1, p);
            vstd::arithmetic::div_mod::lemma_div_pos_is_pos(n - 1, p);
            assert(p * ((n - 1) / p) >= 0) by (nonlinear_arith)
                requires
                    p >= 1,
                    (n - 1) / p >= 0,
            ;
        }
    } else if j == n - 1 {
        assert(col_len(n, p, j) == (n - j - 1) / p + 1);
        assert((n - j - 1) / p == 0) by {
            vstd::arithmetic::div_mod::lemma_basic_div(0, p);
        }
        assert((n - 1) % p == j) by {
            assert(0 * p + j == j) by (nonlinear_arith);
            lemma_fundamental_div_mod_converse_mod(n - 1, p, 0, j);
        }
    } else {
        // j < n - 1: both columns are non-empty prefixes
        let x = n - j - 1;
        let q = (x - 1) / p;
        let r = (x - 1) % p;
        lemma_fundamental_div_mod(x - 1, p);
        lemma_mod_bound(x - 1, p);
        assert(x - 1 == q * p + r) by (nonlinear_arith)
            requires
                x - 1 == p * q + r,
        ;
        if r + 1 < p {
            lemma_fundamental_div_mod_converse_div(x, p, q, r + 1);
            lemma_fundamental_div_mod_converse_mod(x, p, q, r + 1);
            assert(x == q * p + (r + 1));
            assert(col_len(n, p, j) == col_len(n - 1, p, j));
            assert((n - 1) % p != j) by {
                if (n - 1) % p == j {
                    lemma_fundamental_div_mod(n - 1, p);
                    let qq = (n - 1) / p;
                    assert(n - 1 - j == qq * p) by (nonlinear_arith)
                        requires
                            n - 1 == p * qq + j,
                    ;
                    assert(x == qq * p);
                    lemma_fundamental_div_mod_converse_mod(x, p, qq, 0);
                    assert(x % p == 0);
                    assert(x % p == r + 1);
                }
            }
        } else {
            assert(r + 1 == p);
            assert(x == (q + 1) * p) by (nonlinear_arith)
                requires
                    x - 1 == q * p + r,
                    r + 1 == p,
            ;
            lemma_fundamental_div_mod_converse_div(x, p, q + 1, 0);
            assert(x / p == q + 1);
            assert((n - 1) % p == j) by {
                assert(n - 1 == (q + 1) * p + j) by (nonlinear_arith)
                    requires
                        x == (q + 1) * p,
                        x == n - j - 1,
                ;
                lemma_fundamental_div_mod_converse_mod(n - 1, p, q + 1, j);
            }
        }
    }
}

/// The first `k` column-length deltas of one removed symbol sum to whether
/// its residue lies below `k`.
proof fn lemma_col_len_sum_step(n: int, p: int, k: int)
    requires
        p >= 1,
        0 <= k <= p,
        n >= 1,
    ensures
        col_len_sum(n, p, k) == col_len_sum(n - 1, p, k) + if (n - 1) % p < k {
            1int
        } else {
            0int
        },
    decreases k,
{
    lemma_mod_bound(n - 1, p);
    if k > 0 {
        lemma_col_len_sum_step(n, p, k - 1);
        lemma_col_len_step(n, p, k - 1);
    }
}

/// Slicing yields exactly `p` columns whose lengths sum to the ciphertext
/// length.
pub proof fn lemma_slice_lengths(ct: Seq<u8>, p: int)
    requires
        p >= 1,
    ensures
        columns_spec(ct, p).len() == p,
        col_len_sum(ct.len() as int, p, p) == ct.len(),
        forall|j: int| 0 <= j < p ==> #[trigger] columns_spec(ct, p)[j].len() == col_len(
            ct.len() as int,
            p,
            j,
        ),
    decreases ct.len(),
{
    if ct.len() == 0 {
        lemma_col_len_sum_zero(0, p, p);
    } else {
        lemma_slice_lengths(ct.drop_last(), p);
        lemma_col_len_sum_step(ct.len() as int, p, p);
        lemma_mod_bound(ct.len() as int - 1, p);
    }
}

/// With no symbols every column is empty.
proof fn lemma_col_len_sum_zero(n: int, p: int, k: int)
    requires
        n <= 0,
    ensures
        col_len_sum(n, p, k) == 0,
    decreases k,
{
    if k > 0 {
        lemma_col_len_sum_zero(n, p, k - 1);
    }
}

/// A column is non-empty at row `i` exactly when position `i * p + j` lies
/// inside the ciphertext.
proof fn lemma_col_len_gt(n: int, p: int, j: int, i: int)
    requires
        p >= 1,
        0 <= j < p,
        0 <= i,
        0 <= n,
    ensures
        col_len(n, p, j) > i <==> i * p + j < n,
{
    if n > j {
        let x = n - j - 1;
        lemma_fundamental_div_mod(x, p);
        lemma_mod_bound(x, p);
        if x / p >= i {
            assert(x >= i * p) by (nonlinear_arith)
                requires
                    x == p * (x / p) + x % p,
                    0 <= x % p,
                    x / p >= i,
                    p >= 1,
            ;
        }
        if x >= i * p {
            vstd::arithmetic::div_mod::lemma_div_is_ordered(i * p, x, p);
            vstd::arithmetic::div_mod::lemma_div_by_multiple(i, p);
            assert((i * p) / p == i);
        }
        assert(col_len(n, p, j) > i <==> x / p >= i);
        assert(x / p >= i <==> x >= i * p);
    } else {
        assert(i * p >= 0) by (nonlinear_arith)
            requires
                i >= 0,
                p >= 1,
        ;
    }
}

/// One row of the re-interleaved columns is one period-aligned stretch of
/// the ciphertext.
proof fn lemma_unslice_row_of_columns(ct: Seq<u8>, p: int, i: int, k: int)
    requires
        p >= 1,
        0 <= i,
        0 <= k <= p,
    ensures
        unslice_row(columns_spec(ct, p).take(k), i) == if i * p >= ct.len() {
            Seq::<u8>::empty()
        } else {
            ct.subrange(i * p, if i * p + k <= ct.len() as int {
                i * p + k
            } else {
                ct.len() as int
            })
        },
    decreases k,
{
    let n = ct.len() as int;
    let cols = columns_spec(ct, p);
    assert(i * p >= 0) by (nonlinear_arith)
        requires
            i >= 0,
            p >= 1,
    ;
    if k == 0 {
        assert(cols.take(0) =~= Seq::<Seq<u8>>::empty());
        if i * p < n {
            assert(ct.subrange(i * p, i * p) =~= Seq::<u8>::empty());
        }
    } else {
        lemma_unslice_row_of_columns(ct, p, i, k - 1);
        assert(cols.take(k).drop_last() =~= cols.take(k - 1));
        assert(cols.take(k).last() == cols[k - 1]);
        lemma_col_len_gt(n, p, k - 1, i);
        if i * p >= n {
            assert(i * p + k - 1 >= n);
            assert(cols[k - 1].len() <= i);
        } else {
            if i * p + k - 1 < n {
                assert(cols[k - 1].len() > i);
                assert(cols[k - 1][i] == ct[(k - 1) + i * p]);
                assert(ct.subrange(
                    i * p,
                    if i * p + k <= n {
                        i * p + k
                    } else {
                        n
                    },
                ) =~= ct.subrange(
                    i * p,
                    if i * p + (k - 1) <= n {
                        i * p + (k - 1)
                    } else {
                        n
                    },
                ) + seq![ct[(k - 1) + i * p]]);
            } else {
                assert(cols[k - 1].len() <= i);
                assert(ct.subrange(
                    i * p,
                    if i * p + k <= n {
                        i * p + k
                    } else {
                        n
                    },
                ) =~= ct.subrange(
                    i * p,
                    if i * p + (k - 1) <= n {
                        i * p + (k - 1)
                    } else {
                        n
                    },
                ));
            }
        }
    }
}

/// The first `i` rows of the re-interleaved columns reproduce the first
/// `i * p` ciphertext symbols.
proof fn lemma_unslice_rows_of_columns(ct: Seq<u8>, p: int, i: int)
    requires
        p >= 1,
        0 <= i,
    ensures
        unslice_rows(columns_spec(ct, p), i as nat) == ct.take(
            if i * p <= ct.len() as int {
                i * p
            } else {
                ct.len() as int
            },
        ),
    decreases i,
{
    let n = ct.len() as int;
    let cols = columns_spec(ct, p);
    if i == 0 {
        assert(ct.take(0) =~= Seq::<u8>::empty());
    } else {
        lemma_unslice_rows_of_columns(ct, p, i - 1);
        lemma_unslice_row_of_columns(ct, p, i - 1, p);
        assert(cols.take(p) =~= cols);
        assert((i - 1) * p == i * p - p) by (nonlinear_arith);
        assert(i * p >= p) by (nonlinear_arith)
            requires
                i >= 1,
                p >= 1,
        ;
        assert(unslice_rows(cols, i as nat) == unslice_rows(cols, (i - 1) as nat) + unslice_row(
            cols,
            i - 1,
        ));
        assert(unslice_rows(cols, i as nat) =~= ct.take(
            if i * p <= n {
                i * p
            } else {
                n
            },
        ));
    }
}

/// Slicing and then re-interleaving with the same period reproduces the
/// ciphertext exactly.
pub proof fn lemma_slice_unslice_roundtrip(ct: Seq<u8>, p: int)
    requires
        p >= 1,
    ensures
        unslice_spec(columns_spec(ct, p)) == ct,
{
    let n = ct.len() as int;
    let cols = columns_spec(ct, p);
    let rows = cols[0].len() as int;
    assert(rows == col_len(n, p, 0));
    lemma_unslice_rows_of_columns(ct, p, rows);
    if n > 0 {
        let x = n - 1;
        lemma_fundamental_div_mod(x, p);
        lemma_mod_bound(x, p);
        assert(rows * p >= n) by (nonlinear_arith)
            requires
                rows == x / p + 1,
                x == p * (x / p) + x % p,
                0 <= x % p < p,
                x == n - 1,
        ;
        assert(ct.take(n) =~= ct);
    } else {
        assert(rows == 0);
        assert(ct.take(0) =~= ct);
    }
}

/// The column shifted forward by `s`.
pub open spec fn shifted_seq(col: Seq<u8>, s: int) -> Seq<u8> {
    col.map_values(|b: u8| shifted_sym(b, s))
}

/// The fixed-point frequency values of a symbol sequence.
pub open spec fn freq_values_of(s: Seq<u8>) -> Seq<u64> {
    Seq::new(27, |k: int| freq_value(count_sym(s, k as u8), s.len()))
}

/// The L1 distance of the column shifted by `s` to the baseline.
pub open spec fn block_score(col: Seq<u8>, base: Seq<u64>, s: int) -> nat {
    l1_dist(base, freq_values_of(shifted_seq(col, s)))
}

/// The first shift among `[0, n)` whose score is minimal.
pub open spec fn best_shift_upto(col: Seq<u8>, base: Seq<u64>, n: nat) -> int
    decreases n,
{
    if n <= 1 {
        0
    } else {
        let prev = best_shift_upto(col, base, (n - 1) as nat);
        if block_score(col, base, n - 1) < block_score(col, base, prev) {
            n - 1
        } else {
            prev
        }
    }
}

/// The first shift among all 27 whose score is minimal.
pub open spec fn best_shift(col: Seq<u8>, base: Seq<u64>) -> int {
    best_shift_upto(col, base, 27)
}

/// What cracking one column yields: the column shifted by the best shift,
/// and that shift's score.
pub open spec fn crack_block_spec(col: Seq<u8>, base: Seq<u64>) -> (Seq<u8>, int) {
    (shifted_seq(col, best_shift(col, base)), block_score(col, base, best_shift(col, base)) as int)
}

/// Crack a single column as if it were shifted by one key symbol: try all
/// 27 shifts and keep the one whose frequencies sit closest to the baseline,
/// the smallest such shift on ties.
fn crack_block(cipherblock: &[u8], baseline: &Frequencies) -> (r: CrackResult)
    requires
        baseline.wf(),
        forall|i: int| 0 <= i < cipherblock@.len() ==> valid_sym(#[trigger] cipherblock@[i]),
        cipherblock@.len() < 0x1_0000_0000,
    ensures
        r.plaintext@ == crack_block_spec(cipherblock@, baseline.values@).0,
        r.confidence == crack_block_spec(cipherblock@, baseline.values@).1,
        0 <= r.confidence <= 27 * FREQ_SCALE,
{
    let mut best_pt: Vec<u8> = shift_all(cipherblock, 0);
    let freqs0 = Frequencies::from_bytes(best_pt.as_slice());
    let mut best_score: u64 = Frequencies::compare(baseline, &freqs0);
    proof {
        assert(freqs0.values@ =~= freq_values_of(best_pt@));
        assert(best_score == block_score(cipherblock@, baseline.values@, 0));
        assert(best_shift_upto(cipherblock@, baseline.values@, 1) == 0);
    }
    let mut s: u8 = 1;
    while s < 27
        invariant
            1 <= s <= 27,
            baseline.wf(),
            forall|i: int| 0 <= i < cipherblock@.len() ==> valid_sym(#[trigger] cipherblock@[i]),
            cipherblock@.len() < 0x1_0000_0000,
            best_pt@ == shifted_seq(cipherblock@, best_shift_upto(
                cipherblock@,
                baseline.values@,
                s as nat,
            )),
            best_score == block_score(cipherblock@, baseline.values@, best_shift_upto(
                cipherblock@,
                baseline.values@,
                s as nat,
            )),
            best_score <= 27 * FREQ_SCALE,
        decreases 27 - s,
    {
        let pt = shift_all(cipherblock, s);
        let freqs = Frequencies::from_bytes(pt.as_slice());
        let score = Frequencies::compare(baseline, &freqs);
        proof {
            assert(freqs.values@ =~= freq_values_of(pt@));
            assert(score == block_score(cipherblock@, baseline.values@, s as int));
        }
        if score < best_score {
            best_pt = pt;
            best_score = score;
        }
        proof {
            assert(best_shift_upto(cipherblock@, baseline.values@, (s + 1) as nat) == if block_score(
                cipherblock@,
                baseline.values@,
                s as int,
            ) < block_score(
                cipherblock@,
                baseline.values@,
                best_shift_upto(cipherblock@, baseline.values@, s as nat),
            ) {
                s as int
            } else {
                best_shift_upto(cipherblock@, baseline.values@, s as nat)
            });
        }
        s += 1;
    }
    CrackResult { plaintext: best_pt, confidence: best_score as i128 }
}

/// Every symbol of the block shifted forward by `s`.
fn shift_all(block: &[u8], s: u8) -> (r: Vec<u8>)
    requires
        s < 27,
        forall|i: int| 0 <= i < block@.len() ==> valid_sym(#[trigger] block@[i]),
    ensures
        r@ == shifted_seq(block@, s as int),
        forall|i: int| 0 <= i < r@.len() ==> valid_sym(#[trigger] r@[i]),
{
    let mut out: Vec<u8> = Vec::new();
    let mut i: usize = 0;
    while i < block.len()
        invariant
            i <= block@.len(),
            s < 27,
            forall|t: int| 0 <= t < block@.len() ==> valid_sym(#[trigger] block@[t]),
            out@.len() == i as int,
            forall|t: int| 0 <= t < i as int ==> #[trigger] out@[t] == shifted_sym(
                block@[t],
                s as int,
            ),
        decreases block@.len() - i,
    {
        let b = block[i];
        out.push(b.shift(s as i8));
        i += 1;
    }
    proof {
        assert(out@ =~= shifted_seq(block@, s as int));
        assert forall|t: int| 0 <= t < out@.len() implies valid_sym(#[trigger] out@[t]) by {
            assert(out@[t] == shifted_sym(block@[t], s as int));
        }
    }
    out
}

/// The first minimum over a prefix of shifts stays inside the prefix.
proof fn lemma_best_shift_upto_range(col: Seq<u8>, base: Seq<u64>, n: nat)
    ensures
        0 <= best_shift_upto(col, base, n) < if n <= 1 {
            1int
        } else {
            n as int
        },
    decreases n,
{
    if n > 1 {
        lemma_best_shift_upto_range(col, base, (n - 1) as nat);
    }
}

/// When one shift scores strictly below every other, the cracker picks
/// exactly that shift.
pub proof fn lemma_best_shift_of_unique_min(col: Seq<u8>, base: Seq<u64>, s_star: int)
    requires
        0 <= s_star < 27,
        forall|s: int|
            0 <= s < 27 && s != s_star ==> block_score(col, base, s_star) < #[trigger] block_score(
                col,
                base,
                s,
            ),
    ensures
        best_shift(col, base) == s_star,
{
    lemma_best_shift_upto_unique(col, base, s_star, 27);
}

/// Helper induction: once the unique minimizer lies inside the prefix,
/// the running first-minimum equals it.
proof fn lemma_best_shift_upto_unique(col: Seq<u8>, base: Seq<u64>, s_star: int, n: nat)
    requires
        0 <= s_star < n <= 27,
        forall|s: int|
            0 <= s < 27 && s != s_star ==> block_score(col, base, s_star) < #[trigger] block_score(
                col,
                base,
                s,
            ),
    ensures
        best_shift_upto(col, base, n) == s_star,
    decreases n,
{
    if n == s_star + 1 {
        if s_star == 0 {
        } else {
            lemma_best_shift_upto_range(col, base, (n - 1) as nat);
            let prev = best_shift_upto(col, base, (n - 1) as nat);
            assert(prev != s_star);
            assert(block_score(col, base, s_star) < block_score(col, base, prev));
        }
    } else {
        lemma_best_shift_upto_unique(col, base, s_star, (n - 1) as nat);
        assert(block_score(col, base, s_star) < block_score(col, base, n - 1));
    }
}

/// Exact recovery at the true period: when the ciphertext is a periodic
/// shift of the plaintext with no injection, and in every column the true
/// de-shift scores strictly below every other shift against the baseline,
/// cracking at that period returns the plaintext exactly.
pub proof fn lemma_crack_exact(ct: Seq<u8>, pt: Seq<u8>, p: int, base: Seq<u64>, key: Seq<u8>)
    requires
        p >= 1,
        key.len() == p,
        ct.len() == pt.len(),
        forall|j: int| 0 <= j < p ==> #[trigger] key[j] < 27,
        forall|i: int| 0 <= i < pt.len() ==> valid_sym(#[trigger] pt[i]),
        forall|i: int|
            0 <= i < ct.len() ==> #[trigger] ct[i] == shifted_sym(pt[i], key[i % p] as int),
        forall|j: int|
            0 <= j < p ==> (forall|s: int|
                0 <= s < 27 && s != (27 - key[j] as int) % 27 ==> block_score(
                    #[trigger] column_spec(ct, p, j),
                    base,
                    (27 - key[j] as int) % 27,
                ) < #[trigger] block_score(column_spec(ct, p, j), base, s)),
    ensures
        crack_spec(ct, p, base).0 == pt,
{
    lemma_crack_pointwise(ct, p, base);
    assert forall|i: int| 0 <= i < ct.len() implies crack_pointwise(ct, p, base)[i] == pt[i] by {
        let j = i % p;
        lemma_mod_bound(i, p);
        let kj = key[j] as int;
        let inv = (27 - kj) % 27;
        assert(0 <= inv < 27) by {
            if kj == 0 {
                vstd::arithmetic::div_mod::lemma_mod_self_0(27);
            } else {
                vstd::arithmetic::div_mod::lemma_small_mod((27 - kj) as nat, 27);
            }
        }
        lemma_best_shift_of_unique_min(column_spec(ct, p, j), base, inv);
        assert(crack_pointwise(ct, p, base)[i] == shifted_sym(ct[i], inv));
        assert(inv % 27 == (-kj) % 27) by {
            vstd::arithmetic::div_mod::lemma_mod_add_multiples_vanish(-kj, 27);
            if kj == 0 {
                vstd::arithmetic::div_mod::lemma_mod_self_0(27);
            } else {
                vstd::arithmetic::div_mod::lemma_small_mod((27 - kj) as nat, 27);
            }
        }
        assert(shifted_sym(ct[i], inv) == shifted_sym(ct[i], -kj));
        crate::utils::lemma_shift_round_trip(pt[i], kj);
        assert(shifted_sym(shifted_sym(pt[i], kj), -kj) == pt[i]);
    }
    assert(crack_pointwise(ct, p, base) =~= pt);
}

/// Sum of the confidences of cracking the first `n` columns.
pub open spec fn crack_conf_sum(cols: Seq<Seq<u8>>, base: Seq<u64>, n: nat) -> int
    decreases n,
{
    if n == 0 {
        0
    } else {
        crack_conf_sum(cols, base, (n - 1) as nat) + crack_block_spec(cols[n - 1], base).1
    }
}

/// What cracking a whole ciphertext at one keylength yields: the
/// re-interleaved per-column plaintexts, and the summed confidence.
pub open spec fn crack_spec(ct: Seq<u8>, p: int, base: Seq<u64>) -> (Seq<u8>, int) {
    let cols = columns_spec(ct, p);
    let cracked = cols.map_values(|c: Seq<u8>| crack_block_spec(c, base).0);
    (unslice_spec(cracked), crack_conf_sum(cols, base, p as nat))
}

/// Crack the ciphertext at the given keylength against a baseline
/// distribution: slice into columns, crack each, re-interleave, and sum the
/// per-column confidences.
pub fn crack(ciphertext: &[u8], keylength: usize, baseline: &Frequencies) -> (r: CrackResult)
    requires
        // the bound only keeps the confidence sum exact; it covers the
        // whole candidate range the estimator ranks, with margin
        1 <= keylength <= 150,
        baseline.wf(),
        forall|i: int| 0 <= i < ciphertext@.len() ==> valid_sym(#[trigger] ciphertext@[i]),
        ciphertext@.len() < 0x1_0000_0000 - 200,
    ensures
        r.plaintext@ == crack_spec(ciphertext@, keylength as int, baseline.values@).0,
        r.confidence == crack_spec(ciphertext@, keylength as int, baseline.values@).1,
        0 <= r.confidence <= keylength * 27 * FREQ_SCALE,
{
    let ghost base = baseline.values@;
    let ghost cols = columns_spec(ciphertext@, keylength as int);
    let ct_blocks = slice(ciphertext, keylength);
    proof {
        assert(ct_blocks.deep_view() =~~= cols);
    }

    let mut pt_blocks: Vec<Vec<u8>> = Vec::new();
    let mut confidence: u64 = 0;
    let mut j: usize = 0;
    while j < ct_blocks.len()
        invariant
            j <= ct_blocks@.len(),
            ct_blocks@.len() == keylength,
            keylength <= 150,
            baseline.wf(),
            base == baseline.values@,
            cols == columns_spec(ciphertext@, keylength as int),
            ct_blocks.deep_view() == cols,
            forall|i: int| 0 <= i < ciphertext@.len() ==> valid_sym(#[trigger] ciphertext@[i]),
            ciphertext@.len() < 0x1_0000_0000 - 200,
            pt_blocks@.len() == j as int,
            forall|t: int| 0 <= t < j as int ==> #[trigger] pt_blocks@[t]@ == crack_block_spec(
                cols[t],
                base,
            ).0,
            confidence == crack_conf_sum(cols, base, j as nat),
            confidence <= j * 27 * FREQ_SCALE,
        decreases ct_blocks@.len() - j,
    {
        proof {
            assert(cols[j as int] == column_spec(ciphertext@, keylength as int, j as int));
            lemma_column_of_valid(ciphertext@, keylength as int, j as int);
            assert(ct_blocks.deep_view()[j as int] == ct_blocks@[j as int].deep_view());
            assert(ct_blocks@[j as int]@ =~= ct_blocks@[j as int].deep_view());
            assert(ct_blocks@[j as int]@ == cols[j as int]);
        }
        let res = crack_block(ct_blocks[j].as_slice(), baseline);
        pt_blocks.push(res.plaintext);
        confidence += res.confidence as u64;
        j += 1;
    }
    proof {
        assert(pt_blocks.deep_view() =~~= cols.map_values(
            |c: Seq<u8>| crack_block_spec(c, base).0,
        ));
    }
    let plaintext = unslice(pt_blocks, keylength);
    CrackResult { plaintext, confidence: confidence as i128 }
}

/// A column of a valid-symbol ciphertext holds valid symbols, and is no
/// longer than the ciphertext.
proof fn lemma_column_of_valid(ct: Seq<u8>, p: int, j: int)
    requires
        p >= 1,
        0 <= j < p,
        forall|i: int| 0 <= i < ct.len() ==> valid_sym(#[trigger] ct[i]),
    ensures
        forall|i: int| 0 <= i < column_spec(ct, p, j).len() ==> valid_sym(
            #[trigger] column_spec(ct, p, j)[i],
        ),
        column_spec(ct, p, j).len() <= ct.len(),
{
    let col = column_spec(ct, p, j);
    assert forall|i: int| 0 <= i < col.len() implies valid_sym(#[trigger] col[i]) by {
        assert(ct.len() > j);
        let x = ct.len() as int - j - 1;
        lemma_fundamental_div_mod(x, p);
        lemma_mod_bound(x, p);
        assert(0 <= j + i * p < ct.len()) by (nonlinear_arith)
            requires
                p >= 1,
                0 <= j < p,
                0 <= i < col_len(ct.len() as int, p, j),
                col_len(ct.len() as int, p, j) == x / p + 1,
                x == ct.len() as int - j - 1,
                x == p * (x / p) + x % p,
                0 <= x % p < p,
        ;
        assert(col[i] == ct[j + i * p]);
    }
    if ct.len() > j {
        let q = (ct.len() - j - 1) as int / p;
        lemma_fundamental_div_mod((ct.len() - j - 1) as int, p);
        lemma_mod_bound((ct.len() - j - 1) as int, p);
        assert(col_len(ct.len() as int, p, j) <= ct.len()) by (nonlinear_arith)
            requires
                p >= 1,
                0 <= j < p,
                ct.len() > j,
                col_len(ct.len() as int, p, j) == q + 1,
                ct.len() as int - j - 1 == q * p + ((ct.len() as int - j - 1) % p),
                0 <= (ct.len() as int - j - 1) % p < p,
        ;
    }
}

/// The plaintext the cracker reconstructs, position by position: each
/// ciphertext symbol shifted by the best shift of its own column.
pub open spec fn crack_pointwise(ct: Seq<u8>, p: int, base: Seq<u64>) -> Seq<u8> {
    Seq::new(ct.len(), |i: int| shifted_sym(ct[i], best_shift(column_spec(ct, p, i % p), base)))
}

/// Cracking at keylength `p` yields exactly the position-wise re-shifted
/// ciphertext: slicing, per-column shifting and re-interleaving amount to
/// shifting every position by its column's best shift.
pub proof fn lemma_crack_pointwise(ct: Seq<u8>, p: int, base: Seq<u64>)
    requires
        p >= 1,
    ensures
        crack_spec(ct, p, base).0 == crack_pointwise(ct, p, base),
        crack_spec(ct, p, base).0.len() == ct.len(),
{
    let n = ct.len() as int;
    let pt2 = crack_pointwise(ct, p, base);
    let cols = columns_spec(ct, p);
    let cracked = cols.map_values(|c: Seq<u8>| crack_block_spec(c, base).0);
    let cols2 = columns_spec(pt2, p);
    assert forall|j: int| 0 <= j < p implies cracked[j] == cols2[j] by {
        let colj = column_spec(ct, p, j);
        let sj = best_shift(colj, base);
        assert(cracked[j] == shifted_seq(colj, sj));
        assert forall|r: int| 0 <= r < col_len(n, p, j) implies shifted_seq(colj, sj)[r]
            == cols2[j][r] by {
            lemma_col_len_gt(n, p, j, r);
            assert(r * p + j < n);
            assert(0 <= j + r * p) by (nonlinear_arith)
                requires
                    0 <= j,
                    0 <= r,
                    p >= 1,
            ;
            assert((j + r * p) % p == j) by {
                lemma_fundamental_div_mod_converse_mod(j + r * p, p, r, j);
            }
            assert(colj[r] == ct[j + r * p]);
            assert(shifted_seq(colj, sj)[r] == shifted_sym(ct[j + r * p], sj));
            assert(cols2[j][r] == pt2[j + r * p]);
            assert(pt2[j + r * p] == shifted_sym(
                ct[j + r * p],
                best_shift(column_spec(ct, p, (j + r * p) % p), base),
            ));
        }
        assert(shifted_seq(colj, sj) =~= cols2[j]);
    }
    assert(cracked =~= cols2);
    lemma_slice_unslice_roundtrip(pt2, p);
    assert(crack_spec(ct, p, base).0 == unslice_spec(cracked));
}

/// The first index among `[0, n)` holding a minimal confidence.
pub open spec fn best_index_upto(rs: Seq<CrackResult>, n: nat) -> int
    decreases n,
{
    if n <= 1 {
        0
    } else {
        let prev = best_index_upto(rs, (n - 1) as nat);
        if rs[n - 1].confidence < rs[prev].confidence {
            n - 1
        } else {
            prev
        }
    }
}

/// The first index holding a minimal confidence.
pub open spec fn best_index(rs: Seq<CrackResult>) -> int {
    best_index_upto(rs, rs.len())
}

/// Return the best (smallest confidence) result from a non-empty list; the
/// earliest one on ties.
pub fn best_crack(crackresults: &[CrackResult]) -> (r: CrackResult)
    requires
        crackresults@.len() > 0,
    ensures
        r.plaintext@ == crackresults@[best_index(crackresults@)].plaintext@,
        r.confidence == crackresults@[best_index(crackresults@)].confidence,
{
    let ghost rs = crackresults@;
    let mut bi: usize = 0;
    let mut j: usize = 1;
    while j < crackresults.len()
        invariant
            1 <= j <= rs.len(),
            rs == crackresults@,
            rs.len() > 0,
            bi < j,
            bi as int == best_index_upto(rs, j as nat),
        decreases rs.len() - j,
    {
        if crackresults[j].confidence < crackresults[bi].confidence {
            bi = j;
        }
        j += 1;
    }
    let chosen = &crackresults[bi];
    let plaintext = chosen.plaintext.clone();
    proof {
        assert(plaintext@ =~= chosen.plaintext@);
    }
    CrackResult { plaintext, confidence: chosen.confidence }
}

} // verus!
