//! Keylength estimation by chunkwise self-similarity.
//!
//! For each candidate period the ciphertext is cut into consecutive chunks
//! of that length; the summed pairwise bit-level Hamming distance of the
//! chunks, normalized per chunk, scores the period. A linear detrend removes
//! the bias longer periods enjoy, and dividing by the period makes scores
//! comparable. All arithmetic is fixed point: raw scores carry a
//! [`RAW_SCALE`] denominator.

use vstd::prelude::*;

verus! {

use vstd::arithmetic::div_mod::{lemma_div_is_ordered, lemma_div_by_multiple};
use vstd::multiset::Multiset;

/// Smallest candidate keylength tried.
pub const KEYSIZE_LO: usize = 3;

/// One past the largest candidate keylength tried.
pub const KEYSIZE_HI: usize = 120;

/// Fixed-point denominator of the normalized chunk scores.
pub const RAW_SCALE: u64 = 1024;

/// Number of set bits in a byte.
pub open spec fn pop8(x: u8) -> nat {
    ((x & 1) + ((x >> 1) & 1) + ((x >> 2) & 1) + ((x >> 3) & 1) + ((x >> 4) & 1) + ((x >> 5) & 1)
        + ((x >> 6) & 1) + ((x >> 7) & 1)) as nat
}

/// Bitwise Hamming distance between two equal-length byte sequences.
pub open spec fn hamming_spec(a: Seq<u8>, b: Seq<u8>) -> nat
    decreases a.len(),
{
    if a.len() == 0 {
        0
    } else {
        hamming_spec(a.drop_last(), b.drop_last()) + pop8(a.last() ^ b.last())
    }
}

/// A byte differs from another in at most all eight bits.
proof fn lemma_pop8_le(x: u8)
    ensures
        pop8(x) <= 8,
{
    assert((x & 1) + ((x >> 1) & 1) + ((x >> 2) & 1) + ((x >> 3) & 1) + ((x >> 4) & 1) + ((x >> 5)
        & 1) + ((x >> 6) & 1) + ((x >> 7) & 1) <= 8) by (bit_vector);
}

/// Hamming distance is at most eight bits per byte.
pub proof fn lemma_hamming_le(a: Seq<u8>, b: Seq<u8>)
    ensures
        hamming_spec(a, b) <= 8 * a.len(),
    decreases a.len(),
{
    if a.len() > 0 {
        lemma_hamming_le(a.drop_last(), b.drop_last());
        lemma_pop8_le(a.last() ^ b.last());
    }
}

/// Calculate the bitwise Hamming distance between two byte slices.
pub fn hamming_distance(a: &[u8], b: &[u8]) -> (r: u32)
    requires
        a@.len() == b@.len(),
        a@.len() <= 0x800_0000,
    ensures
        r == hamming_spec(a@, b@),
{
    let mut dist: u32 = 0;
    let mut i: usize = 0;
    while i < a.len()
        invariant
            i <= a@.len(),
            a@.len() == b@.len(),
            a@.len() <= 0x800_0000,
            dist == hamming_spec(a@.take(i as int), b@.take(i as int)),
            dist <= 8 * i,
        decreases a@.len() - i,
    {
        let x = a[i] ^ b[i];
        proof {
            assert((x & 1) <= 1 && ((x >> 1) & 1) <= 1 && ((x >> 2) & 1) <= 1 && ((x >> 3) & 1)
                <= 1 && ((x >> 4) & 1) <= 1 && ((x >> 5) & 1) <= 1 && ((x >> 6) & 1) <= 1 && ((x
                >> 7) & 1) <= 1) by (bit_vector);
        }
        let c: u8 = (x & 1) + ((x >> 1) & 1) + ((x >> 2) & 1) + ((x >> 3) & 1) + ((x >> 4) & 1) + ((
        x >> 5) & 1) + ((x >> 6) & 1) + ((x >> 7) & 1);
        proof {
            lemma_pop8_le(x);
            assert(a@.take(i + 1).drop_last() =~= a@.take(i as int));
            assert(b@.take(i + 1).drop_last() =~= b@.take(i as int));
            assert(a@.take(i + 1).last() == a@[i as int]);
            assert(b@.take(i + 1).last() == b@[i as int]);
        }
        dist += c as u32;
        i += 1;
    }
    proof {
        assert(a@.take(a@.len() as int) =~= a@);
        assert(b@.take(b@.len() as int) =~= b@);
    }
    dist
}

/// How many whole chunks of size `cs` fit in the input.
pub open spec fn chunk_count(n: int, cs: int) -> int {
    n / cs
}

/// The `j`-th whole chunk of size `cs`.
pub open spec fn chunk_spec(input: Seq<u8>, cs: int, j: int) -> Seq<u8> {
    input.subrange(j * cs, (j + 1) * cs)
}

/// Summed Hamming distances of chunk `ii` against chunks `[ii, hi)`.
pub open spec fn row_sum(input: Seq<u8>, cs: int, ii: int, hi: int) -> nat
    decreases hi - ii,
{
    if hi <= ii {
        0
    } else {
        row_sum(input, cs, ii, hi - 1) + hamming_spec(
            chunk_spec(input, cs, ii),
            chunk_spec(input, cs, hi - 1),
        )
    }
}

/// Summed Hamming distances over all unordered chunk pairs of the first
/// `k` rows.
pub open spec fn rows_sum(input: Seq<u8>, cs: int, k: int) -> nat
    decreases k,
{
    if k <= 0 {
        0
    } else {
        rows_sum(input, cs, k - 1) + row_sum(input, cs, k - 1, chunk_count(input.len() as int, cs))
    }
}

/// The total pairwise distance at a chunk size.
pub open spec fn raw_dist(input: Seq<u8>, cs: int) -> nat {
    rows_sum(input, cs, chunk_count(input.len() as int, cs))
}

/// The normalized chunk score: total distance per chunk, scaled by
/// [`RAW_SCALE`]. Fewer than two chunks score zero.
pub open spec fn raw_score(input: Seq<u8>, cs: int) -> nat {
    let count = chunk_count(input.len() as int, cs);
    if count <= 0 {
        0
    } else {
        (raw_dist(input, cs) * RAW_SCALE) as nat / count as nat
    }
}

/// One row's sum is at most eight bits per byte per chunk pair.
proof fn lemma_row_sum_le(input: Seq<u8>, cs: int, ii: int, hi: int)
    requires
        cs >= 1,
        hi * cs <= input.len(),
        0 <= ii <= hi,
    ensures
        row_sum(input, cs, ii, hi) <= 8 * cs * (hi - ii),
    decreases hi - ii,
{
    if hi <= ii {
    } else {
        assert((hi - 1) * cs <= hi * cs) by (nonlinear_arith)
            requires
                cs >= 1,
        ;
        lemma_row_sum_le(input, cs, ii, hi - 1);
        assert(0 <= ii * cs) by (nonlinear_arith)
            requires
                cs >= 1,
                0 <= ii,
        ;
        assert((ii + 1) * cs <= hi * cs && (ii + 1) * cs == ii * cs + cs && hi * cs == (hi - 1)
            * cs + cs) by (nonlinear_arith)
            requires
                cs >= 1,
                ii < hi,
        ;
        assert(chunk_spec(input, cs, ii).len() == cs);
        assert(chunk_spec(input, cs, hi - 1).len() == cs);
        lemma_hamming_le(chunk_spec(input, cs, ii), chunk_spec(input, cs, hi - 1));
        assert(8 * cs * (hi - ii) == 8 * cs * (hi - 1 - ii) + 8 * cs) by (nonlinear_arith);
    }
}

/// The total distance is bounded by eight bits per byte per chunk.
proof fn lemma_rows_sum_le(input: Seq<u8>, cs: int, k: int)
    requires
        cs >= 1,
        chunk_count(input.len() as int, cs) * cs <= input.len(),
        0 <= k <= chunk_count(input.len() as int, cs),
    ensures
        rows_sum(input, cs, k) <= k * (8 * input.len()),
    decreases k,
{
    let count = chunk_count(input.len() as int, cs);
    if k <= 0 {
    } else {
        lemma_rows_sum_le(input, cs, k - 1);
        lemma_row_sum_le(input, cs, k - 1, count);
        assert(8 * cs * (count - (k - 1)) <= 8 * input.len()) by (nonlinear_arith)
            requires
                cs >= 1,
                count * cs <= input.len(),
                0 <= k - 1,
                k <= count,
        ;
        assert(k * (8 * input.len()) == (k - 1) * (8 * input.len()) + 8 * input.len())
            by (nonlinear_arith);
    }
}

/// The normalized score is bounded by eight scaled bits per byte.
pub proof fn lemma_raw_score_le(input: Seq<u8>, cs: int)
    requires
        cs >= 1,
    ensures
        raw_score(input, cs) <= 8 * input.len() * RAW_SCALE,
{
    let n = input.len() as int;
    let count = chunk_count(n, cs);
    vstd::arithmetic::div_mod::lemma_fundamental_div_mod(n, cs);
    vstd::arithmetic::div_mod::lemma_mod_bound(n, cs);
    assert(count * cs <= n) by (nonlinear_arith)
        requires
            n == cs * count + n % cs,
            0 <= n % cs,
    ;
    if count > 0 {
        lemma_rows_sum_le(input, cs, count);
        let dist = raw_dist(input, cs) as int;
        assert(dist * RAW_SCALE <= count * (8 * n) * RAW_SCALE) by (nonlinear_arith)
            requires
                0 <= dist <= count * (8 * n),
        ;
        assert(count * (8 * n) * RAW_SCALE == count * (8 * n * RAW_SCALE)) by (nonlinear_arith);
        lemma_div_is_ordered(dist * (RAW_SCALE as int), count * (8 * n * (RAW_SCALE as int)), count);
        lemma_div_by_multiple(8 * n * (RAW_SCALE as int), count);
    }
}

/// Score one chunk size: the summed pairwise Hamming distance of the whole
/// chunks, per chunk, scaled by [`RAW_SCALE`].
pub fn hamming_distance_between_chunks(input: &[u8], chunksize: usize) -> (r: u64)
    requires
        chunksize >= 1,
        input@.len() <= 0x10_0000,
    ensures
        r == raw_score(input@, chunksize as int),
        r <= 8 * input@.len() * RAW_SCALE,
{
    let n = input.len();
    let count = n / chunksize;
    proof {
        vstd::arithmetic::div_mod::lemma_fundamental_div_mod(n as int, chunksize as int);
        vstd::arithmetic::div_mod::lemma_mod_bound(n as int, chunksize as int);
        assert(count * chunksize <= n) by (nonlinear_arith)
            requires
                n as int == chunksize as int * count as int + n as int % chunksize as int,
                0 <= n as int % chunksize as int,
        ;
        assert(count <= n) by (nonlinear_arith)
            requires
                count as int * chunksize as int <= n as int,
                chunksize >= 1,
                count >= 0,
        ;
    }
    let mut distance: u64 = 0;
    let mut ii: usize = 0;
    while ii < count
        invariant
            ii <= count,
            count == chunk_count(input@.len() as int, chunksize as int),
            count * chunksize <= n,
            count <= n,
            n == input@.len(),
            n <= 0x10_0000,
            chunksize >= 1,
            distance == rows_sum(input@, chunksize as int, ii as int),
            distance <= ii * 8 * n,
        decreases count - ii,
    {
        proof {
            assert(ii * chunksize + chunksize <= count * chunksize) by (nonlinear_arith)
                requires
                    ii < count,
                    chunksize >= 1,
            ;
            assert(ii * 8 * n <= n * 8 * n && n * 8 * n <= 0x10_0000 * 8 * 0x10_0000)
                by (nonlinear_arith)
                requires
                    0 <= ii <= n,
                    0 <= n <= 0x10_0000,
            ;
        }
        let base_ii = ii * chunksize;
        let chunk_ii = &input[base_ii..base_ii + chunksize];
        proof {
            assert((ii as int) * (chunksize as int) == base_ii as int);
            assert((ii as int + 1) * (chunksize as int) == base_ii as int + chunksize as int)
                by (nonlinear_arith)
                requires
                    base_ii as int == (ii as int) * (chunksize as int),
            ;
            assert(chunk_ii@ =~= chunk_spec(input@, chunksize as int, ii as int));
        }
        let mut row: u64 = 0;
        let mut jj: usize = ii;
        while jj < count
            invariant
                ii <= jj <= count,
                count == chunk_count(input@.len() as int, chunksize as int),
                count * chunksize <= n,
                count <= n,
                n == input@.len(),
                n <= 0x10_0000,
                chunksize >= 1,
                base_ii == ii * chunksize,
                chunk_ii@ == chunk_spec(input@, chunksize as int, ii as int),
                chunk_ii@.len() == chunksize,
                row == row_sum(input@, chunksize as int, ii as int, jj as int),
                row <= 8 * chunksize * (jj - ii),
            decreases count - jj,
        {
            proof {
                assert(jj * chunksize + chunksize <= count * chunksize) by (nonlinear_arith)
                    requires
                        jj < count,
                        chunksize >= 1,
                ;
                assert(8 * chunksize * (jj - ii) <= 8 * n && 8 * chunksize <= 8 * n)
                    by (nonlinear_arith)
                    requires
                        0 <= ii <= jj < count,
                        count * chunksize <= n,
                        chunksize >= 1,
                ;
            }
            let base_jj = jj * chunksize;
            let chunk_jj = &input[base_jj..base_jj + chunksize];
            proof {
                assert((jj as int) * (chunksize as int) == base_jj as int);
                assert((jj as int + 1) * (chunksize as int) == base_jj as int + chunksize as int)
                    by (nonlinear_arith)
                    requires
                        base_jj as int == (jj as int) * (chunksize as int),
                ;
                assert(chunk_jj@ =~= chunk_spec(input@, chunksize as int, jj as int));
                lemma_hamming_le(chunk_ii@, chunk_jj@);
                assert(8 * chunksize * (jj + 1 - ii) == 8 * chunksize * (jj - ii) + 8 * chunksize)
                    by (nonlinear_arith);
            }
            let d = hamming_distance(chunk_ii, chunk_jj);
            row += d as u64;
            jj += 1;
        }
        proof {
            assert(8 * chunksize * (count - ii) <= 8 * n) by (nonlinear_arith)
                requires
                    0 <= ii <= count,
                    count * chunksize <= n,
                    chunksize >= 1,
            ;
            assert((ii + 1) * 8 * n == ii * 8 * n + 8 * n) by (nonlinear_arith);
        }
        distance += row;
        ii += 1;
    }
    proof {
        assert(distance <= count * 8 * n);
    }
    if count == 0 {
        return 0;
    }
    proof {
        assert(distance * RAW_SCALE <= 0x10_0000 * 8 * 0x10_0000 * 1024) by (nonlinear_arith)
            requires
                0 <= distance,
                distance <= count * 8 * n,
                0 <= count <= n,
                0 <= n <= 0x10_0000,
        ;
        lemma_raw_score_le(input@, chunksize as int);
    }
    let scaled = distance * RAW_SCALE;
    scaled / (count as u64)
}


/// Number of candidate keylengths (the regression sample count).
pub const REG_N: i128 = 117;

/// Sum of the candidate keylengths.
pub const REG_SX: i128 = 7137;

/// Sum of the squared candidate keylengths.
pub const REG_SXX: i128 = 568815;

/// The least-squares denominator over the candidate range.
pub const REG_D: i128 = 117 * 568815 - 7137 * 7137;

/// Sum of the first `k` candidate keylengths, smallest first.
pub open spec fn range_sum_x(k: nat) -> int
    decreases k,
{
    if k == 0 {
        0
    } else {
        range_sum_x((k - 1) as nat) + (k + 2)
    }
}

/// Sum of the first `k` squared candidate keylengths.
pub open spec fn range_sum_xx(k: nat) -> int
    decreases k,
{
    if k == 0 {
        0
    } else {
        range_sum_xx((k - 1) as nat) + (k + 2) * (k + 2)
    }
}

/// Closed form of the candidate-keylength sum.
proof fn lemma_range_sum_x_closed(k: nat)
    ensures
        2 * range_sum_x(k) == (k as int) * (k as int + 5),
    decreases k,
{
    if k == 0 {
        assert(range_sum_x(0) == 0);
        assert((0int) * (0int + 5) == 0) by (nonlinear_arith);
    } else {
        lemma_range_sum_x_closed((k - 1) as nat);
        assert(range_sum_x(k) == range_sum_x((k - 1) as nat) + (k + 2));
        assert(2 * range_sum_x(k) == (k as int) * (k as int + 5)) by (nonlinear_arith)
            requires
                range_sum_x(k) == range_sum_x((k - 1) as nat) + (k + 2),
                2 * range_sum_x((k - 1) as nat) == (((k - 1) as nat) as int) * ((((k - 1) as nat)
                    as int) + 5),
                k >= 1,
        ;
    }
}

/// Closed form of the squared candidate-keylength sum.
proof fn lemma_range_sum_xx_closed(k: nat)
    ensures
        6 * range_sum_xx(k) == (k as int + 2) * (k as int + 3) * (2 * (k as int) + 5) - 30,
    decreases k,
{
    if k == 0 {
        assert((0int + 2) * (0int + 3) * (2 * 0int + 5) - 30 == 0) by (nonlinear_arith);
    } else {
        lemma_range_sum_xx_closed((k - 1) as nat);
        assert(range_sum_xx(k) == range_sum_xx((k - 1) as nat) + (k + 2) * (k + 2));
        assert(6 * range_sum_xx(k) == (k as int + 2) * (k as int + 3) * (2 * (k as int) + 5) - 30)
            by (nonlinear_arith)
            requires
                range_sum_xx(k) == range_sum_xx((k - 1) as nat) + (k + 2) * (k + 2),
                6 * range_sum_xx((k - 1) as nat) == ((((k - 1) as nat) as int) + 2) * ((((k - 1)
                    as nat) as int) + 3) * (2 * (((k - 1) as nat) as int) + 5) - 30,
                k >= 1,
        ;
    }
}

/// The regression constants are the sums over the candidate range.
pub proof fn lemma_regression_constants()
    ensures
        range_sum_x((KEYSIZE_HI - KEYSIZE_LO) as nat) == REG_SX,
        range_sum_xx((KEYSIZE_HI - KEYSIZE_LO) as nat) == REG_SXX,
        REG_D == REG_N * REG_SXX - REG_SX * REG_SX,
        REG_D > 0,
{
    lemma_range_sum_x_closed(117);
    lemma_range_sum_xx_closed(117);
    assert((117int + 2) * (117int + 3) * (2 * 117int + 5) - 30 == 3412890) by (nonlinear_arith);
    assert(range_sum_xx(117) == 568815);
}

/// Sum of the raw scores of the first `k` candidate keylengths.
pub open spec fn sum_y_upto(ct: Seq<u8>, k: nat) -> int
    decreases k,
{
    if k == 0 {
        0
    } else {
        sum_y_upto(ct, (k - 1) as nat) + raw_score(ct, k as int + 2)
    }
}

/// Sum of keylength-weighted raw scores of the first `k` candidates.
pub open spec fn sum_xy_upto(ct: Seq<u8>, k: nat) -> int
    decreases k,
{
    if k == 0 {
        0
    } else {
        sum_xy_upto(ct, (k - 1) as nat) + (k + 2) * raw_score(ct, k as int + 2)
    }
}

/// Numerator of the least-squares slope, over denominator [`REG_D`].
pub open spec fn reg_mnum(ct: Seq<u8>) -> int {
    (REG_N as int) * sum_xy_upto(ct, 117) - (REG_SX as int) * sum_y_upto(ct, 117)
}

/// Numerator of the least-squares intercept, over `REG_N * REG_D`.
pub open spec fn reg_bnum(ct: Seq<u8>) -> int {
    sum_y_upto(ct, 117) * (REG_D as int) - reg_mnum(ct) * (REG_SX as int)
}

/// Numerator of the detrended, per-byte score of keylength `p`, over the
/// positive denominator `REG_N * REG_D * p`: `((raw - b) + m * p) / p`
/// with the regression line `y = m * x + b` brought onto one denominator.
pub open spec fn score_num(ct: Seq<u8>, p: int) -> int {
    raw_score(ct, p) * ((REG_N * REG_D) as int) - reg_bnum(ct) + reg_mnum(ct) * p * (REG_N as int)
}

/// Largest score magnitude kept; far above any score the arithmetic can
/// produce, so ranking is unaffected.
pub const SCORE_CAP: i128 = 0x100_0000_0000;

/// The detrended score of keylength `p`, truncated toward zero and kept
/// within [`SCORE_CAP`].
pub open spec fn keylen_score(ct: Seq<u8>, p: int) -> int {
    let den = ((REG_N * REG_D) as int) * p;
    let q = if score_num(ct, p) >= 0 {
        score_num(ct, p) / den
    } else {
        -((-score_num(ct, p)) / den)
    };
    if q > SCORE_CAP {
        SCORE_CAP as int
    } else if q < -SCORE_CAP {
        -(SCORE_CAP as int)
    } else {
        q
    }
}

/// The candidate keylengths, each paired with its detrended score, in
/// keylength order.
pub open spec fn score_pairs(ct: Seq<u8>) -> Seq<(usize, i128)> {
    Seq::new(117, |i: int| ((i + 3) as usize, keylen_score(ct, i + 3) as i128))
}

/// Partial raw-score sums stay within `k` times the largest raw score.
proof fn lemma_sum_bounds(ct: Seq<u8>, k: nat)
    requires
        ct.len() <= 0x10_0000,
        k <= 117,
    ensures
        0 <= sum_y_upto(ct, k) <= k * 0x2_0000_0000,
        0 <= sum_xy_upto(ct, k) <= k * (120 * 0x2_0000_0000),
    decreases k,
{
    if k > 0 {
        lemma_sum_bounds(ct, (k - 1) as nat);
        lemma_raw_score_le(ct, k as int + 2);
        assert(raw_score(ct, k as int + 2) <= 0x2_0000_0000) by {
            assert(8 * ct.len() * RAW_SCALE <= 0x2_0000_0000) by (nonlinear_arith)
                requires
                    ct.len() <= 0x10_0000,
            ;
        }
        assert((k + 2) * raw_score(ct, k as int + 2) <= 120 * 0x2_0000_0000) by (nonlinear_arith)
            requires
                0 <= raw_score(ct, k as int + 2) <= 0x2_0000_0000,
                0 < k + 2 <= 119,
        ;
        assert(k * 0x2_0000_0000 == (k - 1) * 0x2_0000_0000 + 0x2_0000_0000) by (nonlinear_arith);
        assert(k * (120 * 0x2_0000_0000) == (k - 1) * (120 * 0x2_0000_0000) + 120 * 0x2_0000_0000)
            by (nonlinear_arith);
    }
}

/// Ordering of the ranked pairs: by score, then by keylength.
pub open spec fn pair_le(a: (usize, i128), b: (usize, i128)) -> bool {
    a.1 < b.1 || (a.1 == b.1 && a.0 <= b.0)
}

/// A pair sequence sorted ascending under [`pair_le`].
pub open spec fn sorted_pairs(s: Seq<(usize, i128)>) -> bool {
    forall|i: int, j: int| 0 <= i < j < s.len() ==> pair_le(#[trigger] s[i], #[trigger] s[j])
}

/// Sort ranked pairs ascending by score, by keylength on equal scores.
fn sort_pairs(v: &mut Vec<(usize, i128)>)
    ensures
        final(v)@.len() == old(v)@.len(),
        final(v)@.to_multiset() == old(v)@.to_multiset(),
        sorted_pairs(final(v)@),
        forall|i: int| 0 <= i < final(v)@.len() ==> old(v)@.contains(#[trigger] final(v)@[i]),
{
    broadcast use vstd::seq_lib::group_to_multiset_ensures;

    let ghost orig = v@;
    let mut out: Vec<(usize, i128)> = Vec::new();
    proof {
        assert(out@.to_multiset().add(v@.to_multiset()) =~= orig.to_multiset());
    }
    while v.len() > 0
        invariant
            out@.to_multiset().add(v@.to_multiset()) == orig.to_multiset(),
            out@.len() + v@.len() == orig.len(),
            sorted_pairs(out@),
            forall|a: int, b: int|
                0 <= a < out@.len() && 0 <= b < v@.len() ==> pair_le(
                    #[trigger] out@[a],
                    #[trigger] v@[b],
                ),
        decreases v@.len(),
    {
        let mut mi: usize = 0;
        let mut j: usize = 1;
        while j < v.len()
            invariant
                v@.len() > 0,
                mi < j <= v@.len(),
                forall|k: int| 0 <= k < j ==> pair_le(v@[mi as int], #[trigger] v@[k]),
            decreases v@.len() - j,
        {
            let (cp, cs) = v[j];
            let (mp, ms) = v[mi];
            if cs < ms || (cs == ms && cp < mp) {
                mi = j;
            }
            j += 1;
        }
        let ghost pre_v = v@;
        let ghost pre_out = out@;
        let item = v.remove(mi);
        out.push(item);
        proof {
            broadcast use vstd::multiset::group_multiset_axioms;

            pre_v.to_multiset_ensures();
            pre_out.to_multiset_ensures();
            assert(v@ == pre_v.remove(mi as int));
            assert(pre_v.remove(mi as int).to_multiset() =~= pre_v.to_multiset().remove(
                pre_v[mi as int],
            ));
            assert(out@ == pre_out.push(item));
            assert(pre_out.push(item).to_multiset() =~= pre_out.to_multiset().insert(item));
            assert(v@.to_multiset() == pre_v.to_multiset().remove(item));
            assert(out@.to_multiset() == pre_out.to_multiset().insert(item));
            assert(pre_v.contains(item));
            assert(pre_v.to_multiset().count(item) > 0);
            assert forall|e: (usize, i128)|
                out@.to_multiset().add(v@.to_multiset()).count(e) == orig.to_multiset().count(
                    e,
                ) by {
                assert(pre_out.to_multiset().add(pre_v.to_multiset()).count(e)
                    == orig.to_multiset().count(e));
            }
            assert(out@.to_multiset().add(v@.to_multiset()) =~= orig.to_multiset());
            assert forall|a: int, b: int|
                0 <= a < out@.len() && 0 <= b < v@.len() implies pair_le(
                #[trigger] out@[a],
                #[trigger] v@[b],
            ) by {
                if a < pre_out.len() {
                    assert(out@[a] == pre_out[a]);
                } else {
                    assert(out@[a] == item);
                }
                if b < mi as int {
                    assert(v@[b] == pre_v[b]);
                } else {
                    assert(v@[b] == pre_v[b + 1]);
                }
            }
        }
    }
    proof {
        assert(v@.to_multiset() =~= Multiset::<(usize, i128)>::empty());
        assert(out@.to_multiset().add(Multiset::<(usize, i128)>::empty()) =~= out@.to_multiset());
        out@.to_multiset_ensures();
        orig.to_multiset_ensures();
        assert forall|i: int| 0 <= i < out@.len() implies orig.contains(#[trigger] out@[i]) by {
            assert(out@.contains(out@[i]));
            assert(out@.to_multiset().count(out@[i]) > 0);
            assert(orig.to_multiset().count(out@[i]) > 0);
        }
    }
    *v = out;
}

/// What [`guesses`] emits: nothing when the ciphertext cannot fit two
/// chunks of even the smallest candidate keylength, else the candidate
/// keylengths with their detrended scores, sorted ascending.
pub open spec fn ranking_ok(ct: Seq<u8>, ranked: Seq<(usize, i128)>) -> bool {
    if ct.len() < 2 * KEYSIZE_LO {
        ranked == Seq::<(usize, i128)>::empty()
    } else {
        &&& ranked.len() == KEYSIZE_HI - KEYSIZE_LO
        &&& ranked.to_multiset() == score_pairs(ct).to_multiset()
        &&& sorted_pairs(ranked)
        &&& (forall|i: int|
            0 <= i < ranked.len() ==> ((3 <= (#[trigger] ranked[i]).0 < 120) && -SCORE_CAP
                <= ranked[i].1 <= SCORE_CAP))
    }
}

/// Rank every candidate keylength: score each by normalized chunk
/// self-similarity, remove the linear length trend, divide by the
/// keylength, and sort ascending so the likeliest period comes first. A
/// ciphertext too short for two smallest-period chunks gets the empty
/// ranking, and the driver falls back to the known-candidate pass.
pub fn guesses(ciphertext: &[u8], keysizes: &mut Vec<(usize, i128)>)
    requires
        ciphertext@.len() <= 0x10_0000,
    ensures
        ranking_ok(ciphertext@, final(keysizes)@),
{
    let ghost ct = ciphertext@;
    keysizes.clear();
    if ciphertext.len() < 2 * KEYSIZE_LO {
        return;
    }

    let mut ys: Vec<u64> = Vec::new();
    let mut p: usize = KEYSIZE_LO;
    while p < KEYSIZE_HI
        invariant
            3 <= p <= 120,
            ct == ciphertext@,
            ct.len() <= 0x10_0000,
            ys@.len() == p - 3,
            forall|i: int| 0 <= i < ys@.len() ==> ys@[i] == raw_score(ct, i + 3),
        decreases 120 - p,
    {
        let y = hamming_distance_between_chunks(ciphertext, p);
        ys.push(y);
        p += 1;
    }

    let mut sy: u64 = 0;
    let mut sxy: u64 = 0;
    let mut k: usize = 0;
    while k < 117
        invariant
            k <= 117,
            ct.len() <= 0x10_0000,
            ys@.len() == 117,
            forall|i: int| 0 <= i < 117 ==> ys@[i] == raw_score(ct, i + 3),
            sy == sum_y_upto(ct, k as nat),
            sxy == sum_xy_upto(ct, k as nat),
        decreases 117 - k,
    {
        proof {
            lemma_sum_bounds(ct, (k + 1) as nat);
            lemma_sum_bounds(ct, k as nat);
            lemma_raw_score_le(ct, k as int + 3);
            assert(8 * ct.len() * RAW_SCALE <= 0x2_0000_0000) by (nonlinear_arith)
                requires
                    ct.len() <= 0x10_0000,
            ;
            assert((k as int + 3) * (ys@[k as int] as int) == ((k + 1) + 2) * raw_score(
                ct,
                (k + 1) as int + 2,
            )) by (nonlinear_arith)
                requires
                    ys@[k as int] == raw_score(ct, k as int + 3),
                    k as int + 3 == ((k + 1) + 2),
            ;
            assert((k as int + 3) * (ys@[k as int] as int) <= 120 * 0x2_0000_0000)
                by (nonlinear_arith)
                requires
                    0 <= ys@[k as int] <= 0x2_0000_0000,
                    3 <= k as int + 3 <= 120,
            ;
        }
        let y = ys[k];
        sy += y;
        sxy += (k as u64 + 3) * y;
        k += 1;
    }

    proof {
        lemma_sum_bounds(ct, 117);
        assert(REG_D == 15614586);
    }
    let mnum: i128 = REG_N * (sxy as i128) - REG_SX * (sy as i128);
    let bnum: i128 = (sy as i128) * REG_D - mnum * REG_SX;
    proof {
        assert(mnum == reg_mnum(ct));
        assert(bnum == reg_bnum(ct));
    }

    let nd: i128 = REG_N * REG_D;
    proof {
        assert(nd == 1826906562);
    }
    let mut i: usize = 0;
    while i < 117
        invariant
            i <= 117,
            ct == ciphertext@,
            ct.len() <= 0x10_0000,
            ys@.len() == 117,
            forall|t: int| 0 <= t < 117 ==> ys@[t] == raw_score(ct, t + 3),
            mnum == reg_mnum(ct),
            bnum == reg_bnum(ct),
            -0x100_0000_0000_0000_0000 <= mnum <= 0x100_0000_0000_0000_0000,
            -0x1_0000_0000_0000_0000_0000 <= bnum <= 0x1_0000_0000_0000_0000_0000,
            nd == REG_N * REG_D,
            nd == 1826906562,
            keysizes@.len() == i as int,
            forall|t: int| 0 <= t < i as int ==> keysizes@[t] == score_pairs(ct)[t],
        decreases 117 - i,
    {
        let pp = i + 3;
        let y = ys[i];
        proof {
            lemma_raw_score_le(ct, pp as int);
            assert(8 * ct.len() * RAW_SCALE <= 0x2_0000_0000) by (nonlinear_arith)
                requires
                    ct.len() <= 0x10_0000,
            ;
            assert(mnum * (pp as i128) <= 0x100_0000_0000_0000_0000 * 120 && mnum * (pp as i128)
                >= -(0x100_0000_0000_0000_0000 * 120)) by (nonlinear_arith)
                requires
                    -0x100_0000_0000_0000_0000 <= mnum <= 0x100_0000_0000_0000_0000,
                    3 <= pp as i128 <= 120,
            ;
        }
        let mterm: i128 = mnum * (pp as i128) * REG_N;
        let num: i128 = (y as i128) * nd - bnum + mterm;
        let den: u128 = (nd as u128) * (pp as u128);
        proof {
            assert(den == ((REG_N * REG_D) as int) * (pp as int));
            assert(den > 0);
            assert(num == score_num(ct, pp as int));
        }
        let quotient: i128 = if num >= 0 {
            ((num as u128) / den) as i128
        } else {
            (-(((((-num)) as u128) / den) as i128))
        };
        let score: i128 = if quotient > SCORE_CAP {
            SCORE_CAP
        } else if quotient < -SCORE_CAP {
            -SCORE_CAP
        } else {
            quotient
        };
        proof {
            let den_i = ((REG_N * REG_D) as int) * (pp as int);
            if num >= 0 {
                assert(quotient == score_num(ct, pp as int) / den_i);
            } else {
                assert((-num) as u128 as int == -(num as int));
                assert(((-num) as u128 / den) as int == (-(num as int)) / den_i);
                assert(quotient == -((-score_num(ct, pp as int)) / den_i));
            }
            assert(score == keylen_score(ct, pp as int));
            assert(keysizes@.push((pp, score))[i as int] == score_pairs(ct)[i as int]);
        }
        keysizes.push((pp, score));
        i += 1;
    }
    proof {
        assert(keysizes@ =~= score_pairs(ct));
    }
    sort_pairs(keysizes);
    proof {
        assert forall|t: int| 0 <= t < keysizes@.len() implies 3 <= (#[trigger] keysizes@[t]).0
            < 120 && -SCORE_CAP <= keysizes@[t].1 <= SCORE_CAP by {
            assert(score_pairs(ct).contains(keysizes@[t]));
            let w = choose|w: int|
                0 <= w < score_pairs(ct).len() && score_pairs(ct)[w] == keysizes@[t];
            assert(score_pairs(ct)[w].0 == (w + 3) as usize);
        }
    }
}


/// The undetrended ranking pairs: each candidate keylength in `[4, 45)`
/// with its raw normalized chunk score.
pub open spec fn raw_pairs(ct: Seq<u8>) -> Seq<(usize, i128)> {
    Seq::new(41, |i: int| ((i + 4) as usize, raw_score(ct, i + 4) as i128))
}

/// Rank candidate keylengths by the raw normalized chunk score alone,
/// without detrending, and return the thirty best, likeliest first.
pub fn keylength_guesses(ciphertext: &[u8]) -> (r: Vec<usize>)
    requires
        ciphertext@.len() <= 0x10_0000,
    ensures
        exists|ranked: Seq<(usize, i128)>|
            {
                &&& #[trigger] sorted_pairs(ranked)
                &&& ranked.to_multiset() == raw_pairs(ciphertext@).to_multiset()
                &&& ranked.len() == 41
                &&& r@ == ranked.take(30).map_values(|pr: (usize, i128)| pr.0)
            },
{
    let ghost ct = ciphertext@;
    let mut keysizes: Vec<(usize, i128)> = Vec::new();
    let mut p: usize = 4;
    while p < 45
        invariant
            4 <= p <= 45,
            ct == ciphertext@,
            ct.len() <= 0x10_0000,
            keysizes@.len() == p - 4,
            forall|i: int| 0 <= i < keysizes@.len() ==> keysizes@[i] == raw_pairs(ct)[i],
        decreases 45 - p,
    {
        let y = hamming_distance_between_chunks(ciphertext, p);
        keysizes.push((p, y as i128));
        p += 1;
    }
    proof {
        assert(keysizes@ =~= raw_pairs(ct));
    }
    sort_pairs(&mut keysizes);
    let ghost ranked = keysizes@;

    let mut out: Vec<usize> = Vec::new();
    let mut i: usize = 0;
    while i < 30 && i < keysizes.len()
        invariant
            i <= 30,
            i <= ranked.len(),
            ranked == keysizes@,
            out@.len() == i as int,
            forall|t: int| 0 <= t < i as int ==> out@[t] == ranked[t].0,
        decreases 30 - i,
    {
        let (size, _score) = keysizes[i];
        out.push(size);
        i += 1;
    }
    proof {
        assert(out@ =~= ranked.take(30).map_values(|pr: (usize, i128)| pr.0));
    }
    out
}

} // verus!
