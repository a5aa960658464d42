//! Wordlists: the text-form [`Dictionary`] and its byte-form counterpart.

use vstd::prelude::*;

verus! {

use vstd::string::StrSliceExecFns;
use vstd::string::StringSliceAdditionalSpecFns;

/// An alphabetized wordlist. Each word consists of lowercase ASCII
/// alphabetic characters only.
#[derive(Clone, Debug)]
pub struct Dictionary {
    /// The words, sorted lexicographically.
    pub words: Vec<String>,
}

impl Dictionary {
    /// Number of words held.
    pub fn len(&self) -> (r: usize)
        ensures
            r == self.words@.len(),
    {
        self.words.len()
    }
}

/// Edit distance between two byte sequences: the least number of
/// insertions, deletions and substitutions turning `a` into `b`.
pub open spec fn lev(a: Seq<u8>, b: Seq<u8>) -> nat
    decreases a.len() + b.len(),
{
    if a.len() == 0 {
        b.len()
    } else if b.len() == 0 {
        a.len()
    } else {
        let del = lev(a.drop_last(), b) + 1;
        let ins = lev(a, b.drop_last()) + 1;
        let sub = lev(a.drop_last(), b.drop_last()) + if a.last() == b.last() {
            0nat
        } else {
            1nat
        };
        if del <= ins && del <= sub {
            del
        } else if ins <= sub {
            ins
        } else {
            sub
        }
    }
}

/// Edit distance is bounded by the summed lengths.
pub proof fn lemma_lev_upper_bound(a: Seq<u8>, b: Seq<u8>)
    ensures
        lev(a, b) <= a.len() + b.len(),
    decreases a.len() + b.len(),
{
    if a.len() == 0 {
    } else if b.len() == 0 {
    } else {
        lemma_lev_upper_bound(a.drop_last(), b);
        lemma_lev_upper_bound(a, b.drop_last());
        lemma_lev_upper_bound(a.drop_last(), b.drop_last());
    }
}

/// Compute the edit distance between two byte sequences with the classic
/// single-row dynamic program.
pub fn levenshtein(a: &[u8], b: &[u8]) -> (r: usize)
    requires
        a@.len() + b@.len() < usize::MAX,
    ensures
        r == lev(a@, b@),
{
    let b_len = b.len();
    if a.len() == 0 {
        return b_len;
    }

    let mut cache: Vec<usize> = Vec::new();
    let mut t: usize = 0;
    while t < b_len
        invariant
            t <= b_len,
            b_len == b@.len(),
            cache@.len() == t as int,
            forall|k: int| 0 <= k < t as int ==> cache@[k] == k + 1,
        decreases b_len - t,
    {
        cache.push(t + 1);
        t += 1;
    }
    proof {
        assert forall|k: int| 0 <= k < b_len implies cache@[k] == lev(a@.take(0), b@.take(k + 1))
            by {
            assert(a@.take(0).len() == 0);
            assert(b@.take(k + 1).len() == k + 1);
        }
    }

    let mut result: usize = 0;
    let mut i: usize = 0;
    while i < a.len()
        invariant
            i <= a@.len(),
            a@.len() > 0,
            a@.len() + b@.len() < usize::MAX,
            b_len == b@.len(),
            cache@.len() == b_len,
            forall|k: int| 0 <= k < b_len ==> cache@[k] == lev(a@.take(i as int), b@.take(k + 1)),
            b_len > 0 && i > 0 ==> result == lev(a@.take(i as int), b@),
            b_len == 0 ==> result == if i == 0 {
                0int
            } else {
                i as int
            },
        decreases a@.len() - i,
    {
        result = i + 1;
        let mut distance_b = i;
        proof {
            assert(a@.take(i as int).len() == i);
            assert(b@.take(0).len() == 0);
            assert(distance_b == lev(a@.take(i as int), b@.take(0)));
            assert(a@.take(i + 1).len() == i + 1);
            assert(result == lev(a@.take(i + 1), b@.take(0)));
        }
        let mut j: usize = 0;
        while j < b_len
            invariant
                j <= b_len,
                i < a@.len(),
                a@.len() + b@.len() < usize::MAX,
                b_len == b@.len(),
                cache@.len() == b_len,
                forall|k: int| j as int <= k < b_len ==> cache@[k] == lev(
                    a@.take(i as int),
                    b@.take(k + 1),
                ),
                forall|k: int| 0 <= k < j as int ==> cache@[k] == lev(
                    a@.take(i + 1),
                    b@.take(k + 1),
                ),
                distance_b == lev(a@.take(i as int), b@.take(j as int)),
                result == lev(a@.take(i + 1), b@.take(j as int)),
            decreases b_len - j,
        {
            proof {
                lemma_lev_upper_bound(a@.take(i as int), b@.take(j as int));
                lemma_lev_upper_bound(a@.take(i as int), b@.take(j + 1));
                lemma_lev_upper_bound(a@.take(i + 1), b@.take(j as int));
            }
            let cost: usize = if a[i] == b[j] {
                0
            } else {
                1
            };
            let distance_a = distance_b + cost;
            distance_b = cache[j];
            let step = if distance_a < distance_b + 1 {
                distance_a
            } else {
                distance_b + 1
            };
            result = if result + 1 < step {
                result + 1
            } else {
                step
            };
            cache[j] = result;
            proof {
                let pa = a@.take(i + 1);
                let pb = b@.take(j + 1);
                assert(pa.drop_last() =~= a@.take(i as int));
                assert(pb.drop_last() =~= b@.take(j as int));
                assert(pa.last() == a@[i as int]);
                assert(pb.last() == b@[j as int]);
                assert(result == lev(pa, pb));
            }
            j += 1;
        }
        proof {
            if b_len > 0 {
                assert(b@.take(b_len as int) =~= b@);
            }
        }
        i += 1;
    }
    proof {
        assert(a@.take(a@.len() as int) =~= a@);
        if b_len == 0 {
            assert(b@.take(0) =~= b@);
            assert(result == lev(a@, b@));
        }
    }
    result
}

/// A wordlist in byte form: each word encoded as symbols with a trailing
/// space symbol appended. This is the form the re-segmenter consumes.
pub struct BytesDictionary {
    /// The byte-form words, in dictionary order.
    pub words: Vec<Vec<u8>>,
}

/// A word in byte form: its symbols with a trailing space appended.
pub open spec fn byte_word(w: Seq<char>) -> Seq<u8> {
    w.map_values(|c: char| crate::utils::sym_of_char(c)).push(26u8)
}

impl BytesDictionary {
    /// Every byte-form word is non-empty, ends in the space symbol, and
    /// holds valid symbols.
    pub open spec fn wf(self) -> bool {
        forall|i: int| 0 <= i < self.words@.len() ==> {
            &&& (#[trigger] self.words@[i]@).len() > 0
            &&& self.words@[i]@.last() == 26u8
            &&& forall|k: int| 0 <= k < self.words@[i]@.len() ==> crate::utils::valid_sym(
                #[trigger] self.words@[i]@[k],
            )
        }
    }

    /// Encode every dictionary word and append the trailing space symbol.
    pub fn from_dict(dict: &Dictionary) -> (r: Self)
        requires
            forall|i: int| 0 <= i < dict.words@.len() ==> forall|k: int|
                0 <= k < (#[trigger] dict.words@[i])@.len() ==> crate::utils::valid_char(
                    #[trigger] dict.words@[i]@[k],
                ),
        ensures
            r.words@.len() == dict.words@.len(),
            forall|i: int| 0 <= i < dict.words@.len() ==> (#[trigger] r.words@[i])@ == byte_word(
                dict.words@[i]@,
            ),
            r.wf(),
    {
        let mut words: Vec<Vec<u8>> = Vec::new();
        let mut i: usize = 0;
        while i < dict.words.len()
            invariant
                i <= dict.words@.len(),
                forall|t: int| 0 <= t < dict.words@.len() ==> forall|k: int|
                    0 <= k < (#[trigger] dict.words@[t])@.len() ==> crate::utils::valid_char(
                        #[trigger] dict.words@[t]@[k],
                    ),
                words@.len() == i as int,
                forall|t: int| 0 <= t < i as int ==> (#[trigger] words@[t])@ == byte_word(
                    dict.words@[t]@,
                ),
            decreases dict.words@.len() - i,
        {
            let word = &dict.words[i];
            let mut w = crate::utils::str_to_bytes(word.as_str());
            w.push(26);
            proof {
                assert(w@ =~= byte_word(dict.words@[i as int]@));
            }
            words.push(w);
            i += 1;
        }
        let r = BytesDictionary { words };
        proof {
            assert forall|i: int| 0 <= i < r.words@.len() implies {
                &&& (#[trigger] r.words@[i]@).len() > 0
                &&& r.words@[i]@.last() == 26u8
                &&& forall|k: int| 0 <= k < r.words@[i]@.len() ==> crate::utils::valid_sym(
                    #[trigger] r.words@[i]@[k],
                )
            } by {
                assert(r.words@[i]@ == byte_word(dict.words@[i]@));
                let bw = byte_word(dict.words@[i]@);
                assert(bw.last() == 26u8);
                assert forall|k: int| 0 <= k < bw.len() implies crate::utils::valid_sym(
                    #[trigger] bw[k],
                ) by {
                    if k < bw.len() - 1 {
                        assert(bw[k] == crate::utils::sym_of_char(dict.words@[i]@[k]));
                    }
                }
            }
        }
        r
    }

    /// The first index among `[0, n)` whose word is closest to the probe.
    pub open spec fn best_index_upto(ws: Seq<Seq<u8>>, probe: Seq<u8>, n: nat) -> int
        decreases n,
    {
        if n <= 1 {
            0
        } else {
            let prev = Self::best_index_upto(ws, probe, (n - 1) as nat);
            if lev(probe, ws[n - 1]) < lev(probe, ws[prev]) {
                n - 1
            } else {
                prev
            }
        }
    }

    /// The first index whose word is closest to the probe.
    pub open spec fn best_index(ws: Seq<Seq<u8>>, probe: Seq<u8>) -> int {
        Self::best_index_upto(ws, probe, ws.len())
    }

    /// Find the closest word by edit distance, the first such word on
    /// ties. Returns the word and its distance to the probe.
    pub fn best_levenshtein(&self, word: &[u8]) -> (r: (&Vec<u8>, usize))
        requires
            self.words@.len() > 0,
            word@.len() < 0x1000_0000,
            forall|i: int| 0 <= i < self.words@.len() ==> (#[trigger] self.words@[i])@.len()
                < 0x1000_0000,
        ensures
            r.0 == &self.words@[Self::best_index(self.words.deep_view(), word@)],
            r.1 == lev(word@, self.words.deep_view()[Self::best_index(
                self.words.deep_view(),
                word@,
            )]),
    {
        let ghost ws = self.words.deep_view();
        proof {
            assert forall|t: int| 0 <= t < ws.len() implies ws[t] == (#[trigger] self.words@[t])@
                by {
                assert(ws[t] == self.words@[t].deep_view());
                assert(self.words@[t].deep_view() =~= self.words@[t]@);
            }
        }
        let mut bi: usize = 0;
        let mut bd: usize = levenshtein(word, self.words[0].as_slice());
        let mut j: usize = 1;
        while j < self.words.len()
            invariant
                1 <= j <= ws.len(),
                ws == self.words.deep_view(),
                ws.len() == self.words@.len(),
                forall|t: int| 0 <= t < ws.len() ==> ws[t] == (#[trigger] self.words@[t])@,
                word@.len() < 0x1000_0000,
                forall|i: int| 0 <= i < self.words@.len() ==> (#[trigger] self.words@[i])@.len()
                    < 0x1000_0000,
                bi < j,
                bi as int == Self::best_index_upto(ws, word@, j as nat),
                bd == lev(word@, ws[bi as int]),
            decreases ws.len() - j,
        {
            let d = levenshtein(word, self.words[j].as_slice());
            if d < bd {
                bi = j;
                bd = d;
            }
            j += 1;
        }
        (&self.words[bi], bd)
    }
}


/// An ASCII whitespace byte: space, tab, line feed, form feed or
/// carriage return.
pub open spec fn is_ws_byte(b: u8) -> bool {
    b == 32 || b == 9 || b == 10 || b == 12 || b == 13
}

/// An ASCII byte lowercased.
pub open spec fn lower_byte(b: u8) -> u8 {
    if 65 <= b <= 90 {
        (b + 32) as u8
    } else {
        b
    }
}

/// A lowercase ASCII letter.
pub open spec fn is_lower_alpha(b: u8) -> bool {
    97 <= b <= 122
}

/// A token is entirely alphabetic.
pub open spec fn all_alpha(t: Seq<u8>) -> bool {
    forall|k: int| 0 <= k < t.len() ==> is_lower_alpha(#[trigger] t[k])
}

/// Length of the whitespace-free token starting the sequence.
pub open spec fn token_len(s: Seq<u8>) -> nat
    decreases s.len(),
{
    if s.len() == 0 || is_ws_byte(s[0]) {
        0
    } else {
        1 + token_len(s.skip(1))
    }
}

/// The whitespace-separated tokens of a byte sequence, in order.
pub open spec fn tokens(s: Seq<u8>) -> Seq<Seq<u8>>
    decreases s.len(),
{
    if s.len() == 0 {
        Seq::empty()
    } else if is_ws_byte(s[0]) {
        tokens(s.skip(1))
    } else {
        let l = if 1 <= token_len(s) <= s.len() {
            token_len(s) as int
        } else {
            1int
        };
        seq![s.take(l)] + tokens(s.skip(l))
    }
}

/// The tokens that survive the alphabetic filter, in order.
pub open spec fn alpha_tokens(ts: Seq<Seq<u8>>) -> Seq<Seq<u8>> {
    ts.filter(|t: Seq<u8>| all_alpha(t))
}

/// Lexicographic order on byte sequences, shorter prefixes first.
pub open spec fn lex_le(a: Seq<u8>, b: Seq<u8>) -> bool
    decreases a.len(),
{
    if a.len() == 0 {
        true
    } else if b.len() == 0 {
        false
    } else if a[0] < b[0] {
        true
    } else if a[0] > b[0] {
        false
    } else {
        lex_le(a.skip(1), b.skip(1))
    }
}

/// The byte codes of a string's characters.
pub open spec fn word_codes(w: Seq<char>) -> Seq<u8> {
    w.map_values(|c: char| c as u8)
}

/// The lowercased UTF-8 bytes of a source string. Bytes outside ASCII
/// pass through unchanged; they can only make their token non-alphabetic.
pub open spec fn source_codes(s: &str) -> Seq<u8> {
    Seq::new(s.spec_bytes().len(), |i: int| lower_byte(s.spec_bytes()[i]))
}

/// The token starting the sequence runs to the first whitespace byte.
proof fn lemma_token_len_char(s: Seq<u8>, k: int)
    requires
        0 <= k <= s.len(),
        forall|m: int| 0 <= m < k ==> !is_ws_byte(#[trigger] s[m]),
        k == s.len() || is_ws_byte(s[k]),
    ensures
        token_len(s) == k,
    decreases k,
{
    if k == 0 {
    } else {
        assert(!is_ws_byte(s[0]));
        lemma_token_len_char(s.skip(1), k - 1);
    }
}

/// Lexicographic order is reflexive.
proof fn lemma_lex_le_refl(a: Seq<u8>)
    ensures
        lex_le(a, a),
    decreases a.len(),
{
    if a.len() > 0 {
        lemma_lex_le_refl(a.skip(1));
    }
}

/// Strict lexicographic order on byte sequences.
pub open spec fn lex_lt(a: Seq<u8>, b: Seq<u8>) -> bool {
    lex_le(a, b) && a != b
}

/// Lexicographic order is antisymmetric.
proof fn lemma_lex_le_antisymmetric(a: Seq<u8>, b: Seq<u8>)
    requires
        lex_le(a, b),
        lex_le(b, a),
    ensures
        a == b,
    decreases a.len(),
{
    if a.len() == 0 {
        assert(b.len() == 0);
        assert(a =~= b);
    } else {
        assert(b.len() > 0);
        assert(a[0] == b[0]);
        lemma_lex_le_antisymmetric(a.skip(1), b.skip(1));
        assert(a.len() == a.skip(1).len() + 1);
        assert(b.len() == b.skip(1).len() + 1);
        assert forall|i: int| 0 <= i < a.len() implies a[i] == b[i] by {
            if i > 0 {
                assert(a[i] == a.skip(1)[i - 1]);
                assert(b[i] == b.skip(1)[i - 1]);
            }
        }
        assert(a =~= b);
    }
}

/// Strict lexicographic order is transitive.
proof fn lemma_lex_lt_trans(a: Seq<u8>, b: Seq<u8>, c: Seq<u8>)
    requires
        lex_lt(a, b),
        lex_lt(b, c),
    ensures
        lex_lt(a, c),
{
    lemma_lex_le_trans(a, b, c);
    if a == c {
        lemma_lex_le_antisymmetric(a, b);
    }
}

/// Lexicographic order is total.
proof fn lemma_lex_le_total(a: Seq<u8>, b: Seq<u8>)
    ensures
        lex_le(a, b) || lex_le(b, a),
    decreases a.len(),
{
    if a.len() > 0 && b.len() > 0 && a[0] == b[0] {
        lemma_lex_le_total(a.skip(1), b.skip(1));
    }
}

/// Lexicographic order is transitive.
proof fn lemma_lex_le_trans(a: Seq<u8>, b: Seq<u8>, c: Seq<u8>)
    requires
        lex_le(a, b),
        lex_le(b, c),
    ensures
        lex_le(a, c),
    decreases a.len(),
{
    if a.len() > 0 && b.len() > 0 && c.len() > 0 && a[0] == b[0] && b[0] == c[0] {
        lemma_lex_le_trans(a.skip(1), b.skip(1), c.skip(1));
    }
}

/// A sequence with no elements carries the empty multiset.
proof fn lemma_empty_seq_multiset(s: Seq<Seq<u8>>)
    requires
        s.len() == 0,
    ensures
        s.to_multiset() =~= vstd::multiset::Multiset::<Seq<u8>>::empty(),
{
    broadcast use vstd::multiset::group_multiset_axioms;

    s.to_multiset_ensures();
    assert forall|e: Seq<u8>| s.to_multiset().count(e) == 0 by {
        assert(!s.contains(e));
    }
}

/// Compare two words lexicographically.
fn lex_leq(a: &Vec<u8>, b: &Vec<u8>) -> (r: bool)
    ensures
        r == lex_le(a@, b@),
{
    let mut i: usize = 0;
    let alen = a.len();
    let blen = b.len();
    proof {
        assert(a@.skip(0) =~= a@);
        assert(b@.skip(0) =~= b@);
    }
    while i < alen && i < blen
        invariant
            i <= alen,
            i <= blen,
            alen == a@.len(),
            blen == b@.len(),
            forall|m: int| 0 <= m < i ==> a@[m] == b@[m],
            lex_le(a@, b@) == lex_le(a@.skip(i as int), b@.skip(i as int)),
        decreases alen - i,
    {
        proof {
            assert(a@.skip(i as int).skip(1) =~= a@.skip(i + 1));
            assert(b@.skip(i as int).skip(1) =~= b@.skip(i + 1));
        }
        if a[i] < b[i] {
            return true;
        }
        if a[i] > b[i] {
            return false;
        }
        i += 1;
    }
    proof {
        if i >= alen {
            assert(a@.skip(i as int).len() == 0);
        } else {
            assert(b@.skip(i as int).len() == 0);
            assert(a@.skip(i as int).len() > 0);
        }
    }
    i >= alen
}

/// Sort words lexicographically, preserving multiplicity.
fn sort_words(v: &mut Vec<Vec<u8>>)
    ensures
        final(v)@.len() == old(v)@.len(),
        final(v).deep_view().to_multiset() == old(v).deep_view().to_multiset(),
        forall|i: int, j: int|
            0 <= i < j < final(v)@.len() ==> lex_le(
                (#[trigger] final(v)@[i])@,
                (#[trigger] final(v)@[j])@,
            ),
        forall|i: int| 0 <= i < final(v)@.len() ==> old(v).deep_view().contains(
            #[trigger] final(v).deep_view()[i],
        ),
{
    broadcast use vstd::multiset::group_multiset_axioms;

    let ghost orig = v.deep_view();
    let mut out: Vec<Vec<u8>> = Vec::new();
    proof {
        lemma_empty_seq_multiset(out.deep_view());
        assert(out.deep_view().to_multiset().add(v.deep_view().to_multiset())
            =~= orig.to_multiset());
    }
    while v.len() > 0
        invariant
            out.deep_view().to_multiset().add(v.deep_view().to_multiset()) == orig.to_multiset(),
            out@.len() + v@.len() == orig.len(),
            forall|i: int, j: int|
                0 <= i < j < out@.len() ==> lex_le((#[trigger] out@[i])@, (#[trigger] out@[j])@),
            forall|a: int, b: int|
                0 <= a < out@.len() && 0 <= b < v@.len() ==> lex_le(
                    (#[trigger] out@[a])@,
                    (#[trigger] v@[b])@,
                ),
        decreases v@.len(),
    {
        let mut mi: usize = 0;
        let mut j: usize = 1;
        proof {
            lemma_lex_le_refl(v@[0]@);
        }
        while j < v.len()
            invariant
                v@.len() > 0,
                mi < j <= v@.len(),
                forall|k: int| 0 <= k < j ==> lex_le((v@[mi as int])@, (#[trigger] v@[k])@),
            decreases v@.len() - j,
        {
            let jlemi = lex_leq(&v[j], &v[mi]);
            let milej = lex_leq(&v[mi], &v[j]);
            proof {
                lemma_lex_le_total(v@[j as int]@, v@[mi as int]@);
            }
            if jlemi && !milej {
                proof {
                    lemma_lex_le_refl(v@[j as int]@);
                    assert forall|k: int| 0 <= k <= j implies lex_le(
                        (v@[j as int])@,
                        (#[trigger] v@[k])@,
                    ) by {
                        if k < j {
                            lemma_lex_le_trans(v@[j as int]@, v@[mi as int]@, v@[k]@);
                        }
                    }
                }
                mi = j;
            } else {
                proof {
                    assert(lex_le(v@[mi as int]@, v@[j as int]@));
                }
            }
            j += 1;
        }
        let ghost pre_v = v.deep_view();
        let ghost pre_vv = v@;
        let ghost pre_out = out@;
        let ghost pre_outd = out.deep_view();
        let item = v.remove(mi);
        out.push(item);
        proof {
            broadcast use vstd::multiset::group_multiset_axioms;

            assert(v.deep_view() =~= pre_v.remove(mi as int));
            pre_v.to_multiset_ensures();
            pre_outd.to_multiset_ensures();
            assert(pre_v.remove(mi as int).to_multiset() =~= pre_v.to_multiset().remove(
                pre_v[mi as int],
            ));
            assert(out.deep_view() =~= pre_outd.push(item.deep_view()));
            assert(pre_outd.push(item.deep_view()).to_multiset() =~= pre_outd.to_multiset().insert(
                item.deep_view(),
            ));
            assert(pre_v.contains(item.deep_view()));
            assert(pre_v.to_multiset().count(item.deep_view()) > 0);
            assert forall|e: Seq<u8>|
                out.deep_view().to_multiset().add(v.deep_view().to_multiset()).count(e)
                    == orig.to_multiset().count(e) by {
                assert(pre_outd.to_multiset().add(pre_v.to_multiset()).count(e)
                    == orig.to_multiset().count(e));
            }
            assert(out.deep_view().to_multiset().add(v.deep_view().to_multiset())
                =~= orig.to_multiset());
            assert forall|a: int, b: int|
                0 <= a < out@.len() && 0 <= b < v@.len() implies lex_le(
                (#[trigger] out@[a])@,
                (#[trigger] v@[b])@,
            ) by {
                if a < pre_out.len() {
                    assert(out@[a] == pre_out[a]);
                } else {
                    assert(out@[a] == item);
                }
                if b < mi as int {
                    assert(v@[b] == pre_vv[b]);
                } else {
                    assert(v@[b] == pre_vv[b + 1]);
                }
            }
        }
    }
    proof {
        broadcast use vstd::multiset::group_multiset_axioms;

        lemma_empty_seq_multiset(v.deep_view());
        assert(out.deep_view().to_multiset().add(v.deep_view().to_multiset())
            =~= out.deep_view().to_multiset());
        out.deep_view().to_multiset_ensures();
        orig.to_multiset_ensures();
        assert forall|i: int| 0 <= i < out@.len() implies orig.contains(
            #[trigger] out.deep_view()[i],
        ) by {
            assert(out.deep_view().contains(out.deep_view()[i]));
            assert(out.deep_view().to_multiset().count(out.deep_view()[i]) > 0);
            assert(orig.to_multiset().count(out.deep_view()[i]) > 0);
        }
    }
    *v = out;
}


/// The non-alphabetic tokens, in order; these are dropped with a
/// diagnostic rather than kept.
pub open spec fn rejected_tokens(ts: Seq<Seq<u8>>) -> Seq<Seq<u8>> {
    ts.filter(|t: Seq<u8>| !all_alpha(t))
}

/// The byte codes of each word of a wordlist.
pub open spec fn words_codes_seq(ws: Seq<String>) -> Seq<Seq<u8>> {
    Seq::new(ws.len(), |i: int| word_codes(ws[i]@))
}

impl Dictionary {
    /// Build a dictionary from a whitespace-separated text blob: lowercase
    /// the ASCII letters, split on ASCII whitespace, drop tokens holding
    /// any non-alphabetic byte (non-ASCII included), sort the survivors
    /// lexicographically and drop duplicates. The dropped tokens come back
    /// alongside, as their raw lowercased bytes, so a caller can report
    /// them.
    #[verifier::rlimit(100)]
    pub fn from_string_with_rejects(source: &str) -> (r: (Self, Vec<Vec<u8>>))
        ensures
            forall|i: int, j: int|
                0 <= i < j < r.0.words@.len() ==> lex_lt(
                    word_codes((#[trigger] r.0.words@[i])@),
                    word_codes((#[trigger] r.0.words@[j])@),
                ),
            words_codes_seq(r.0.words@).to_set() == alpha_tokens(
                tokens(source_codes(source)),
            ).to_set(),
            forall|i: int| 0 <= i < r.0.words@.len() ==> (#[trigger] r.0.words@[i])@.len() > 0,
            forall|i: int| 0 <= i < r.0.words@.len() ==> forall|k: int|
                0 <= k < (#[trigger] r.0.words@[i])@.len() ==> crate::utils::valid_char(
                    #[trigger] r.0.words@[i]@[k],
                ),
            r.1.deep_view() == rejected_tokens(tokens(source_codes(source))),
    {
        let raw = source.as_bytes_vec();
        let n = raw.len();
        let mut bytes: Vec<u8> = Vec::new();
        let mut i: usize = 0;
        while i < n
            invariant
                i <= n,
                n == raw@.len(),
                raw@ == source.spec_bytes(),
                bytes@.len() == i as int,
                forall|t: int| 0 <= t < i as int ==> bytes@[t] == lower_byte(raw@[t]),
            decreases n - i,
        {
            let b = raw[i];
            let lowered: u8 = if 65 <= b && b <= 90 {
                b + 32
            } else {
                b
            };
            bytes.push(lowered);
            i += 1;
        }
        let ghost codes = bytes@;
        proof {
            assert(codes =~= source_codes(source));
        }

        let mut kept: Vec<Vec<u8>> = Vec::new();
        let mut rejects: Vec<Vec<u8>> = Vec::new();
        let mut cur: usize = 0;
        proof {
            assert(codes.skip(0) =~= codes);
            assert(kept.deep_view() =~= Seq::<Seq<u8>>::empty());
            assert(rejects.deep_view() =~= Seq::<Seq<u8>>::empty());
            assert(Seq::<Seq<u8>>::empty() + alpha_tokens(tokens(codes)) =~= alpha_tokens(
                tokens(codes),
            ));
            assert(Seq::<Seq<u8>>::empty() + rejected_tokens(tokens(codes)) =~= rejected_tokens(
                tokens(codes),
            ));
        }
        while cur < n
            invariant
                cur <= n,
                n == codes.len(),
                codes == bytes@,
                alpha_tokens(tokens(codes)) == kept.deep_view() + alpha_tokens(
                    tokens(codes.skip(cur as int)),
                ),
                rejected_tokens(tokens(codes)) == rejects.deep_view() + rejected_tokens(
                    tokens(codes.skip(cur as int)),
                ),
                forall|t: int| 0 <= t < kept@.len() ==> all_alpha((#[trigger] kept@[t])@),
                forall|t: int| 0 <= t < kept@.len() ==> (#[trigger] kept@[t])@.len() > 0,
            decreases n - cur,
        {
            let ghost pre = cur as int;
            if is_ws(bytes[cur]) {
                cur += 1;
                proof {
                    assert(codes.skip(pre).skip(1) =~= codes.skip(pre + 1));
                    assert(tokens(codes.skip(pre)) == tokens(codes.skip(pre + 1)));
                }
            } else {
                let start = cur;
                let mut tok: Vec<u8> = Vec::new();
                let mut ok = true;
                while cur < n && !is_ws(bytes[cur])
                    invariant
                        start <= cur <= n,
                        n == codes.len(),
                        codes == bytes@,
                        start < n,
                        !is_ws_byte(codes[start as int]),
                        forall|m: int| start as int <= m < cur as int ==> !is_ws_byte(
                            #[trigger] codes[m],
                        ),
                        tok@ == codes.subrange(start as int, cur as int),
                        ok == all_alpha(tok@),
                    decreases n - cur,
                {
                    let b = bytes[cur];
                    let ghost pre_tok = tok@;
                    let ghost pre_ok = ok;
                    tok.push(b);
                    if !(97 <= b && b <= 122) {
                        ok = false;
                    }
                    proof {
                        assert(tok@ =~= codes.subrange(start as int, cur as int + 1));
                        if ok {
                            assert forall|k: int| 0 <= k < tok@.len() implies is_lower_alpha(
                                #[trigger] tok@[k],
                            ) by {
                                if k < pre_tok.len() {
                                    assert(tok@[k] == pre_tok[k]);
                                }
                            }
                        } else {
                            if !is_lower_alpha(b) {
                                assert(tok@[tok@.len() - 1] == b);
                                assert(!all_alpha(tok@));
                            } else {
                                assert(!pre_ok);
                                let k = choose|k: int|
                                    0 <= k < pre_tok.len() && !is_lower_alpha(#[trigger] pre_tok[k]);
                                assert(tok@[k] == pre_tok[k]);
                                assert(!all_alpha(tok@));
                            }
                        }
                    }
                    cur += 1;
                }
                proof {
                    let rest = codes.skip(start as int);
                    assert forall|m: int| 0 <= m < cur as int - start as int implies !is_ws_byte(
                        #[trigger] rest[m],
                    ) by {
                        assert(rest[m] == codes[start as int + m]);
                    }
                    if cur < n {
                        assert(is_ws_byte(rest[cur as int - start as int]));
                    }
                    lemma_token_len_char(rest, cur as int - start as int);
                    let l = token_len(rest) as int;
                    assert(l == cur as int - start as int);
                    assert(1 <= l <= rest.len());
                    assert(rest.take(l) =~= codes.subrange(start as int, cur as int));
                    assert(rest.skip(l) =~= codes.skip(cur as int));
                    assert(tokens(rest) == seq![tok@] + tokens(codes.skip(cur as int)));
                    lemma_filter_one(tok@, tokens(codes.skip(cur as int)));
                }
                let ghost kd = kept.deep_view();
                let ghost rd = rejects.deep_view();
                let ghost tokv = tok@;
                if ok {
                    kept.push(tok);
                    proof {
                        assert(kept.deep_view() =~~= kd.push(tokv));
                        assert(kd + (seq![tokv] + alpha_tokens(tokens(codes.skip(cur as int))))
                            =~= kd.push(tokv) + alpha_tokens(tokens(codes.skip(cur as int))));
                        assert(alpha_tokens(tokens(codes)) == kept.deep_view() + alpha_tokens(
                            tokens(codes.skip(cur as int)),
                        ));
                        assert(Seq::<Seq<u8>>::empty() + rejected_tokens(
                            tokens(codes.skip(cur as int)),
                        ) =~= rejected_tokens(tokens(codes.skip(cur as int))));
                        assert(rejected_tokens(tokens(codes)) == rejects.deep_view()
                            + rejected_tokens(tokens(codes.skip(cur as int))));
                    }
                } else {
                    rejects.push(tok);
                    proof {
                        assert(rejects.deep_view() =~~= rd.push(tokv));
                        assert(rd + (seq![tokv] + rejected_tokens(tokens(codes.skip(cur as int))))
                            =~= rd.push(tokv) + rejected_tokens(tokens(codes.skip(cur as int))));
                        assert(rejected_tokens(tokens(codes)) == rejects.deep_view()
                            + rejected_tokens(tokens(codes.skip(cur as int))));
                        assert(Seq::<Seq<u8>>::empty() + alpha_tokens(
                            tokens(codes.skip(cur as int)),
                        ) =~= alpha_tokens(tokens(codes.skip(cur as int))));
                        assert(alpha_tokens(tokens(codes)) == kept.deep_view() + alpha_tokens(
                            tokens(codes.skip(cur as int)),
                        ));
                    }
                }
            }
        }
        proof {
            assert(codes.skip(n as int).len() == 0);
            assert(tokens(codes.skip(n as int)) =~= Seq::<Seq<u8>>::empty());
            lemma_filter_empty();
            assert(kept.deep_view() + Seq::<Seq<u8>>::empty() =~= kept.deep_view());
            assert(rejects.deep_view() + Seq::<Seq<u8>>::empty() =~= rejects.deep_view());
            assert(kept.deep_view() == alpha_tokens(tokens(codes)));
            assert(rejects.deep_view() == rejected_tokens(tokens(codes)));
        }

        proof {
            assert forall|t: int| 0 <= t < kept.deep_view().len() implies all_alpha(
                #[trigger] kept.deep_view()[t],
            ) && kept.deep_view()[t].len() > 0 by {
                assert(kept.deep_view()[t] =~= kept@[t]@);
            }
        }
        let ghost kept_pre = kept.deep_view();
        sort_words(&mut kept);
        proof {
            assert forall|i: int| 0 <= i < kept@.len() implies all_alpha((#[trigger] kept@[i])@)
                && kept@[i]@.len() > 0 by {
                assert(kept_pre.contains(kept.deep_view()[i]));
                assert(kept.deep_view()[i] =~= kept@[i]@);
            }
        }

        // drop equal neighbours: the surviving words are strictly increasing
        let mut unique: Vec<Vec<u8>> = Vec::new();
        let mut c: usize = 0;
        while c < kept.len()
            invariant
                c <= kept@.len(),
                forall|i: int, j: int|
                    0 <= i < j < kept@.len() ==> lex_le((#[trigger] kept@[i])@, (#[trigger] kept@[j])@),
                forall|t: int| 0 <= t < kept@.len() ==> all_alpha((#[trigger] kept@[t])@),
                forall|t: int| 0 <= t < kept@.len() ==> (#[trigger] kept@[t])@.len() > 0,
                forall|i: int| 0 <= i < unique@.len() ==> kept.deep_view().contains(
                    #[trigger] unique.deep_view()[i],
                ),
                forall|k: int| 0 <= k < c as int ==> unique.deep_view().contains(
                    #[trigger] kept.deep_view()[k],
                ),
                forall|i: int, j: int|
                    0 <= i < j < unique@.len() ==> lex_lt(
                        (#[trigger] unique@[i])@,
                        (#[trigger] unique@[j])@,
                    ),
                forall|t: int| 0 <= t < unique@.len() ==> all_alpha((#[trigger] unique@[t])@),
                forall|t: int| 0 <= t < unique@.len() ==> (#[trigger] unique@[t])@.len() > 0,
                unique@.len() <= c,
                c > 0 ==> unique@.len() > 0,
                c > 0 ==> unique@.last()@ == kept@[c - 1]@,
            decreases kept@.len() - c,
        {
            proof {
                assert(kept.deep_view()[c as int] =~= kept@[c as int]@);
            }
            let mut same = false;
            if unique.len() > 0 {
                let last_idx = unique.len() - 1;
                let le1 = lex_leq(&kept[c], &unique[last_idx]);
                let le2 = lex_leq(&unique[last_idx], &kept[c]);
                if le1 && le2 {
                    same = true;
                    proof {
                        lemma_lex_le_antisymmetric(kept@[c as int]@, unique@[last_idx as int]@);
                        assert(unique.deep_view()[last_idx as int] =~= unique@[last_idx as int]@);
                        assert(unique.deep_view()[last_idx as int] == kept.deep_view()[c as int]);
                        assert(unique.deep_view().contains(kept.deep_view()[c as int]));
                    }
                } else {
                    proof {
                        // sorted input puts the newcomer at or above the last
                        // kept word, and the failed equality makes it strictly
                        // above
                        assert(c > 0);
                        assert(lex_le(kept@[c - 1]@, kept@[c as int]@));
                        assert(lex_le(unique@[last_idx as int]@, kept@[c as int]@));
                        if unique@[last_idx as int]@ == kept@[c as int]@ {
                            lemma_lex_le_refl(kept@[c as int]@);
                        }
                        assert(lex_lt(unique@[last_idx as int]@, kept@[c as int]@));
                    }
                }
            }
            if !same {
                let ghost ud = unique.deep_view();
                let ghost uv = unique@;
                let w = kept[c].clone();
                proof {
                    assert(w@ =~= kept@[c as int]@);
                }
                unique.push(w);
                proof {
                    assert(unique.deep_view() =~~= ud.push(kept.deep_view()[c as int]));
                    assert(unique.deep_view().last() == kept.deep_view()[c as int]);
                    assert(unique.deep_view().contains(kept.deep_view()[c as int]));
                    assert forall|k: int| 0 <= k < c as int implies unique.deep_view().contains(
                        #[trigger] kept.deep_view()[k],
                    ) by {
                        let idx = choose|idx: int|
                            0 <= idx < ud.len() && ud[idx] == kept.deep_view()[k];
                        assert(unique.deep_view()[idx] == kept.deep_view()[k]);
                    }
                    assert forall|i: int| 0 <= i < unique@.len() implies kept.deep_view().contains(
                        #[trigger] unique.deep_view()[i],
                    ) by {
                        if i < ud.len() {
                            assert(unique.deep_view()[i] == ud[i]);
                        }
                    }
                    assert forall|i: int, j: int|
                        0 <= i < j < unique@.len() implies lex_lt(
                        (#[trigger] unique@[i])@,
                        (#[trigger] unique@[j])@,
                    ) by {
                        if j < uv.len() {
                            assert(unique@[i] == uv[i] && unique@[j] == uv[j]);
                        } else {
                            assert(unique@[j]@ == kept@[c as int]@);
                            if i < uv.len() - 1 {
                                lemma_lex_lt_trans(
                                    uv[i]@,
                                    uv[uv.len() - 1]@,
                                    kept@[c as int]@,
                                );
                                assert(unique@[i] == uv[i]);
                            } else {
                                assert(unique@[i] == uv[uv.len() - 1]);
                            }
                        }
                    }
                }
            }
            c += 1;
        }
        proof {
            assert forall|e: Seq<u8>| #[trigger] unique.deep_view().contains(e)
                <==> kept.deep_view().contains(e) by {
                if unique.deep_view().contains(e) {
                    let i = choose|i: int|
                        0 <= i < unique.deep_view().len() && unique.deep_view()[i] == e;
                    assert(kept.deep_view().contains(unique.deep_view()[i]));
                }
                if kept.deep_view().contains(e) {
                    let k = choose|k: int|
                        0 <= k < kept.deep_view().len() && kept.deep_view()[k] == e;
                    assert(unique.deep_view().contains(kept.deep_view()[k]));
                }
            }
            assert forall|e: Seq<u8>| #[trigger] kept.deep_view().contains(e) <==> alpha_tokens(
                tokens(codes),
            ).contains(e) by {
                kept.deep_view().to_multiset_ensures();
                kept_pre.to_multiset_ensures();
                if kept.deep_view().contains(e) {
                    assert(kept.deep_view().to_multiset().count(e) > 0);
                    assert(kept_pre.to_multiset().count(e) > 0);
                    assert(kept_pre.contains(e));
                }
                if alpha_tokens(tokens(codes)).contains(e) {
                    assert(kept_pre.to_multiset().count(e) > 0);
                    assert(kept.deep_view().to_multiset().count(e) > 0);
                    assert(kept.deep_view().contains(e));
                }
            }
        }

        let words = word_vecs_to_strings(&unique);
        proof {
            assert(words_codes_seq(words@) =~= unique.deep_view());
            assert forall|i: int| 0 <= i < words@.len() implies (#[trigger] words@[i])@.len()
                > 0 by {
                assert(words@[i]@.len() == unique@[i]@.len());
            }
            assert forall|i: int| 0 <= i < words@.len() implies forall|k: int|
                0 <= k < (#[trigger] words@[i])@.len() ==> crate::utils::valid_char(
                    #[trigger] words@[i]@[k],
                ) by {
                assert forall|k: int| 0 <= k < words@[i]@.len() implies crate::utils::valid_char(
                    #[trigger] words@[i]@[k],
                ) by {
                    assert(is_lower_alpha(unique@[i]@[k]));
                    assert(words@[i]@[k] == unique@[i]@[k] as char);
                    assert(97 <= unique@[i]@[k] <= 122);
                    assert('a' as int == 97 && 'z' as int == 122);
                }
            }
            assert forall|i: int, j: int| 0 <= i < j < words@.len() implies lex_lt(
                word_codes((#[trigger] words@[i])@),
                word_codes((#[trigger] words@[j])@),
            ) by {
                assert(word_codes(words@[i]@) =~= unique@[i]@);
                assert(word_codes(words@[j]@) =~= unique@[j]@);
            }
            assert forall|e: Seq<u8>| #[trigger] words_codes_seq(words@).contains(e)
                <==> alpha_tokens(tokens(codes)).contains(e) by {
                assert(words_codes_seq(words@) == unique.deep_view());
            }
            assert(words_codes_seq(words@).to_set() =~= alpha_tokens(tokens(codes)).to_set());
        }
        (Dictionary { words }, rejects)
    }

    /// Build a dictionary from a whitespace-separated text blob, dropping
    /// non-alphabetic tokens silently.
    pub fn from_string(source: &str) -> (r: Self)
        ensures
            forall|i: int, j: int|
                0 <= i < j < r.words@.len() ==> lex_lt(
                    word_codes((#[trigger] r.words@[i])@),
                    word_codes((#[trigger] r.words@[j])@),
                ),
            words_codes_seq(r.words@).to_set() == alpha_tokens(
                tokens(source_codes(source)),
            ).to_set(),
            forall|i: int| 0 <= i < r.words@.len() ==> (#[trigger] r.words@[i])@.len() > 0,
            forall|i: int| 0 <= i < r.words@.len() ==> forall|k: int|
                0 <= k < (#[trigger] r.words@[i])@.len() ==> crate::utils::valid_char(
                    #[trigger] r.words@[i]@[k],
                ),
    {
        let (dict, _rejected) = Self::from_string_with_rejects(source);
        dict
    }
}

/// ASCII whitespace test on a byte.
fn is_ws(b: u8) -> (r: bool)
    ensures
        r == is_ws_byte(b),
{
    b == 32 || b == 9 || b == 10 || b == 12 || b == 13
}

/// Convert byte words into strings, one character per byte.
fn word_vecs_to_strings(words: &Vec<Vec<u8>>) -> (r: Vec<String>)
    requires
        forall|i: int| 0 <= i < words@.len() ==> forall|k: int|
            0 <= k < (#[trigger] words@[i])@.len() ==> #[trigger] words@[i]@[k] < 128,
    ensures
        r@.len() == words@.len(),
        forall|i: int| 0 <= i < words@.len() ==> word_codes((#[trigger] r@[i])@)
            == words.deep_view()[i],
        forall|i: int| 0 <= i < words@.len() ==> (#[trigger] r@[i])@.len() == words@[i]@.len(),
        forall|i: int| 0 <= i < words@.len() ==> forall|k: int|
            0 <= k < (#[trigger] r@[i])@.len() ==> #[trigger] r@[i]@[k] == words@[i]@[k] as char,
{
    let mut out: Vec<String> = Vec::new();
    let mut i: usize = 0;
    while i < words.len()
        invariant
            i <= words@.len(),
            forall|t: int| 0 <= t < words@.len() ==> forall|k: int|
                0 <= k < (#[trigger] words@[t])@.len() ==> #[trigger] words@[t]@[k] < 128,
            out@.len() == i as int,
            forall|t: int| 0 <= t < i as int ==> word_codes((#[trigger] out@[t])@)
                == words.deep_view()[t],
            forall|t: int| 0 <= t < i as int ==> (#[trigger] out@[t])@.len() == words@[t]@.len(),
            forall|t: int| 0 <= t < i as int ==> forall|k: int|
                0 <= k < (#[trigger] out@[t])@.len() ==> #[trigger] out@[t]@[k] == words@[t]@[k]
                    as char,
        decreases words@.len() - i,
    {
        let w = words[i].clone();
        proof {
            assert(w@ =~= words@[i as int]@);
        }
        let s = crate::utils::string_from_ascii(w);
        proof {
            assert(word_codes(s@) =~= words.deep_view()[i as int]);
        }
        out.push(s);
        i += 1;
    }
    out
}

/// A filtered singleton-plus-rest splits into the filtered head and the
/// filtered rest, for both the kept and the rejected side.
proof fn lemma_filter_one(t: Seq<u8>, rest: Seq<Seq<u8>>)
    ensures
        alpha_tokens(seq![t] + rest) == (if all_alpha(t) {
            seq![t]
        } else {
            Seq::<Seq<u8>>::empty()
        }) + alpha_tokens(rest),
        rejected_tokens(seq![t] + rest) == (if all_alpha(t) {
            Seq::<Seq<u8>>::empty()
        } else {
            seq![t]
        }) + rejected_tokens(rest),
{
    broadcast use Seq::filter_distributes_over_add;

    reveal_with_fuel(Seq::<Seq<u8>>::filter, 3);
    assert(seq![t].drop_last() =~= Seq::<Seq<u8>>::empty());
    assert(alpha_tokens(seq![t] + rest) =~= alpha_tokens(seq![t]) + alpha_tokens(rest));
    assert(rejected_tokens(seq![t] + rest) =~= rejected_tokens(seq![t]) + rejected_tokens(rest));
    if all_alpha(t) {
        assert(alpha_tokens(seq![t]) =~= seq![t]);
        assert(rejected_tokens(seq![t]) =~= Seq::<Seq<u8>>::empty());
        assert((if all_alpha(t) {
            seq![t]
        } else {
            Seq::<Seq<u8>>::empty()
        }) + alpha_tokens(rest) =~= alpha_tokens(seq![t] + rest));
        assert((if all_alpha(t) {
            Seq::<Seq<u8>>::empty()
        } else {
            seq![t]
        }) + rejected_tokens(rest) =~= rejected_tokens(seq![t] + rest));
    } else {
        assert(alpha_tokens(seq![t]) =~= Seq::<Seq<u8>>::empty());
        assert(rejected_tokens(seq![t]) =~= seq![t]);
        assert((if all_alpha(t) {
            seq![t]
        } else {
            Seq::<Seq<u8>>::empty()
        }) + alpha_tokens(rest) =~= alpha_tokens(seq![t] + rest));
        assert((if all_alpha(t) {
            Seq::<Seq<u8>>::empty()
        } else {
            seq![t]
        }) + rejected_tokens(rest) =~= rejected_tokens(seq![t] + rest));
    }
}

/// Filtering nothing yields nothing.
proof fn lemma_filter_empty()
    ensures
        alpha_tokens(Seq::<Seq<u8>>::empty()) == Seq::<Seq<u8>>::empty(),
        rejected_tokens(Seq::<Seq<u8>>::empty()) == Seq::<Seq<u8>>::empty(),
{
    reveal_with_fuel(Seq::<Seq<u8>>::filter, 2);
}

/// Every kept token is entirely alphabetic.
proof fn lemma_alpha_token_shape(ts: Seq<Seq<u8>>, w: int)
    requires
        0 <= w < alpha_tokens(ts).len(),
    ensures
        all_alpha(alpha_tokens(ts)[w]),
{
    broadcast use Seq::lemma_filter_pred;

}

} // verus!
