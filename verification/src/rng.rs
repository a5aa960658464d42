//! Deterministic pseudo-random number generation (RomuDuo).
//!
//! The generator is fast and deterministic, which is what the test and
//! plaintext-generation harnesses need; it makes no cryptographic claim.

use vstd::prelude::*;

verus! {

use vstd::wrapping::u64_specs;
use crate::utils::{reduced_key, Key};

/// The multiplier RomuDuo applies to the `y` state word.
pub const ROMU_MULTIPLIER: u64 = 15241094284759029579;

/// `v` rotated left by 36 bits.
pub open spec fn rotl36(v: u64) -> u64 {
    (v << 36u64) | (v >> 28u64)
}

/// `v` rotated left by 15 bits.
pub open spec fn rotl15(v: u64) -> u64 {
    (v << 15u64) | (v >> 49u64)
}

/// RomuDuo generator state.
#[derive(Clone, Copy, Debug)]
pub struct Rng {
    /// First state word; also the value the next call returns.
    pub x: u64,
    /// Second state word.
    pub y: u64,
}

/// The generator state after one step.
#[verifier::opaque]
pub open spec fn stepped(s: Rng) -> Rng {
    Rng {
        x: u64_specs::wrapping_mul(s.y, ROMU_MULTIPLIER),
        y: u64_specs::wrapping_sub(u64_specs::wrapping_add(rotl36(s.y), rotl15(s.y)), s.x),
    }
}

/// The generator state after `n` steps.
pub open spec fn stepped_n(s: Rng, n: nat) -> Rng
    decreases n,
{
    if n == 0 {
        s
    } else {
        stepped(stepped_n(s, (n - 1) as nat))
    }
}

/// One unfolding of [`stepped_n`] at a positive count.
pub proof fn lemma_stepped_n_unfold(s: Rng, n: nat)
    requires
        n > 0,
    ensures
        stepped_n(s, n) == stepped(stepped_n(s, (n - 1) as nat)),
{
}

impl Default for Rng {
    /// The fixed default seed.
    fn default() -> (r: Self)
        ensures
            r == (Rng { x: 0x54d3a3130133750b, y: 0x3e69b0ed931eb512 }),
    {
        Self { x: 0x54d3a3130133750b, y: 0x3e69b0ed931eb512 }
    }
}

impl Rng {
    /// Returns the next random `u64` and advances the generator state.
    pub fn next(&mut self) -> (r: u64)
        ensures
            r == old(self).x,
            *final(self) == stepped(*old(self)),
    {
        proof {
            reveal(stepped);
        }
        let xp = self.x;
        let y = self.y;
        self.x = y.wrapping_mul(ROMU_MULTIPLIER);
        let r36 = (y << 36) | (y >> 28);
        let r15 = (y << 15) | (y >> 49);
        self.y = r36.wrapping_add(r15).wrapping_sub(xp);
        xp
    }

    /// Initialize from two non-zero seed words, then warm the generator up
    /// with one hundred steps.
    pub fn with_seed(x: u64, y: u64) -> (r: Self)
        requires
            x != 0,
            y != 0,
        ensures
            r == stepped_n(Rng { x, y }, 100),
    {
        let mut rng = Self { x, y };
        let ghost init = rng;
        let mut i: usize = 0;
        while i < 100
            invariant
                i <= 100,
                rng == stepped_n(init, i as nat),
            decreases 100 - i,
        {
            rng.next();
            proof {
                lemma_stepped_n_unfold(init, (i + 1) as nat);
            }
            i += 1;
        }
        rng
    }

    /// Choose one item from a non-empty slice, advancing the state once.
    pub fn pick<'a, T>(&mut self, choices: &'a [T]) -> (r: &'a T)
        requires
            choices@.len() > 0,
        ensures
            *final(self) == stepped(*old(self)),
            *r == choices@[(old(self).x as usize) as int % choices@.len() as int],
    {
        let next = self.next();
        #[verifier::truncate]
        let wide = next as usize;
        let index = wide % choices.len();
        &choices[index]
    }
}

/// Types that can be drawn from a [`Rng`].
pub trait FromRng: Sized {
    /// Relates the generator state before the draw to the value drawn and
    /// the state left behind.
    spec fn from_rng_post(s: Rng, r: Self, left: Rng) -> bool;

    /// Draw a value, advancing the generator.
    fn from_rng(rng: &mut Rng) -> (r: Self)
        ensures
            Self::from_rng_post(*old(rng), r, *final(rng)),
    ;
}

impl FromRng for Rng {
    /// A child generator is seeded from six draws of the parent, and both
    /// are then spun for a thousand steps to let them diverge.
    open spec fn from_rng_post(s: Rng, r: Self, left: Rng) -> bool {
        &&& r == stepped_n(Rng { x: stepped_n(s, 5).x, y: s.x }, 1000)
        &&& left == stepped_n(s, 1006)
    }

    #[verifier::rlimit(60)]
    fn from_rng(rng: &mut Rng) -> (r: Self) {
        let ghost s0 = *rng;
        let y = rng.next();
        proof {
            assert(stepped_n(s0, 0) == s0);
            lemma_stepped_n_unfold(s0, 1);
        }
        let mut i: usize = 0;
        while i < 4
            invariant
                i <= 4,
                y == s0.x,
                *rng == stepped_n(s0, (i + 1) as nat),
            decreases 4 - i,
        {
            rng.next();
            proof {
                lemma_stepped_n_unfold(s0, (i + 2) as nat);
            }
            i += 1;
        }
        let x = rng.next();
        proof {
            lemma_stepped_n_unfold(s0, 6);
        }
        let mut newrng = Self { x, y };
        let ghost spun = newrng;
        let mut j: usize = 0;
        while j < 1000
            invariant
                j <= 1000,
                *rng == stepped_n(s0, (j + 6) as nat),
                newrng == stepped_n(spun, j as nat),
                spun == (Rng { x: stepped_n(s0, 5).x, y: s0.x }),
            decreases 1000 - j,
        {
            rng.next();
            newrng.next();
            proof {
                lemma_stepped_n_unfold(s0, (j + 7) as nat);
                lemma_stepped_n_unfold(spun, (j + 1) as nat);
            }
            j += 1;
        }
        newrng
    }
}

/// The raw (unreduced) key words drawn from state `s` for a key of length `n`.
pub open spec fn raw_key_words(s: Rng, n: nat) -> Seq<i8>
    decreases n,
{
    if n == 0 {
        Seq::empty()
    } else {
        raw_key_words(s, (n - 1) as nat).push(stepped_n(s, (n - 1) as nat).x as i8)
    }
}

/// The key contents drawn with `remaining` retry rounds left, and the
/// generator state left behind. A round draws a length in `[5, 24)`, fills
/// the key, and keeps it only if some reduced entry is non-zero; when no
/// round is left a fixed fallback key is used.
pub open spec fn spec_key_round(s: Rng, remaining: nat) -> (Seq<i8>, Rng)
    decreases remaining,
{
    if remaining == 0 {
        (seq![1i8, 2i8, 3i8, 4i8], s)
    } else {
        let keylen = ((s.x as usize) % 19 + 5) as nat;
        let s1 = stepped(s);
        let key = reduced_key(raw_key_words(s1, keylen));
        let s2 = stepped_n(s1, keylen);
        if exists|t: int| 0 <= t < key.len() && key[t] != 0i8 {
            (key, s2)
        } else {
            spec_key_round(s2, (remaining - 1) as nat)
        }
    }
}

impl FromRng for Key {
    open spec fn from_rng_post(s: Rng, r: Self, left: Rng) -> bool {
        (r@, left) == spec_key_round(s, 128)
    }

    #[verifier::rlimit(60)]
    fn from_rng(rng: &mut Rng) -> (r: Self) {
        let ghost s_start = *rng;
        let mut remaining: usize = 128;
        loop
            invariant
                remaining <= 128,
                spec_key_round(*old(rng), 128) == spec_key_round(*rng, remaining as nat),
            decreases remaining,
        {
            if remaining == 0 {
                let mut fallback: Vec<i8> = Vec::new();
                fallback.push(1);
                fallback.push(2);
                fallback.push(3);
                fallback.push(4);
                proof {
                    assert(fallback@ =~= seq![1i8, 2i8, 3i8, 4i8]);
                }
                return fallback;
            }
            let ghost s_round = *rng;

            let word = rng.next();
            #[verifier::truncate]
            let wide = word as usize;
            let keylen = wide % 19 + 5;
            let ghost s1 = *rng;
            let mut key: Vec<i8> = Vec::with_capacity(keylen);
            let mut i: usize = 0;
            while i < keylen
                invariant
                    i <= keylen,
                    *rng == stepped_n(s1, i as nat),
                    key@.len() == i as int,
                    key@ == raw_key_words(s1, i as nat),
                decreases keylen - i,
            {
                let w = rng.next();
                #[verifier::truncate]
                let v = w as i8;
                key.push(v);
                proof {
                    lemma_stepped_n_unfold(s1, (i + 1) as nat);
                }
                i += 1;
            }
            crate::utils::reduce_key(&mut key);

            let mut any_nonzero = false;
            let mut j: usize = 0;
            while j < key.len()
                invariant
                    j <= key@.len(),
                    key@ == reduced_key(raw_key_words(s1, keylen as nat)),
                    any_nonzero == exists|t: int| 0 <= t < j as int && key@[t] != 0i8,
                decreases key@.len() - j,
            {
                if key[j] != 0 {
                    any_nonzero = true;
                    proof {
                        assert(key@[j as int] != 0i8);
                    }
                }
                j += 1;
            }
            proof {
                assert(keylen as nat == ((s_round.x as usize) % 19 + 5) as nat);
                assert(s1 == stepped(s_round));
                assert(*rng == stepped_n(s1, keylen as nat));
                assert(key@ == reduced_key(raw_key_words(s1, keylen as nat)));
            }
            if any_nonzero {
                proof {
                    assert(spec_key_round(s_round, remaining as nat) == (key@, *rng));
                }
                return key;
            }
            proof {
                assert(spec_key_round(s_round, remaining as nat) == spec_key_round(
                    *rng,
                    (remaining - 1) as nat,
                ));
            }
            remaining -= 1;
        }
    }
}

impl<A: FromRng, B: FromRng> FromRng for (A, B) {
    /// The pair draws its first component, then its second.
    open spec fn from_rng_post(s: Rng, r: Self, left: Rng) -> bool {
        exists|mid: Rng|
            #![auto]
            A::from_rng_post(s, r.0, mid) && B::from_rng_post(mid, r.1, left)
    }

    fn from_rng(rng: &mut Rng) -> (r: Self) {
        let a = A::from_rng(rng);
        let ghost mid = *rng;
        let b = B::from_rng(rng);
        let r = (a, b);
        proof {
            assert(A::from_rng_post(*old(rng), r.0, mid) && B::from_rng_post(mid, r.1, *rng));
        }
        r
    }
}

} // verus!
