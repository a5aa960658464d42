//! Key scheduling: which key symbol shifts each output position.
//!
//! A schedule maps the output index, the key length and the plaintext
//! length to either a key index or a random-injection slot. Schedules are
//! deterministic and not key-based, per the cipher model.

use vstd::prelude::*;

verus! {

use crate::rng::{stepped, stepped_n, FromRng, Rng};

/// The key choice at one output position: shift by the key symbol at an
/// index, or emit a random symbol consuming no plaintext.
#[derive(Debug, Copy, Clone, Eq, PartialEq, Structural)]
pub enum NextKey {
    /// Shift the next plaintext symbol by the key symbol at this index.
    KeyIndex(usize),
    /// Emit a random symbol; no plaintext symbol is consumed.
    Rand,
}

impl NextKey {
    /// The key index held. The random-slot variant holds no index and is
    /// excluded by contract.
    pub fn index_or_panic(&self) -> (r: usize)
        requires
            self is KeyIndex,
        ensures
            r == self->KeyIndex_0,
    {
        match self {
            NextKey::KeyIndex(i) => *i,
            NextKey::Rand => {
                proof {
                    assert(false);
                }
                0
            },
        }
    }
}

/// Inputs every schedule accepts: a non-empty key and sizes small enough
/// that the index arithmetic stays exact.
pub open spec fn sched_sizes_ok(index: int, key_length: int, plaintext_length: int) -> bool {
    &&& 1 <= key_length <= 0x1000_0000
    &&& 0 <= index <= 0x1000_0000
    &&& 0 <= plaintext_length <= 0x1000_0000
}

/// A key-scheduling algorithm.
pub trait KeySchedule: Sized {
    /// Inputs this schedule is defined on.
    spec fn sched_req(self, index: int, key_length: int, plaintext_length: int) -> bool;

    /// The choice this schedule makes at an output position.
    spec fn spec_schedule(self, index: int, key_length: int, plaintext_length: int) -> NextKey;

    /// Returns the key choice for ciphertext position `index` given the
    /// key length and the plaintext length.
    fn schedule(&self, index: usize, key_length: usize, plaintext_length: usize) -> (r: NextKey)
        requires
            self.sched_req(index as int, key_length as int, plaintext_length as int),
        ensures
            r == self.spec_schedule(index as int, key_length as int, plaintext_length as int),
    ;
}

/// Cycles through the key from start to finish, forever.
#[derive(Debug, Clone, Copy)]
pub struct RepeatingKey;

impl KeySchedule for RepeatingKey {
    open spec fn sched_req(self, index: int, key_length: int, plaintext_length: int) -> bool {
        sched_sizes_ok(index, key_length, plaintext_length)
    }

    open spec fn spec_schedule(self, index: int, key_length: int, plaintext_length: int) -> NextKey {
        NextKey::KeyIndex((index % key_length) as usize)
    }

    fn schedule(&self, index: usize, key_length: usize, _plaintext_length: usize) -> (r: NextKey) {
        NextKey::KeyIndex(index % key_length)
    }
}

/// Indexes by the plaintext length: a function of all three schedule
/// inputs, mixing in the text size.
#[derive(Debug, Clone, Copy)]
pub struct LengthMod;

impl KeySchedule for LengthMod {
    open spec fn sched_req(self, index: int, key_length: int, plaintext_length: int) -> bool {
        sched_sizes_ok(index, key_length, plaintext_length)
    }

    open spec fn spec_schedule(self, index: int, key_length: int, plaintext_length: int) -> NextKey {
        if plaintext_length < index * key_length {
            NextKey::KeyIndex((plaintext_length % key_length) as usize)
        } else {
            NextKey::KeyIndex(((plaintext_length * index) % key_length) as usize)
        }
    }

    fn schedule(&self, index: usize, key_length: usize, plaintext_length: usize) -> (r: NextKey) {
        let idx = index as u64;
        let kl = key_length as u64;
        let ptl = plaintext_length as u64;
        proof {
            assert(idx as int * kl as int <= 0x1000_0000 * 0x1000_0000 && ptl as int * idx as int
                <= 0x1000_0000 * 0x1000_0000) by (nonlinear_arith)
                requires
                    0 <= idx <= 0x1000_0000,
                    0 <= kl <= 0x1000_0000,
                    0 <= ptl <= 0x1000_0000,
            ;
        }
        let next: u64 = if ptl < idx * kl {
            ptl % kl
        } else {
            (ptl * idx) % kl
        };
        NextKey::KeyIndex(next as usize)
    }
}

/// Repeats a block of the key a few times before running through the
/// whole key, to confuse keylength guessing.
#[derive(Debug, Clone, Copy)]
pub struct Aab {
    /// Number of characters in the repeated block.
    pub num_chars: usize,
    /// Number of extra repetitions of the block.
    pub num_reps: usize,
    /// Offset into the key where the repetition starts.
    pub offset: usize,
}

impl KeySchedule for Aab {
    open spec fn sched_req(self, index: int, key_length: int, plaintext_length: int) -> bool {
        &&& sched_sizes_ok(index, key_length, plaintext_length)
        &&& self.num_reps <= 0x1000_0000
        &&& self.num_chars <= 0x1000_0000
        &&& self.offset <= 0x1000_0000
    }

    open spec fn spec_schedule(self, index: int, key_length: int, plaintext_length: int) -> NextKey {
        let offset = (self.offset as int) % key_length;
        let clamped = if 1 > (self.num_chars as int) % key_length {
            1int
        } else {
            (self.num_chars as int) % key_length
        };
        let num_chars = if clamped < key_length - offset {
            clamped
        } else {
            key_length - offset
        };
        let eff = key_length + num_chars * (self.num_reps as int);
        let i = index % eff;
        if i < offset {
            NextKey::KeyIndex(i as usize)
        } else if i < offset + ((self.num_reps as int) + 1) * num_chars {
            NextKey::KeyIndex(((i - offset) % num_chars + offset) as usize)
        } else {
            NextKey::KeyIndex((i - num_chars * (self.num_reps as int)) as usize)
        }
    }

    fn schedule(&self, index: usize, key_length: usize, _plaintext_length: usize) -> (r: NextKey) {
        let idx = index as u64;
        let kl = key_length as u64;
        let reps = self.num_reps as u64;

        let offset = (self.offset as u64) % kl;
        let mc = (self.num_chars as u64) % kl;
        let clamped = if 1 > mc {
            1
        } else {
            mc
        };
        let num_chars = if clamped < kl - offset {
            clamped
        } else {
            kl - offset
        };
        proof {
            assert(num_chars * reps <= 0x1000_0000 * 0x1000_0000) by (nonlinear_arith)
                requires
                    0 <= num_chars <= 0x1000_0000,
                    0 <= reps <= 0x1000_0000,
            ;
            assert((reps + 1) * num_chars <= (0x1000_0000 + 1) * 0x1000_0000 && (reps as int + 1)
                * num_chars as int == reps as int * num_chars as int + num_chars as int
                && num_chars as int * reps as int == reps as int * num_chars as int)
                by (nonlinear_arith)
                requires
                    0 <= num_chars <= 0x1000_0000,
                    0 <= reps <= 0x1000_0000,
            ;
        }
        let eff = kl + num_chars * reps;
        let i = idx % eff;
        let next: u64 = if i < offset {
            i
        } else if i < offset + (reps + 1) * num_chars {
            (i - offset) % num_chars + offset
        } else {
            i - num_chars * reps
        };
        proof {
            let ghost eff_i = (key_length as int) + (num_chars as int) * (self.num_reps as int);
            assert(num_chars as int * reps as int == num_chars as int * self.num_reps as int);
            assert((reps as int + 1) * num_chars as int == (self.num_reps as int + 1)
                * num_chars as int);
            assert(next < kl) by {
                if i < offset {
                } else if i < offset + (reps + 1) * num_chars {
                    assert((i - offset) % (num_chars as int) < num_chars);
                    assert(num_chars + offset <= kl);
                } else {
                    assert(i < eff);
                    assert(eff == kl + num_chars * reps);
                }
            }
        }
        NextKey::KeyIndex(next as usize)
    }
}

/// Reverses the first `offset` key symbols, then continues with the key
/// in order, giving a longer effective period.
#[derive(Debug, Clone, Copy)]
pub struct OffsetReverse {
    /// How many key symbols are replayed in reverse first.
    pub offset: usize,
}

impl KeySchedule for OffsetReverse {
    open spec fn sched_req(self, index: int, key_length: int, plaintext_length: int) -> bool {
        &&& sched_sizes_ok(index, key_length, plaintext_length)
        &&& self.offset <= 0x1000_0000
    }

    open spec fn spec_schedule(self, index: int, key_length: int, plaintext_length: int) -> NextKey {
        let offset = (self.offset as int) % (key_length + 1);
        let eff = key_length + offset;
        let i = index % eff;
        if i < offset {
            NextKey::KeyIndex((eff - i - offset - 1) as usize)
        } else {
            NextKey::KeyIndex((i - offset) as usize)
        }
    }

    fn schedule(&self, index: usize, key_length: usize, _plaintext_length: usize) -> (r: NextKey) {
        let offset = self.offset % (key_length + 1);
        let eff = key_length + offset;
        let i = index % eff;
        if i < offset {
            NextKey::KeyIndex(eff - i - offset - 1)
        } else {
            NextKey::KeyIndex(i - offset)
        }
    }
}

/// Replays the key backwards up to an offset, then the whole key in
/// order, with the turning point folded into the effective period.
#[derive(Debug, Clone, Copy)]
pub struct InvertZip {
    /// How many key symbols are replayed in reverse first.
    pub offset: usize,
}

impl KeySchedule for InvertZip {
    open spec fn sched_req(self, index: int, key_length: int, plaintext_length: int) -> bool {
        &&& sched_sizes_ok(index, key_length, plaintext_length)
        &&& self.offset <= key_length
    }

    open spec fn spec_schedule(self, index: int, key_length: int, plaintext_length: int) -> NextKey {
        let eff = key_length + (self.offset as int);
        let i = index % eff;
        if i < self.offset {
            NextKey::KeyIndex((key_length - 1 - i) as usize)
        } else {
            NextKey::KeyIndex((i - (self.offset as int)) as usize)
        }
    }

    fn schedule(&self, index: usize, key_length: usize, _plaintext_length: usize) -> (r: NextKey) {
        let last_char = key_length - 1;
        let eff_key_length = key_length + self.offset;
        if index % eff_key_length < self.offset {
            NextKey::KeyIndex(last_char - index % eff_key_length)
        } else {
            NextKey::KeyIndex(index % eff_key_length - self.offset)
        }
    }
}

/// Overwrites or inserts a random symbol on a fixed period, composing
/// with any other schedule underneath; alone it composes with
/// [`RepeatingKey`].
#[derive(Debug, Copy, Clone)]
pub struct PeriodicRand {
    /// Number of positions between random symbols.
    pub period: usize,
    /// First position carrying a random symbol.
    pub start: usize,
    /// Replace the underlying choice rather than displacing it.
    pub overwrite: bool,
}

/// Whether position `index` is a random slot.
pub open spec fn spec_random_at(pr: PeriodicRand, index: int) -> bool {
    index >= pr.start && (index - pr.start) % (pr.period as int) == 0
}

/// How many insertions have happened at or before `index`.
pub open spec fn spec_insertions_done(pr: PeriodicRand, index: int) -> int {
    let base = if index >= pr.start {
        (index - pr.start) / (pr.period as int)
    } else {
        0
    };
    if index > pr.start {
        base + 1
    } else {
        base
    }
}

impl PeriodicRand {
    /// Test whether the given position is a random slot.
    fn random_at(&self, index: usize) -> (r: bool)
        requires
            self.period >= 1,
        ensures
            r == spec_random_at(*self, index as int),
    {
        index >= self.start && (index - self.start) % self.period == 0
    }

    /// How many random symbols were inserted at or before the position.
    fn insertions_done(&self, index: usize) -> (r: usize)
        requires
            self.period >= 1,
            index <= 0x1000_0000,
        ensures
            r == spec_insertions_done(*self, index as int),
    {
        let mut num_insertions = index.saturating_sub(self.start) / self.period;
        proof {
            if index >= self.start {
                vstd::arithmetic::div_mod::lemma_div_is_ordered(
                    index as int - self.start as int,
                    index as int,
                    self.period as int,
                );
                vstd::arithmetic::div_mod::lemma_div_is_ordered_by_denominator(
                    index as int,
                    1,
                    self.period as int,
                );
                vstd::arithmetic::div_mod::lemma_div_basics(index as int);
            }
        }
        if index > self.start {
            num_insertions += 1;
        }
        num_insertions
    }
}

impl KeySchedule for PeriodicRand {
    open spec fn sched_req(self, index: int, key_length: int, plaintext_length: int) -> bool {
        (&self, &RepeatingKey).sched_req(index, key_length, plaintext_length)
    }

    open spec fn spec_schedule(self, index: int, key_length: int, plaintext_length: int) -> NextKey {
        (&self, &RepeatingKey).spec_schedule(index, key_length, plaintext_length)
    }

    fn schedule(&self, index: usize, key_length: usize, plaintext_length: usize) -> (r: NextKey) {
        let rk = RepeatingKey;
        (self, &rk).schedule(index, key_length, plaintext_length)
    }
}

impl<'a, 'b, K: KeySchedule> KeySchedule for (&'a PeriodicRand, &'b K) {
    open spec fn sched_req(self, index: int, key_length: int, plaintext_length: int) -> bool {
        &&& sched_sizes_ok(index, key_length, plaintext_length)
        &&& self.0.period >= 1
        &&& self.0.start <= 0x1000_0000
        &&& (!spec_random_at(*self.0, index) ==> spec_insertions_done(*self.0, index) <= index)
        &&& (!spec_random_at(*self.0, index) ==> self.1.sched_req(
            if self.0.overwrite {
                index
            } else {
                index - spec_insertions_done(*self.0, index)
            },
            key_length,
            plaintext_length,
        ))
    }

    open spec fn spec_schedule(self, index: int, key_length: int, plaintext_length: int) -> NextKey {
        if spec_random_at(*self.0, index) {
            NextKey::Rand
        } else {
            let adjusted = if self.0.overwrite {
                index
            } else {
                index - spec_insertions_done(*self.0, index)
            };
            self.1.spec_schedule(adjusted, key_length, plaintext_length)
        }
    }

    fn schedule(&self, index: usize, key_length: usize, plaintext_length: usize) -> (r: NextKey) {
        let prand = self.0;
        let other = self.1;

        if prand.random_at(index) {
            return NextKey::Rand;
        }

        let mut index = index;
        if !prand.overwrite {
            index -= prand.insertions_done(index);
        }

        other.schedule(index, key_length, plaintext_length)
    }
}

/// One of the base (injection-free) schedules, drawn at random for the
/// evaluation harness.
#[derive(Debug, Clone, Copy)]
pub enum RandomBaseScheduler {
    /// A block-repeating schedule.
    Aab(Aab),
    /// A plaintext-length-driven schedule.
    LengthMod(LengthMod),
    /// A reverse-then-forward schedule.
    OffsetReverse(OffsetReverse),
    /// The plain cycling schedule.
    RepeatingKey(RepeatingKey),
}

impl KeySchedule for RandomBaseScheduler {
    open spec fn sched_req(self, index: int, key_length: int, plaintext_length: int) -> bool {
        match self {
            RandomBaseScheduler::Aab(s) => s.sched_req(index, key_length, plaintext_length),
            RandomBaseScheduler::LengthMod(s) => s.sched_req(index, key_length, plaintext_length),
            RandomBaseScheduler::OffsetReverse(s) => s.sched_req(
                index,
                key_length,
                plaintext_length,
            ),
            RandomBaseScheduler::RepeatingKey(s) => s.sched_req(
                index,
                key_length,
                plaintext_length,
            ),
        }
    }

    open spec fn spec_schedule(self, index: int, key_length: int, plaintext_length: int) -> NextKey {
        match self {
            RandomBaseScheduler::Aab(s) => s.spec_schedule(index, key_length, plaintext_length),
            RandomBaseScheduler::LengthMod(s) => s.spec_schedule(
                index,
                key_length,
                plaintext_length,
            ),
            RandomBaseScheduler::OffsetReverse(s) => s.spec_schedule(
                index,
                key_length,
                plaintext_length,
            ),
            RandomBaseScheduler::RepeatingKey(s) => s.spec_schedule(
                index,
                key_length,
                plaintext_length,
            ),
        }
    }

    fn schedule(&self, index: usize, key_length: usize, plaintext_length: usize) -> (r: NextKey) {
        match self {
            RandomBaseScheduler::Aab(s) => s.schedule(index, key_length, plaintext_length),
            RandomBaseScheduler::LengthMod(s) => s.schedule(index, key_length, plaintext_length),
            RandomBaseScheduler::OffsetReverse(s) => s.schedule(
                index,
                key_length,
                plaintext_length,
            ),
            RandomBaseScheduler::RepeatingKey(s) => s.schedule(index, key_length, plaintext_length),
        }
    }
}

/// A base schedule wrapped in zero to three random-injection layers.
#[derive(Debug, Clone, Copy)]
pub enum RandomScheduler {
    /// No injection layer.
    Zero(RandomBaseScheduler),
    /// One injection layer.
    One(RandomBaseScheduler, PeriodicRand),
    /// Two injection layers.
    Two(RandomBaseScheduler, PeriodicRand, PeriodicRand),
    /// Three injection layers.
    Three(RandomBaseScheduler, PeriodicRand, PeriodicRand, PeriodicRand),
}

impl KeySchedule for RandomScheduler {
    open spec fn sched_req(self, index: int, key_length: int, plaintext_length: int) -> bool {
        match self {
            RandomScheduler::Zero(s) => s.sched_req(index, key_length, plaintext_length),
            RandomScheduler::One(s, a) => (&a, &s).sched_req(index, key_length, plaintext_length),
            RandomScheduler::Two(s, a, b) => (&a, &(&b, &s)).sched_req(
                index,
                key_length,
                plaintext_length,
            ),
            RandomScheduler::Three(s, a, b, c) => (&a, &(&b, &(&c, &s))).sched_req(
                index,
                key_length,
                plaintext_length,
            ),
        }
    }

    open spec fn spec_schedule(self, index: int, key_length: int, plaintext_length: int) -> NextKey {
        match self {
            RandomScheduler::Zero(s) => s.spec_schedule(index, key_length, plaintext_length),
            RandomScheduler::One(s, a) => (&a, &s).spec_schedule(
                index,
                key_length,
                plaintext_length,
            ),
            RandomScheduler::Two(s, a, b) => (&a, &(&b, &s)).spec_schedule(
                index,
                key_length,
                plaintext_length,
            ),
            RandomScheduler::Three(s, a, b, c) => (&a, &(&b, &(&c, &s))).spec_schedule(
                index,
                key_length,
                plaintext_length,
            ),
        }
    }

    fn schedule(&self, index: usize, key_length: usize, plaintext_length: usize) -> (r: NextKey) {
        match self {
            RandomScheduler::Zero(s) => s.schedule(index, key_length, plaintext_length),
            RandomScheduler::One(s, a) => (a, s).schedule(index, key_length, plaintext_length),
            RandomScheduler::Two(s, a, b) => (a, &(b, s)).schedule(
                index,
                key_length,
                plaintext_length,
            ),
            RandomScheduler::Three(s, a, b, c) => (a, &(b, &(c, s))).schedule(
                index,
                key_length,
                plaintext_length,
            ),
        }
    }
}

impl FromRng for Aab {
    /// The three fields come from three consecutive draws.
    open spec fn from_rng_post(s: Rng, r: Self, left: Rng) -> bool {
        &&& r.num_chars == (s.x as usize) % 32
        &&& r.num_reps == (stepped(s).x as usize) % 8
        &&& r.offset == (stepped_n(s, 2).x as usize) % 8
        &&& left == stepped_n(s, 3)
    }

    fn from_rng(rng: &mut Rng) -> (r: Self) {
        let ghost s0 = *rng;
        let a = rng.next();
        let b = rng.next();
        let c = rng.next();
        proof {
            crate::rng::lemma_stepped_n_unfold(s0, 1);
            crate::rng::lemma_stepped_n_unfold(s0, 2);
            crate::rng::lemma_stepped_n_unfold(s0, 3);
        }
        #[verifier::truncate]
        let na = a as usize;
        #[verifier::truncate]
        let nb = b as usize;
        #[verifier::truncate]
        let nc = c as usize;
        Self { num_chars: na % 32, num_reps: nb % 8, offset: nc % 8 }
    }
}

impl FromRng for OffsetReverse {
    /// The offset comes from one draw.
    open spec fn from_rng_post(s: Rng, r: Self, left: Rng) -> bool {
        &&& r.offset == (s.x as usize) % 17
        &&& left == stepped(s)
    }

    fn from_rng(rng: &mut Rng) -> (r: Self) {
        let a = rng.next();
        #[verifier::truncate]
        let na = a as usize;
        Self { offset: na % 17 }
    }
}

impl FromRng for PeriodicRand {
    /// Period, start and overwrite come from three consecutive draws; the
    /// period stays at least 32 so plaintext remains recoverable.
    open spec fn from_rng_post(s: Rng, r: Self, left: Rng) -> bool {
        &&& r.period == 32 + (s.x as usize) % 32
        &&& r.start == (stepped(s).x as usize) % 32
        &&& r.overwrite == (stepped_n(s, 2).x & 1 == 0)
        &&& left == stepped_n(s, 3)
    }

    fn from_rng(rng: &mut Rng) -> (r: Self) {
        let ghost s0 = *rng;
        let a = rng.next();
        let b = rng.next();
        let c = rng.next();
        proof {
            crate::rng::lemma_stepped_n_unfold(s0, 1);
            crate::rng::lemma_stepped_n_unfold(s0, 2);
            crate::rng::lemma_stepped_n_unfold(s0, 3);
        }
        #[verifier::truncate]
        let na = a as usize;
        #[verifier::truncate]
        let nb = b as usize;
        Self { period: 32 + na % 32, start: nb % 32, overwrite: c & 1 == 0 }
    }
}

impl FromRng for RandomBaseScheduler {
    /// One draw picks the variant; the variant then draws its own fields.
    open spec fn from_rng_post(s: Rng, r: Self, left: Rng) -> bool {
        let pick = (s.x as usize) as int % 4;
        let s1 = stepped(s);
        if pick == 0 {
            r is Aab && Aab::from_rng_post(s1, r->Aab_0, left)
        } else if pick == 1 {
            r is LengthMod && left == s1
        } else if pick == 2 {
            r is OffsetReverse && OffsetReverse::from_rng_post(s1, r->OffsetReverse_0, left)
        } else {
            r is RepeatingKey && left == s1
        }
    }

    fn from_rng(rng: &mut Rng) -> (r: Self) {
        let w = rng.next();
        #[verifier::truncate]
        let nw = w as usize;
        match nw % 4 {
            0 => Self::Aab(Aab::from_rng(rng)),
            1 => Self::LengthMod(LengthMod),
            2 => Self::OffsetReverse(OffsetReverse::from_rng(rng)),
            _ => Self::RepeatingKey(RepeatingKey),
        }
    }
}

impl FromRng for RandomScheduler {
    /// One draw is burned for the layer count, then a base schedule is
    /// drawn; the harness currently exercises the injection-free layer.
    open spec fn from_rng_post(s: Rng, r: Self, left: Rng) -> bool {
        r is Zero && RandomBaseScheduler::from_rng_post(stepped(s), r->Zero_0, left)
    }

    fn from_rng(rng: &mut Rng) -> (r: Self) {
        rng.next();
        Self::Zero(RandomBaseScheduler::from_rng(rng))
    }
}

} // verus!
