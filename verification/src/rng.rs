//! The injectable randomness source: a seedable generator that serves
//! in-place shuffles and counts how often it was consulted.

use vstd::prelude::*;

verus! {

#[verifier::external_type_specification]
#[verifier::external_body]
pub struct ExStdRng(rand::rngs::StdRng);

/// Relies on rand's `SeedableRng::seed_from_u64`: builds a generator whose
/// output is a deterministic function of the seed.
#[verifier::external_body]
fn std_rng_from_seed(seed: u64) -> rand::rngs::StdRng {
    <rand::rngs::StdRng as rand::SeedableRng>::seed_from_u64(seed)
}

/// Relies on rand's `SeedableRng::from_entropy`: builds a generator seeded
/// from the operating system's entropy source.
#[verifier::external_body]
fn std_rng_from_entropy() -> rand::rngs::StdRng {
    <rand::rngs::StdRng as rand::SeedableRng>::from_entropy()
}

/// Relies on rand's `SliceRandom::shuffle` (a Fisher-Yates shuffle built
/// from in-place swaps): the vector is permuted in place, so it keeps its
/// length and its elements as a multiset.
#[verifier::external_body]
fn std_rng_shuffle(rng: &mut rand::rngs::StdRng, v: &mut Vec<u8>)
    ensures
        final(v)@.len() == old(v)@.len(),
        final(v)@.to_multiset() == old(v)@.to_multiset(),
{
    rand::seq::SliceRandom::shuffle(v.as_mut_slice(), rng)
}

/// The source of digit and cell orderings for the solver and the generator.
/// `consulted` counts the shuffles served, so callers can state (and tests
/// can observe) that a run never asked for randomness.
pub struct DigitSource {
    inner: rand::rngs::StdRng,
    consulted: u64,
}

impl DigitSource {
    /// How many shuffles this source has served so far.
    pub closed spec fn consulted(&self) -> u64 {
        self.consulted
    }

    /// A deterministic source: the same seed replays the same orderings.
    pub fn from_seed(seed: u64) -> (r: DigitSource)
        ensures
            r.consulted() == 0,
    {
        DigitSource { inner: std_rng_from_seed(seed), consulted: 0 }
    }

    /// A fresh source seeded from the operating system.
    pub fn from_entropy() -> (r: DigitSource)
        ensures
            r.consulted() == 0,
    {
        DigitSource { inner: std_rng_from_entropy(), consulted: 0 }
    }

    /// The served-shuffle count, for callers outside the library.
    pub fn consulted_count(&self) -> (n: u64)
        ensures
            n == self.consulted(),
    {
        self.consulted
    }

    /// Permute `v` in place and count the consultation.
    pub fn shuffle(&mut self, v: &mut Vec<u8>)
        ensures
            final(v)@.len() == old(v)@.len(),
            final(v)@.to_multiset() == old(v)@.to_multiset(),
            final(self).consulted() == if old(self).consulted() < u64::MAX {
                old(self).consulted() + 1
            } else {
                old(self).consulted() as int
            },
    {
        std_rng_shuffle(&mut self.inner, v);
        if self.consulted < u64::MAX {
            self.consulted = self.consulted + 1;
        }
    }

    /// One freshly shuffled ordering of the digits 1-9: each appears
    /// exactly once.
    pub fn shuffled_digits(&mut self) -> (v: Vec<u8>)
        ensures
            v@.len() == 9,
            forall|k: int| #![trigger v@[k]] 0 <= k < 9 ==> 1 <= v@[k] <= 9,
            v@.no_duplicates(),
            forall|d: u8| 1 <= d <= 9 ==> v@.contains(d),
            final(self).consulted() == if old(self).consulted() < u64::MAX {
                old(self).consulted() + 1
            } else {
                old(self).consulted() as int
            },
    {
        let mut v: Vec<u8> = vec![1, 2, 3, 4, 5, 6, 7, 8, 9];
        let ghost base = v@;
        self.shuffle(&mut v);
        proof {
            broadcast use vstd::seq_lib::group_to_multiset_ensures;

            assert forall|k: int| #![trigger v@[k]] 0 <= k < v@.len() implies 1 <= v@[k] <= 9 by {
                assert(v@.contains(v@[k]));
                assert(base.to_multiset().count(v@[k]) > 0);
                assert(base.contains(v@[k]));
                let m = choose|m: int| 0 <= m < base.len() && base[m] == v@[k];
                assert(1 <= base[m] <= 9);
            }
            assert(base.no_duplicates());
            base.lemma_multiset_has_no_duplicates();
            v@.lemma_multiset_has_no_duplicates_conv();
            assert forall|d: u8| 1 <= d <= 9 implies v@.contains(d) by {
                assert(base[d - 1] == d);
                assert(base.contains(d));
                assert(v@.to_multiset().count(d) > 0);
            }
        }
        v
    }

    /// One freshly shuffled ordering of the 81 cell indices: each appears
    /// exactly once.
    pub fn shuffled_cells(&mut self) -> (v: Vec<u8>)
        ensures
            v@.len() == 81,
            forall|k: int| #![trigger v@[k]] 0 <= k < 81 ==> v@[k] < 81,
            v@.no_duplicates(),
            forall|d: u8| d < 81 ==> v@.contains(d),
            final(self).consulted() == if old(self).consulted() < u64::MAX {
                old(self).consulted() + 1
            } else {
                old(self).consulted() as int
            },
    {
        let mut v: Vec<u8> = Vec::new();
        let mut i: u8 = 0;
        while i < 81
            invariant
                i <= 81,
                v@.len() == i,
                forall|k: int| #![trigger v@[k]] 0 <= k < i ==> v@[k] == k,
            decreases 81 - i,
        {
            v.push(i);
            i += 1;
        }
        let ghost base = v@;
        self.shuffle(&mut v);
        proof {
            broadcast use vstd::seq_lib::group_to_multiset_ensures;

            assert forall|k: int| #![trigger v@[k]] 0 <= k < v@.len() implies v@[k] < 81 by {
                assert(v@.contains(v@[k]));
                assert(base.to_multiset().count(v@[k]) > 0);
                assert(base.contains(v@[k]));
                let m = choose|m: int| 0 <= m < base.len() && base[m] == v@[k];
                assert(base[m] < 81);
            }
            assert(base.no_duplicates());
            base.lemma_multiset_has_no_duplicates();
            v@.lemma_multiset_has_no_duplicates_conv();
            assert forall|d: u8| d < 81 implies v@.contains(d) by {
                assert(base[d as int] == d);
                assert(base.contains(d));
                assert(v@.to_multiset().count(d) > 0);
            }
        }
        v
    }
}

} // verus!
