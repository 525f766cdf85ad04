//! Deterministic shuffling.
//!
//! A [`Shuffler`] wraps a seeded ChaCha8 generator and hands out one 32-bit
//! word per draw.  The word stream is a pure function of the 32-byte seed, so
//! every permutation produced here is reproducible: building a board twice
//! from the same seed yields the same order.

use vstd::assert_multisets_equal;
use vstd::prelude::*;
use vstd::seq_lib::group_to_multiset_ensures;

verus! {

#[verifier::external_type_specification]
#[verifier::external_body]
pub struct ExChaCha8Rng(rand_chacha::ChaCha8Rng);

/// The `k`-th 32-bit word (counting from zero) of the ChaCha8 output stream
/// for the given 32-byte seed.  The stream is a pure function of the seed:
/// the generator starts with its block counter and stream id at zero, so the
/// same seed always yields the same words, on every machine and in every run.
pub uninterp spec fn chacha_word(seed: Seq<u8>, k: int) -> u32;

/// What a `ChaCha8Rng` value holds, first part: the seed it was created from.
pub uninterp spec fn rng_seed(rng: rand_chacha::ChaCha8Rng) -> Seq<u8>;

/// What a `ChaCha8Rng` value holds, second part: its position in the word
/// stream, that is, how many 32-bit words have already been produced.
pub uninterp spec fn rng_pos(rng: rand_chacha::ChaCha8Rng) -> int;

/// Relies on `rand_chacha::ChaCha8Rng::from_seed`: the generator starts at
/// the beginning of the word stream that the seed alone determines (block
/// counter and stream id both zero).
#[verifier::external_body]
fn rng_from_seed(seed: [u8; 32]) -> (rng: rand_chacha::ChaCha8Rng)
    ensures
        rng_seed(rng) == seed@,
        rng_pos(rng) == 0,
{
    <rand_chacha::ChaCha8Rng as rand_core::SeedableRng>::from_seed(seed)
}

/// Relies on `rand_core::Rng::next_u32` for `ChaCha8Rng`: each call returns
/// the word at the generator's current stream position and advances the
/// position by one; the generator is infallible and never panics.
#[verifier::external_body]
fn rng_next(rng: &mut rand_chacha::ChaCha8Rng) -> (r: u32)
    ensures
        rng_seed(*final(rng)) == rng_seed(*old(rng)),
        rng_pos(*final(rng)) == rng_pos(*old(rng)) + 1,
        r == chacha_word(rng_seed(*old(rng)), rng_pos(*old(rng))),
{
    rand_core::Rng::next_u32(rng)
}

/// A seeded pseudo-random source of 32-bit words.
pub struct Shuffler {
    rng: rand_chacha::ChaCha8Rng,
}

impl Shuffler {
    /// The seed this shuffler was created from.
    pub closed spec fn seed(self) -> Seq<u8> {
        rng_seed(self.rng)
    }

    /// How many words this shuffler has drawn so far.
    pub closed spec fn drawn(self) -> int {
        rng_pos(self.rng)
    }

    /// Create a shuffler for the given seed, positioned at the start of the
    /// seed's word stream.
    pub fn new(seed: [u8; 32]) -> (s: Shuffler)
        ensures
            s.seed() == seed@,
            s.drawn() == 0,
    {
        Shuffler { rng: rng_from_seed(seed) }
    }

    /// Draw the next word of the seed's stream.
    fn next_word(&mut self) -> (r: u32)
        ensures
            final(self).seed() == old(self).seed(),
            final(self).drawn() == old(self).drawn() + 1,
            r == chacha_word(old(self).seed(), old(self).drawn()),
    {
        rng_next(&mut self.rng)
    }
}

/// One Fisher–Yates step: exchange position `i` with the position
/// `i + w % (len - i)` chosen by the `k`-th word of the stream.
pub open spec fn fy_step<A>(s: Seq<A>, seed: Seq<u8>, k: int, i: int) -> Seq<A> {
    let j = i + (chacha_word(seed, k) as int) % (s.len() as int - i);
    s.update(i, s[j]).update(j, s[i])
}

/// The sequence after the first `steps` Fisher–Yates steps, drawing the words
/// `d0`, `d0 + 1`, ... of the stream for `seed`.
pub open spec fn fy_after<A>(s: Seq<A>, seed: Seq<u8>, d0: int, steps: int) -> Seq<A>
    decreases steps,
{
    if steps <= 0 {
        s
    } else {
        fy_step(fy_after(s, seed, d0, steps - 1), seed, d0 + (steps - 1), steps - 1)
    }
}

/// The full Fisher–Yates shuffle of `s`, one step (and one drawn word) per
/// position.
pub open spec fn fy_shuffled<A>(s: Seq<A>, seed: Seq<u8>, d0: int) -> Seq<A> {
    fy_after(s, seed, d0, s.len() as int)
}

/// Replacing the element at `i` exchanges it in the multiset of elements.
proof fn lemma_update_to_multiset<A>(s: Seq<A>, i: int, v: A)
    requires
        0 <= i < s.len(),
    ensures
        s.update(i, v).to_multiset() == s.to_multiset().remove(s[i]).insert(v),
{
    broadcast use group_to_multiset_ensures;

    let t = s.update(i, v);
    assert(t.remove(i) =~= s.remove(i));
    assert(t.remove(i).to_multiset() == t.to_multiset().remove(t[i]));
    assert(s.remove(i).to_multiset() == s.to_multiset().remove(s[i]));
    assert(t.contains(v)) by {
        assert(t[i] == v);
    }
    assert(t.to_multiset().count(v) > 0);
    assert_multisets_equal!(t.to_multiset(), s.to_multiset().remove(s[i]).insert(v), x => {
        if x == v {
            assert(t.to_multiset().remove(v).count(v) == s.to_multiset().remove(s[i]).count(v));
        } else {
            assert(t.to_multiset().remove(v).count(x) == s.to_multiset().remove(s[i]).count(x));
        }
    });
}

/// Exchanging two positions leaves the multiset of elements unchanged.
proof fn lemma_swap_to_multiset<A>(s: Seq<A>, i: int, j: int)
    requires
        0 <= i < s.len(),
        0 <= j < s.len(),
    ensures
        s.update(i, s[j]).update(j, s[i]).to_multiset() == s.to_multiset(),
{
    broadcast use group_to_multiset_ensures;
    broadcast use vstd::multiset::group_multiset_axioms;

    if i == j {
        assert(s.update(i, s[j]).update(j, s[i]) =~= s);
    } else {
        let t = s.update(i, s[j]);
        lemma_update_to_multiset(s, i, s[j]);
        lemma_update_to_multiset(t, j, s[i]);
        assert(t[j] == s[j]);
        assert(t.to_multiset().count(s[j]) > 0) by {
            assert(t.contains(s[j])) by {
                assert(t[j] == s[j]);
            }
        }
        assert(s.to_multiset().count(s[i]) > 0) by {
            assert(s.contains(s[i])) by {
                assert(s[i] == s[i]);
            }
        }
        assert_multisets_equal!(t.update(j, s[i]).to_multiset(), s.to_multiset(), x => {
            assert(t.update(j, s[i]).to_multiset() == t.to_multiset().remove(t[j]).insert(s[i]));
            assert(t.to_multiset() == s.to_multiset().remove(s[i]).insert(s[j]));
        });
    }
}

/// A Fisher–Yates step keeps the length and the multiset of elements.
proof fn lemma_fy_step_permutes<A>(s: Seq<A>, seed: Seq<u8>, k: int, i: int)
    requires
        0 <= i < s.len(),
    ensures
        fy_step(s, seed, k, i).len() == s.len(),
        fy_step(s, seed, k, i).to_multiset() == s.to_multiset(),
{
    let j = i + (chacha_word(seed, k) as int) % (s.len() as int - i);
    assert(0 <= (chacha_word(seed, k) as int) % (s.len() as int - i) < s.len() as int - i);
    lemma_swap_to_multiset(s, i, j);
}

/// Any number of Fisher–Yates steps keeps the length and the multiset of
/// elements: the result is a permutation of the input.
pub proof fn lemma_fy_after_permutes<A>(s: Seq<A>, seed: Seq<u8>, d0: int, steps: int)
    requires
        0 <= steps <= s.len(),
    ensures
        fy_after(s, seed, d0, steps).len() == s.len(),
        fy_after(s, seed, d0, steps).to_multiset() == s.to_multiset(),
    decreases steps,
{
    if steps > 0 {
        lemma_fy_after_permutes(s, seed, d0, steps - 1);
        lemma_fy_step_permutes(fy_after(s, seed, d0, steps - 1), seed, d0 + (steps - 1), steps - 1);
    }
}

/// The shuffled sequence is a permutation of the input.
pub proof fn lemma_fy_shuffled_permutes<A>(s: Seq<A>, seed: Seq<u8>, d0: int)
    ensures
        fy_shuffled(s, seed, d0).len() == s.len(),
        fy_shuffled(s, seed, d0).to_multiset() == s.to_multiset(),
{
    lemma_fy_after_permutes(s, seed, d0, s.len() as int);
}

/// Exchange the elements at positions `i` and `j` of `v`.
fn vec_swap<A>(v: &mut Vec<A>, i: usize, j: usize)
    requires
        i <= j < old(v).len(),
    ensures
        final(v)@ == old(v)@.update(i as int, old(v)@[j as int]).update(j as int, old(v)@[i as int]),
{
    let ghost s = v@;
    if i < j {
        let a = v.remove(j);
        let b = v.remove(i);
        v.insert(i, a);
        v.insert(j, b);
        proof {
            assert(v@ =~= s.update(i as int, s[j as int]).update(j as int, s[i as int]));
        }
    } else {
        proof {
            assert(v@ =~= s.update(i as int, s[j as int]).update(j as int, s[i as int]));
        }
    }
}

/// Shuffle `v` in place with the Fisher–Yates walk driven by `sh`, drawing
/// one word per position.  The result is the permutation of the input that
/// the shuffler's seed and position determine, so equal seeds and positions
/// give bit-identical orderings.
pub fn shuffle<A>(v: &mut Vec<A>, sh: &mut Shuffler)
    ensures
        final(v)@ == fy_shuffled(old(v)@, old(sh).seed(), old(sh).drawn()),
        final(v)@.len() == old(v)@.len(),
        final(v)@.to_multiset() == old(v)@.to_multiset(),
        final(sh).seed() == old(sh).seed(),
        final(sh).drawn() == old(sh).drawn() + old(v)@.len(),
{
    let ghost s0 = v@;
    let ghost seed = sh.seed();
    let ghost d0 = sh.drawn();
    let n = v.len();
    let mut i: usize = 0;
    while i < n
        invariant
            i <= n,
            n == s0.len(),
            v@.len() == n,
            v@ == fy_after(s0, seed, d0, i as int),
            sh.seed() == seed,
            sh.drawn() == d0 + i,
        decreases n - i,
    {
        let w = sh.next_word();
        let j = i + (w as usize) % (n - i);
        proof {
            assert(w == chacha_word(seed, d0 + i));
            assert((w as int) % (n as int - i as int) < n as int - i as int);
            lemma_fy_after_permutes(s0, seed, d0, i as int);
            assert(fy_after(s0, seed, d0, i as int + 1) == fy_step(v@, seed, d0 + i, i as int));
            assert(j as int == i as int + (chacha_word(seed, d0 + i) as int) % (v@.len() as int
                - i as int));
        }
        vec_swap(v, i, j);
        i = i + 1;
    }
    proof {
        lemma_fy_shuffled_permutes(s0, seed, d0);
    }
}

} // verus!
