//! MinHash signatures. A signature is a sequence of exactly `NUM_PERM` 32-bit
//! minima: slot `i` holds the minimum, over all tokens of the lowercased
//! document, of `A[i] * h(token) + B[i]` (wrapping), where `(A[i], B[i])` is
//! the `i`-th pair of a permutation family drawn once from a ChaCha8 stream
//! seeded with [`MINHASH_SEED`].
//!
//! The family is drawn pairwise: for each slot, first the multiplier (uniform
//! in `[1, u32::MAX)`), then the offset (uniform in `[0, u32::MAX)`), and the
//! two draws go to separate vectors, so both the multipliers and the offsets
//! take part in every permutation. Bucket hashes are therefore not
//! interchangeable with those of a family whose offsets are all zero.
use vstd::prelude::*;

use rand::Rng;
use rand::SeedableRng;

verus! {

use crate::hashes::token_hash;
use crate::hashes::token_hash_of;
use crate::text::lower_of;
use crate::text::lowercase;
use crate::text::tokenize;
use crate::text::tokens_of;

/// Number of permutation slots in a signature.
pub const NUM_PERM: usize = 256;

/// Seed of the permutation family's ChaCha8 stream.
pub const MINHASH_SEED: u64 = 1;

/// The `i`-th value drawn by `rand::Rng::gen_range` from a ChaCha8 stream
/// seeded with `seed`, when the draws alternate between the range
/// `[1, u32::MAX)` (even positions) and `[0, u32::MAX)` (odd positions).
pub uninterp spec fn perm_draw(seed: u64, i: nat) -> u32;

/// A seeded ChaCha8 stream together with the number of values already drawn
/// from it under the alternating-range discipline of [`perm_draw`].
pub struct PermutationSource {
    rng: rand_chacha::ChaCha8Rng,
    seed: u64,
    count: u64,
}

#[verifier::external_type_specification]
#[verifier::external_body]
pub struct ExChaCha8Rng(rand_chacha::ChaCha8Rng);

/// Relies on `rand_chacha::ChaCha8Rng::seed_from_u64`: seeding is
/// deterministic, so the stream is a function of the seed alone.
#[verifier::external_body]
fn permutation_source(seed: u64) -> (r: PermutationSource)
    ensures
        r.seed == seed,
        r.count == 0,
{
    PermutationSource { rng: rand_chacha::ChaCha8Rng::seed_from_u64(seed), seed, count: 0 }
}

/// Relies on `rand::Rng::gen_range(1..u32::MAX)` over a seeded ChaCha8
/// stream: the value is reproducible given the seed and the draw position,
/// and lies in `[1, u32::MAX)`.
#[verifier::external_body]
fn draw_multiplier(src: &mut PermutationSource) -> (r: u32)
    requires
        old(src).count % 2 == 0,
        old(src).count < u64::MAX - 1,
    ensures
        final(src).seed == old(src).seed,
        final(src).count == old(src).count + 1,
        r == perm_draw(old(src).seed, old(src).count as nat),
        1 <= r < u32::MAX,
{
    src.count += 1;
    src.rng.gen_range(1..u32::MAX)
}

/// Relies on `rand::Rng::gen_range(0..u32::MAX)` over a seeded ChaCha8
/// stream: the value is reproducible given the seed and the draw position,
/// and lies in `[0, u32::MAX)`.
#[verifier::external_body]
fn draw_offset(src: &mut PermutationSource) -> (r: u32)
    requires
        old(src).count % 2 == 1,
        old(src).count < u64::MAX,
    ensures
        final(src).seed == old(src).seed,
        final(src).count == old(src).count + 1,
        r == perm_draw(old(src).seed, old(src).count as nat),
        r < u32::MAX,
{
    src.count += 1;
    src.rng.gen_range(0..u32::MAX)
}

/// The multipliers of the permutation family drawn from `seed`.
pub open spec fn family_a(seed: u64) -> Seq<u32> {
    Seq::new(NUM_PERM as nat, |i: int| perm_draw(seed, (2 * i) as nat))
}

/// The offsets of the permutation family drawn from `seed`.
pub open spec fn family_b(seed: u64) -> Seq<u32> {
    Seq::new(NUM_PERM as nat, |i: int| perm_draw(seed, (2 * i + 1) as nat))
}

/// The fixed permutation family: `NUM_PERM` multiplier/offset pairs.
pub struct PermutationFamily {
    pub a: Vec<u32>,
    pub b: Vec<u32>,
}

impl PermutationFamily {
    /// The vectors hold exactly the family drawn from [`MINHASH_SEED`],
    /// with every multiplier nonzero.
    pub open spec fn wf(self) -> bool {
        &&& self.a@ == family_a(MINHASH_SEED)
        &&& self.b@ == family_b(MINHASH_SEED)
        &&& forall|i: int| 0 <= i < NUM_PERM ==> 1 <= #[trigger] self.a@[i] < u32::MAX
        &&& forall|i: int| 0 <= i < NUM_PERM ==> #[trigger] self.b@[i] < u32::MAX
    }

    /// Draws the family: for each slot, the multiplier first, then the offset.
    pub fn new() -> (r: PermutationFamily)
        ensures
            r.wf(),
    {
        let mut src = permutation_source(MINHASH_SEED);
        let mut a: Vec<u32> = Vec::new();
        let mut b: Vec<u32> = Vec::new();
        let mut i: usize = 0;
        while i < NUM_PERM
            invariant
                i <= NUM_PERM,
                src.seed == MINHASH_SEED,
                src.count == 2 * i,
                a@.len() == i,
                b@.len() == i,
                forall|k: int|
                    0 <= k < i ==> #[trigger] a@[k] == perm_draw(MINHASH_SEED, (2 * k) as nat)
                        && 1 <= a@[k] < u32::MAX,
                forall|k: int|
                    0 <= k < i ==> #[trigger] b@[k] == perm_draw(MINHASH_SEED, (2 * k + 1) as nat)
                        && b@[k] < u32::MAX,
            decreases NUM_PERM - i,
        {
            let x = draw_multiplier(&mut src);
            let y = draw_offset(&mut src);
            a.push(x);
            b.push(y);
            i = i + 1;
        }
        proof {
            assert(a@ =~= family_a(MINHASH_SEED));
            assert(b@ =~= family_b(MINHASH_SEED));
        }
        PermutationFamily { a, b }
    }
}

/// The smaller of two 32-bit values.
pub open spec fn min_u32(x: u32, y: u32) -> u32 {
    if x <= y {
        x
    } else {
        y
    }
}

/// The value permutation slot `i` assigns to token hash `h`:
/// `a * h + b`, both operations wrapping.
pub open spec fn perm_value(a: u32, b: u32, h: u32) -> u32 {
    vstd::wrapping::u32_specs::wrapping_add(vstd::wrapping::u32_specs::wrapping_mul(a, h), b)
}

/// The signature of a document with no tokens: every slot at `u32::MAX`.
pub open spec fn empty_signature() -> Seq<u32> {
    Seq::new(NUM_PERM as nat, |i: int| u32::MAX)
}

/// One token-hash update of a signature: each slot takes the minimum of its
/// current value and the slot's permutation value for `h`.
pub open spec fn update_signature(sig: Seq<u32>, h: u32) -> Seq<u32> {
    Seq::new(
        sig.len(),
        |i: int| min_u32(sig[i], perm_value(family_a(MINHASH_SEED)[i], family_b(MINHASH_SEED)[i], h)),
    )
}

/// The signature accumulated over a sequence of token hashes.
pub open spec fn signature_of_hashes(hs: Seq<u32>) -> Seq<u32>
    decreases hs.len(),
{
    if hs.len() == 0 {
        empty_signature()
    } else {
        update_signature(signature_of_hashes(hs.drop_last()), hs.last())
    }
}

/// The token hashes of a token sequence, in order.
pub open spec fn token_hashes(tokens: Seq<Seq<char>>) -> Seq<u32> {
    tokens.map(|i: int, t: Seq<char>| token_hash_of(t))
}

/// The MinHash signature of a document's text: lowercase, tokenize, hash
/// each token, fold the minima.
pub open spec fn signature_of_text(text: Seq<char>) -> Seq<u32> {
    signature_of_hashes(token_hashes(tokens_of(lower_of(text))))
}

/// A finished MinHash signature.
pub struct MinHash {
    pub values: Vec<u32>,
}

/// Accumulates a MinHash signature token by token.
pub struct MinHashBuilder {
    pub values: Vec<u32>,
}

impl MinHashBuilder {
    /// Starts from the empty signature.
    pub fn new() -> (r: MinHashBuilder)
        ensures
            r.values@ == empty_signature(),
    {
        let values: Vec<u32> = vec![u32::MAX; NUM_PERM];
        proof {
            assert(values@ =~= empty_signature());
        }
        MinHashBuilder { values }
    }

    /// Folds one token into the signature.
    pub fn update(&mut self, family: &PermutationFamily, value: &str)
        requires
            old(self).values@.len() == NUM_PERM,
            family.wf(),
        ensures
            final(self).values@ == update_signature(old(self).values@, token_hash_of(value@)),
    {
        let h = token_hash(value);
        let mut i: usize = 0;
        while i < NUM_PERM
            invariant
                i <= NUM_PERM,
                self.values@.len() == NUM_PERM,
                family.wf(),
                forall|k: int|
                    0 <= k < i ==> #[trigger] self.values@[k] == min_u32(
                        old(self).values@[k],
                        perm_value(family_a(MINHASH_SEED)[k], family_b(MINHASH_SEED)[k], h),
                    ),
                forall|k: int| i <= k < NUM_PERM ==> #[trigger] self.values@[k] == old(self).values@[k],
            decreases NUM_PERM - i,
        {
            let t = family.a[i].wrapping_mul(h).wrapping_add(family.b[i]);
            let cur = self.values[i];
            let v = if t < cur {
                t
            } else {
                cur
            };
            self.values[i] = v;
            i = i + 1;
        }
        proof {
            assert(self.values@ =~= update_signature(old(self).values@, token_hash_of(value@)));
        }
    }

    /// Finishes the signature.
    pub fn build(self) -> (r: MinHash)
        ensures
            r.values@ == self.values@,
    {
        MinHash { values: self.values }
    }
}

/// Computes the MinHash signature of a document's text.
pub fn hash_text(text: &str, family: &PermutationFamily) -> (r: MinHash)
    requires
        family.wf(),
    ensures
        r.values@ == signature_of_text(text@),
        r.values@.len() == NUM_PERM,
{
    let lower = lowercase(text);
    let tokens = tokenize(&lower);
    let ghost toks = tokens.deep_view();
    let mut builder = MinHashBuilder::new();
    let n = tokens.len();
    proof {
        assert(toks.take(0) =~= Seq::<Seq<char>>::empty());
        assert(token_hashes(Seq::<Seq<char>>::empty()) =~= Seq::<u32>::empty());
        assert(toks.len() == n);
    }
    let mut i: usize = 0;
    while i < n
        invariant
            i <= n,
            n == tokens@.len(),
            family.wf(),
            tokens.deep_view() == toks,
            toks.len() == n,
            builder.values@.len() == NUM_PERM,
            builder.values@ == signature_of_hashes(token_hashes(toks.take(i as int))),
        decreases n - i,
    {
        let ghost prefix = token_hashes(toks.take(i as int));
        proof {
            assert(tokens.deep_view()[i as int] == tokens@[i as int]@);
        }
        builder.update(family, tokens[i].as_str());
        proof {
            assert(toks.take(i as int + 1).drop_last() =~= toks.take(i as int));
            assert(token_hashes(toks.take(i as int + 1)).drop_last() =~= token_hashes(
                toks.take(i as int),
            ));
            assert(token_hashes(toks.take(i as int + 1)).last() == token_hash_of(toks[i as int]));
            assert(token_hashes(toks.take(i as int + 1)).len() > 0);
            assert(builder.values@ == signature_of_hashes(token_hashes(toks.take(i as int + 1))));
        }
        i = i + 1;
    }
    proof {
        assert(toks.take(n as int) =~= toks);
    }
    builder.build()
}

/// Updating a signature with two token hashes gives the same result in
/// either order: each slot just takes minima.
proof fn lemma_update_signature_commutes(sig: Seq<u32>, h1: u32, h2: u32)
    ensures
        update_signature(update_signature(sig, h1), h2) == update_signature(
            update_signature(sig, h2),
            h1,
        ),
{
    assert(update_signature(update_signature(sig, h1), h2) =~= update_signature(
        update_signature(sig, h2),
        h1,
    ));
}

/// The signature of a hash sequence can be computed by pulling out any one
/// element first.
proof fn lemma_signature_pull(hs: Seq<u32>, i: int)
    requires
        0 <= i < hs.len(),
    ensures
        signature_of_hashes(hs) == update_signature(signature_of_hashes(hs.remove(i)), hs[i]),
    decreases hs.len(),
{
    if i == hs.len() - 1 {
        assert(hs.remove(i) =~= hs.drop_last());
    } else {
        let dl = hs.drop_last();
        lemma_signature_pull(dl, i);
        assert(hs.remove(i).drop_last() =~= dl.remove(i));
        assert(hs.remove(i).last() == hs.last());
        lemma_update_signature_commutes(signature_of_hashes(dl.remove(i)), hs[i], hs.last());
        assert(signature_of_hashes(hs.remove(i)) == update_signature(
            signature_of_hashes(dl.remove(i)),
            hs.last(),
        ));
    }
}

/// Two token-hash sequences with the same multiset produce the same
/// signature: the fold of per-slot minima does not depend on order.
pub proof fn lemma_signature_of_hash_multiset(hs1: Seq<u32>, hs2: Seq<u32>)
    requires
        hs1.to_multiset() == hs2.to_multiset(),
    ensures
        signature_of_hashes(hs1) == signature_of_hashes(hs2),
    decreases hs1.len(),
{
    broadcast use vstd::seq_lib::group_to_multiset_ensures;

    if hs1.len() == 0 {
        assert(hs2.to_multiset().len() == 0);
        assert(hs2.len() == 0);
    } else {
        let x = hs1.last();
        assert(hs1.contains(x));
        assert(hs1.to_multiset().count(x) > 0);
        assert(hs2.to_multiset().count(x) > 0);
        assert(hs2.contains(x));
        let j = choose|j: int| 0 <= j < hs2.len() && hs2[j] == x;
        assert(hs1.remove(hs1.len() - 1).to_multiset() == hs1.to_multiset().remove(x));
        assert(hs1.remove(hs1.len() - 1) =~= hs1.drop_last());
        assert(hs2.remove(j).to_multiset() == hs2.to_multiset().remove(x));
        lemma_signature_of_hash_multiset(hs1.drop_last(), hs2.remove(j));
        lemma_signature_pull(hs2, j);
    }
}

/// Mapping token hashing over two token sequences with the same multiset
/// gives hash sequences with the same multiset.
proof fn lemma_token_hashes_multiset(t1: Seq<Seq<char>>, t2: Seq<Seq<char>>)
    requires
        t1.to_multiset() == t2.to_multiset(),
    ensures
        token_hashes(t1).to_multiset() == token_hashes(t2).to_multiset(),
    decreases t1.len(),
{
    broadcast use vstd::seq_lib::group_to_multiset_ensures;

    if t1.len() == 0 {
        assert(t2.to_multiset().len() == 0);
        assert(t2.len() == 0);
        assert(token_hashes(t1) =~= Seq::<u32>::empty());
        assert(token_hashes(t2) =~= Seq::<u32>::empty());
    } else {
        let x = t1.last();
        assert(t1.contains(x));
        assert(t1.to_multiset().count(x) > 0);
        assert(t2.to_multiset().count(x) > 0);
        assert(t2.contains(x));
        let j = choose|j: int| 0 <= j < t2.len() && t2[j] == x;
        assert(t1.remove(t1.len() - 1) =~= t1.drop_last());
        assert(t1.drop_last().to_multiset() == t1.to_multiset().remove(x));
        assert(t2.remove(j).to_multiset() == t2.to_multiset().remove(x));
        lemma_token_hashes_multiset(t1.drop_last(), t2.remove(j));
        assert(token_hashes(t1.drop_last()) =~= token_hashes(t1).drop_last());
        assert(token_hashes(t2.remove(j)) =~= token_hashes(t2).remove(j));
        assert(token_hashes(t1).remove(token_hashes(t1).len() - 1) =~= token_hashes(
            t1,
        ).drop_last());
        assert(token_hashes(t1).to_multiset().remove(token_hash_of(x)) == token_hashes(
            t1.drop_last(),
        ).to_multiset());
        assert(token_hashes(t2).to_multiset().remove(token_hashes(t2)[j]) == token_hashes(
            t2.remove(j),
        ).to_multiset());
        assert(token_hashes(t2)[j] == token_hash_of(x));
        assert(token_hashes(t1).to_multiset().count(token_hash_of(x)) > 0);
        assert(token_hashes(t2).to_multiset().count(token_hash_of(x)) > 0);
        assert(token_hashes(t1).to_multiset() =~= token_hashes(
            t1.drop_last(),
        ).to_multiset().insert(token_hash_of(x)));
        assert(token_hashes(t2).to_multiset() =~= token_hashes(t2.remove(j)).to_multiset().insert(
            token_hash_of(x),
        ));
    }
}

/// Documents whose lowercased texts have identical token multisets have
/// identical MinHash signatures.
pub proof fn lemma_signature_depends_on_token_multiset(text1: Seq<char>, text2: Seq<char>)
    requires
        tokens_of(lower_of(text1)).to_multiset() == tokens_of(lower_of(text2)).to_multiset(),
    ensures
        signature_of_text(text1) == signature_of_text(text2),
{
    lemma_token_hashes_multiset(tokens_of(lower_of(text1)), tokens_of(lower_of(text2)));
    lemma_signature_of_hash_multiset(
        token_hashes(tokens_of(lower_of(text1))),
        token_hashes(tokens_of(lower_of(text2))),
    );
}

} // verus!
