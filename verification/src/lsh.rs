//! Band-wise locality-sensitive hashing. A MinHash signature is cut into
//! [`LSH_BUCKETS`] contiguous bands of [`LSH_RANGE`] values each (the last
//! signature slot is left unused), and each band is hashed — over the
//! little-endian byte image of its values — into a 64-bit bucket hash.
//! A document therefore emits exactly one packed bucket record per band.
use vstd::prelude::*;

verus! {

use vstd::bytes::spec_u32_to_le_bytes;
use vstd::bytes::u32_to_le_bytes;
use crate::hashes::city64;
use crate::hashes::content_hash;
use crate::hashes::content_hash_of;
use crate::minhash::signature_of_text;
use crate::minhash::hash_text;
use crate::minhash::MinHash;
use crate::minhash::PermutationFamily;
use crate::minhash::NUM_PERM;

/// Number of signature values per band.
pub const LSH_RANGE: usize = 15;

/// Number of bands, and so of bucket records per document.
pub const LSH_BUCKETS: usize = 17;

/// One band projection of a document: the band's index and its 64-bit hash.
pub struct LshBucket {
    pub index: u8,
    pub hash: u64,
}

impl LshBucket {
    pub fn index(&self) -> (r: u8)
        ensures
            r == self.index,
    {
        self.index
    }

    pub fn hash(&self) -> (r: u64)
        ensures
            r == self.hash,
    {
        self.hash
    }
}

/// The little-endian byte image of a sequence of 32-bit values.
pub open spec fn le_bytes_of_u32s(vals: Seq<u32>) -> Seq<u8>
    decreases vals.len(),
{
    if vals.len() == 0 {
        Seq::empty()
    } else {
        spec_u32_to_le_bytes(vals.first()) + le_bytes_of_u32s(vals.drop_first())
    }
}

/// Appending one value appends its four bytes.
pub proof fn lemma_le_bytes_push(vals: Seq<u32>, v: u32)
    ensures
        le_bytes_of_u32s(vals.push(v)) == le_bytes_of_u32s(vals) + spec_u32_to_le_bytes(v),
    decreases vals.len(),
{
    if vals.len() == 0 {
        assert(vals.push(v).first() == v);
        assert(vals.push(v).drop_first() =~= Seq::<u32>::empty());
        assert(le_bytes_of_u32s(vals.push(v)) == spec_u32_to_le_bytes(v) + le_bytes_of_u32s(
            Seq::<u32>::empty(),
        ));
        assert(le_bytes_of_u32s(Seq::<u32>::empty()) == Seq::<u8>::empty());
        assert(le_bytes_of_u32s(vals) == Seq::<u8>::empty());
        assert(le_bytes_of_u32s(vals.push(v)) =~= le_bytes_of_u32s(vals) + spec_u32_to_le_bytes(
            v,
        ));
    } else {
        lemma_le_bytes_push(vals.drop_first(), v);
        assert(vals.push(v).drop_first() =~= vals.drop_first().push(v));
        assert(vals.push(v).first() == vals.first());
        assert(le_bytes_of_u32s(vals.push(v)) =~= le_bytes_of_u32s(vals) + spec_u32_to_le_bytes(
            v,
        ));
    }
}

/// The 64-bit hash of band `i` of a signature: CityHash64 of the band's
/// 60-byte little-endian image.
pub open spec fn band_hash_of(sig: Seq<u32>, i: int) -> u64 {
    city64(le_bytes_of_u32s(sig.subrange(i * LSH_RANGE, i * LSH_RANGE + LSH_RANGE)))
}

/// Projects a signature into its [`LSH_BUCKETS`] band hashes.
pub fn create_lsh_buckets(minhash: &MinHash) -> (r: Vec<LshBucket>)
    requires
        minhash.values@.len() == NUM_PERM,
    ensures
        r@.len() == LSH_BUCKETS,
        forall|i: int|
            0 <= i < LSH_BUCKETS ==> (#[trigger] r@[i]).index == i && r@[i].hash == band_hash_of(
                minhash.values@,
                i,
            ),
{
    let mut r: Vec<LshBucket> = Vec::new();
    let mut index: usize = 0;
    while index < LSH_BUCKETS
        invariant
            index <= LSH_BUCKETS,
            minhash.values@.len() == NUM_PERM,
            r@.len() == index,
            forall|i: int|
                0 <= i < index ==> (#[trigger] r@[i]).index == i && r@[i].hash == band_hash_of(
                    minhash.values@,
                    i,
                ),
        decreases LSH_BUCKETS - index,
    {
        let start = index * LSH_RANGE;
        let ghost band = minhash.values@.subrange(
            start as int,
            start as int + LSH_RANGE as int,
        );
        let mut bytes: Vec<u8> = Vec::new();
        let mut k: usize = 0;
        proof {
            assert(band.take(0) =~= Seq::<u32>::empty());
        }
        while k < LSH_RANGE
            invariant
                k <= LSH_RANGE,
                start + LSH_RANGE <= NUM_PERM,
                start == index * LSH_RANGE,
                minhash.values@.len() == NUM_PERM,
                band == minhash.values@.subrange(start as int, start as int + LSH_RANGE as int),
                bytes@ == le_bytes_of_u32s(band.take(k as int)),
            decreases LSH_RANGE - k,
        {
            let mut four = u32_to_le_bytes(minhash.values[start + k]);
            proof {
                assert(band[k as int] == minhash.values@[start + k]);
                assert(band.take(k as int + 1) =~= band.take(k as int).push(band[k as int]));
                lemma_le_bytes_push(band.take(k as int), band[k as int]);
            }
            bytes.append(&mut four);
            k = k + 1;
        }
        proof {
            assert(band.take(LSH_RANGE as int) =~= band);
        }
        let hash = crate::hashes::city_hash_64(bytes.as_slice());
        r.push(LshBucket { index: index as u8, hash });
        index = index + 1;
    }
    r
}

/// One packed LSH bucket record: `(bucket_index, bucket_hash, path_hash,
/// content_hash)`, ordered lexicographically in that field order.
#[derive(PartialEq, Eq, Structural, Clone, Copy, Debug)]
pub struct LshBucketRow {
    pub bucket_index: u8,
    pub bucket_hash: u64,
    pub path_hash: u16,
    pub content_hash: u64,
}

impl View for LshBucketRow {
    type V = LshBucketRow;

    open spec fn view(&self) -> LshBucketRow {
        *self
    }
}

impl DeepView for LshBucketRow {
    type V = LshBucketRow;

    open spec fn deep_view(&self) -> LshBucketRow {
        *self
    }
}

/// The natural (lexicographic) order on bucket records.
pub open spec fn row_le(a: LshBucketRow, b: LshBucketRow) -> bool {
    if a.bucket_index != b.bucket_index {
        a.bucket_index < b.bucket_index
    } else if a.bucket_hash != b.bucket_hash {
        a.bucket_hash < b.bucket_hash
    } else if a.path_hash != b.path_hash {
        a.path_hash < b.path_hash
    } else {
        a.content_hash <= b.content_hash
    }
}

impl LshBucketRow {
    pub fn new(bucket_index: u8, bucket_hash: u64, path_hash: u16, content_hash: u64) -> (r:
        LshBucketRow)
        ensures
            r == (LshBucketRow { bucket_index, bucket_hash, path_hash, content_hash }),
    {
        LshBucketRow { bucket_index, bucket_hash, path_hash, content_hash }
    }

    pub fn bucket_index(&self) -> (r: u8)
        ensures
            r == self.bucket_index,
    {
        self.bucket_index
    }

    pub fn bucket_hash(&self) -> (r: u64)
        ensures
            r == self.bucket_hash,
    {
        self.bucket_hash
    }

    pub fn path_hash(&self) -> (r: u16)
        ensures
            r == self.path_hash,
    {
        self.path_hash
    }

    pub fn content_hash(&self) -> (r: u64)
        ensures
            r == self.content_hash,
    {
        self.content_hash
    }

    /// Decides the natural order between two records.
    pub fn le(&self, other: &LshBucketRow) -> (r: bool)
        ensures
            r == row_le(*self, *other),
    {
        if self.bucket_index != other.bucket_index {
            self.bucket_index < other.bucket_index
        } else if self.bucket_hash != other.bucket_hash {
            self.bucket_hash < other.bucket_hash
        } else if self.path_hash != other.path_hash {
            self.path_hash < other.path_hash
        } else {
            self.content_hash <= other.content_hash
        }
    }
}

/// The bucket records a document emits: for every band `i`, exactly one
/// record with that band index, the band's hash of the document's signature,
/// the file's path hash and the text's content hash.
pub open spec fn doc_rows(text: Seq<char>, path_hash: u16) -> Seq<LshBucketRow> {
    Seq::new(
        LSH_BUCKETS as nat,
        |i: int|
            LshBucketRow {
                bucket_index: i as u8,
                bucket_hash: band_hash_of(signature_of_text(text), i),
                path_hash,
                content_hash: content_hash_of(text),
            },
    )
}

/// Signs one document: computes its signature and emits its bucket records.
pub fn lsh_rows_for_text(text: &str, path_hash: u16, family: &PermutationFamily) -> (rows: Vec<
    LshBucketRow,
>)
    requires
        family.wf(),
    ensures
        rows@ == doc_rows(text@, path_hash),
{
    let ch = content_hash(text);
    let minhash = hash_text(text, family);
    let buckets = create_lsh_buckets(&minhash);
    let mut rows: Vec<LshBucketRow> = Vec::new();
    let mut i: usize = 0;
    while i < buckets.len()
        invariant
            i <= buckets.len(),
            buckets@.len() == LSH_BUCKETS,
            ch == content_hash_of(text@),
            forall|k: int|
                0 <= k < LSH_BUCKETS ==> (#[trigger] buckets@[k]).index == k
                    && buckets@[k].hash == band_hash_of(signature_of_text(text@), k),
            rows@.len() == i,
            forall|k: int| 0 <= k < i ==> #[trigger] rows@[k] == doc_rows(text@, path_hash)[k],
        decreases buckets.len() - i,
    {
        let b = &buckets[i];
        rows.push(LshBucketRow::new(b.index, b.hash, path_hash, ch));
        i = i + 1;
    }
    proof {
        assert(rows@ =~= doc_rows(text@, path_hash));
    }
    rows
}

/// Documents whose lowercased texts have identical token multisets agree on
/// all their band hashes, band for band.
pub proof fn lemma_equal_token_multisets_equal_buckets(text1: Seq<char>, text2: Seq<char>)
    requires
        crate::text::tokens_of(crate::text::lower_of(text1)).to_multiset()
            == crate::text::tokens_of(crate::text::lower_of(text2)).to_multiset(),
    ensures
        forall|i: int|
            0 <= i < LSH_BUCKETS ==> band_hash_of(signature_of_text(text1), i) == band_hash_of(
                signature_of_text(text2),
                i,
            ),
{
    crate::minhash::lemma_signature_depends_on_token_multiset(text1, text2);
}

} // verus!
