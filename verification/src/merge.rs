//! Run-file parsing and the k-way merge. Each run file is parsed, its
//! ordering invariant enforced at read time, and the merger then streams the
//! global minimum across all streams, so the merged stream is monotonically
//! non-decreasing and carries exactly the records of its inputs.
use vstd::prelude::*;

verus! {

use vstd::multiset::Multiset;
use crate::codec::decode_rows;
use crate::codec::decode_rows_spec;
use crate::compress::zstd_decompress;
use crate::compress::zstd_unframed;
use crate::error::DedupError;
use crate::lsh::row_le;
use crate::lsh::LshBucketRow;
use crate::sort::rows_sorted;

/// The natural order is transitive.
pub proof fn lemma_row_le_trans(a: LshBucketRow, b: LshBucketRow, c: LshBucketRow)
    requires
        row_le(a, b),
        row_le(b, c),
    ensures
        row_le(a, c),
{
}

proof fn lemma_span_le(s: Seq<LshBucketRow>, i: int, j: int)
    requires
        forall|k: int| 0 <= k < s.len() - 1 ==> row_le(#[trigger] s[k], s[k + 1]),
        0 <= i < j < s.len(),
    ensures
        row_le(s[i], s[j]),
    decreases j - i,
{
    if j == i + 1 {
        assert(row_le(s[i], s[i + 1]));
    } else {
        lemma_span_le(s, i, j - 1);
        assert(row_le(s[j - 1], s[j]));
    }
}

/// Adjacent non-decrease implies global non-decrease.
pub proof fn lemma_adjacent_sorted(s: Seq<LshBucketRow>)
    requires
        forall|k: int| 0 <= k < s.len() - 1 ==> row_le(#[trigger] s[k], s[k + 1]),
    ensures
        rows_sorted(s),
{
    assert forall|i: int, j: int| 0 <= i < j < s.len() implies row_le(
        #[trigger] s[i],
        #[trigger] s[j],
    ) by {
        lemma_span_le(s, i, j);
    }
}

/// Parses one run file: decompresses, decodes the packed records, and
/// enforces that consecutive records are non-decreasing; a violation is
/// fatal.
pub fn parse_run_file(data: &Vec<u8>) -> (r: Result<Vec<LshBucketRow>, DedupError>)
    ensures
        match r {
            Ok(rows) => {
                &&& zstd_unframed(data@) == Some(rows_payload(data@))
                &&& decode_rows_spec(rows_payload(data@)) == Some(rows@)
                &&& rows_sorted(rows@)
            },
            Err(e) => {
                ||| (e == DedupError::CompressionFailed && zstd_unframed(data@) is None)
                ||| (e == DedupError::CorruptRunFile && (zstd_unframed(data@) matches Some(p)
                    && decode_rows_spec(p) is None))
                ||| (e == DedupError::UnsortedRunFile && (zstd_unframed(data@) matches Some(p)
                    && (decode_rows_spec(p) matches Some(rs) && !rows_sorted(rs))))
            },
        },
{
    let payload = match zstd_decompress(data) {
        Option::Some(p) => p,
        Option::None => {
            return Err(DedupError::CompressionFailed);
        },
    };
    let rows = match decode_rows(&payload) {
        Option::Some(rows) => rows,
        Option::None => {
            return Err(DedupError::CorruptRunFile);
        },
    };
    let n = rows.len();
    let mut i: usize = 1;
    while i < n
        invariant
            1 <= i,
            n == rows@.len(),
            zstd_unframed(data@) == Some(payload@),
            decode_rows_spec(payload@) == Some(rows@),
            forall|k: int| 0 <= k < i - 1 ==> row_le(#[trigger] rows@[k], rows@[k + 1]),
        decreases n - i,
    {
        if !rows[i - 1].le(&rows[i]) {
            proof {
                assert(!row_le(rows@[i as int - 1], rows@[i as int]));
                assert(!rows_sorted(rows@));
            }
            return Err(DedupError::UnsortedRunFile);
        }
        i = i + 1;
    }
    proof {
        lemma_adjacent_sorted(rows@);
    }
    Ok(rows)
}

/// The decompressed payload of a parsed run file.
pub open spec fn rows_payload(data: Seq<u8>) -> Seq<u8> {
    zstd_unframed(data)->Some_0
}

/// The records still to be emitted: every stream's suffix from its read
/// position, as one multiset.
pub open spec fn suffix_multiset(streams: Seq<Seq<LshBucketRow>>, positions: Seq<usize>) -> Multiset<
    LshBucketRow,
>
    decreases streams.len(),
{
    if streams.len() == 0 {
        Multiset::empty()
    } else {
        streams.first().skip(positions.first() as int).to_multiset().add(
            suffix_multiset(streams.drop_first(), positions.drop_first()),
        )
    }
}

/// Advancing stream `m` by one removes exactly its head from the remaining
/// multiset.
proof fn lemma_suffix_pop(streams: Seq<Seq<LshBucketRow>>, positions: Seq<usize>, m: int)
    requires
        streams.len() == positions.len(),
        0 <= m < streams.len(),
        positions[m] < streams[m].len(),
        positions[m] < usize::MAX,
        forall|k: int| 0 <= k < streams.len() ==> #[trigger] positions[k] <= streams[k].len(),
    ensures
        suffix_multiset(streams, positions).count(streams[m][positions[m] as int]) > 0,
        suffix_multiset(streams, positions.update(m, (positions[m] + 1) as usize))
            == suffix_multiset(streams, positions).remove(streams[m][positions[m] as int]),
    decreases streams.len(),
{
    broadcast use vstd::seq_lib::group_to_multiset_ensures;
    broadcast use vstd::multiset::group_multiset_axioms;

    let head = streams[m][positions[m] as int];
    if m == 0 {
        let suf = streams.first().skip(positions.first() as int);
        assert(suf[0] == head);
        assert(suf.contains(head));
        assert(suf.to_multiset().count(head) > 0);
        vstd::seq_lib::to_multiset_remove(suf, 0);
        assert(suf.remove(0) =~= streams.first().skip(positions.first() as int + 1));
        assert(positions.update(0, (positions[0] + 1) as usize).first() == (positions[0]
            + 1) as usize);
        assert(positions.update(0, (positions[0] + 1) as usize).drop_first()
            =~= positions.drop_first());
        assert(suffix_multiset(streams, positions.update(m, (positions[m] + 1) as usize))
            =~= suffix_multiset(streams, positions).remove(head));
    } else {
        lemma_suffix_pop(streams.drop_first(), positions.drop_first(), m - 1);
        assert(streams.drop_first()[m - 1] == streams[m]);
        assert(positions.drop_first()[m - 1] == positions[m]);
        assert(positions.update(m, (positions[m] + 1) as usize).first() == positions.first());
        assert(positions.update(m, (positions[m] + 1) as usize).drop_first()
            =~= positions.drop_first().update(m - 1, (positions[m] + 1) as usize));
        assert(suffix_multiset(streams, positions.update(m, (positions[m] + 1) as usize))
            =~= suffix_multiset(streams, positions).remove(head));
    }
}

/// If every stream is exhausted, nothing remains.
proof fn lemma_suffix_empty(streams: Seq<Seq<LshBucketRow>>, positions: Seq<usize>)
    requires
        streams.len() == positions.len(),
        forall|k: int| 0 <= k < streams.len() ==> #[trigger] positions[k] == streams[k].len(),
    ensures
        suffix_multiset(streams, positions) == Multiset::<LshBucketRow>::empty(),
    decreases streams.len(),
{
    broadcast use vstd::multiset::group_multiset_axioms;

    if streams.len() > 0 {
        lemma_suffix_empty(streams.drop_first(), positions.drop_first());
        assert(streams.first().skip(positions.first() as int) =~= Seq::<LshBucketRow>::empty());
        let e = Seq::<LshBucketRow>::empty();
        assert forall|x: LshBucketRow| e.to_multiset().count(x) == 0 by {
            vstd::seq_lib::to_multiset_contains(e, x);
            assert(!e.contains(x));
        }
        assert(e.to_multiset() =~= Multiset::<LshBucketRow>::empty());
        assert(suffix_multiset(streams, positions) =~= Multiset::<LshBucketRow>::empty());
    }
}

/// K-way merger over parsed run files. Streams the global minimum record;
/// the emitted stream is non-decreasing and, once drained, carries exactly
/// the records of all inputs.
pub struct LshBucketRowsFilesMerger {
    streams: Vec<Vec<LshBucketRow>>,
    positions: Vec<usize>,
    emitted: Ghost<Seq<LshBucketRow>>,
}

impl LshBucketRowsFilesMerger {
    /// The streams handed in at construction.
    pub closed spec fn streams_view(self) -> Seq<Seq<LshBucketRow>> {
        self.streams.deep_view()
    }

    /// The records emitted so far, in order.
    pub closed spec fn emitted_view(self) -> Seq<LshBucketRow> {
        self.emitted@
    }

    /// The records not yet emitted.
    pub closed spec fn remaining(self) -> Multiset<LshBucketRow> {
        suffix_multiset(self.streams.deep_view(), self.positions@)
    }

    /// The merger's invariant: positions in range, every stream sorted, the
    /// emitted prefix sorted, and every remaining record at least the last
    /// emitted one.
    pub closed spec fn wf(self) -> bool {
        &&& self.positions@.len() == self.streams@.len()
        &&& forall|k: int|
            0 <= k < self.streams@.len() ==> #[trigger] self.positions@[k]
                <= self.streams.deep_view()[k].len()
        &&& forall|k: int| 0 <= k < self.streams@.len() ==> rows_sorted(#[trigger] self.streams.deep_view()[k])
        &&& rows_sorted(self.emitted@)
        &&& forall|k: int, j: int|
            0 <= k < self.streams@.len() && self.positions@[k] <= j < self.streams.deep_view()[k].len()
                && self.emitted@.len() > 0 ==> row_le(
                self.emitted@.last(),
                #[trigger] self.streams.deep_view()[k][j],
            )
    }

    /// Primes the merger over parsed, sorted run files.
    pub fn new(streams: Vec<Vec<LshBucketRow>>) -> (r: LshBucketRowsFilesMerger)
        requires
            forall|k: int|
                0 <= k < streams@.len() ==> rows_sorted(#[trigger] streams.deep_view()[k]),
        ensures
            r.wf(),
            r.streams_view() == streams.deep_view(),
            r.emitted_view() == Seq::<LshBucketRow>::empty(),
            r.remaining() == suffix_multiset(
                streams.deep_view(),
                Seq::new(streams.deep_view().len(), |k: int| 0usize),
            ),
    {
        let n = streams.len();
        let mut positions: Vec<usize> = Vec::new();
        let mut k: usize = 0;
        while k < n
            invariant
                k <= n,
                positions@.len() == k,
                forall|q: int| 0 <= q < k ==> #[trigger] positions@[q] == 0usize,
            decreases n - k,
        {
            positions.push(0);
            k = k + 1;
        }
        proof {
            assert(positions@ =~= Seq::new(streams.deep_view().len(), |q: int| 0usize));
        }
        LshBucketRowsFilesMerger { streams, positions, emitted: Ghost(Seq::empty()) }
    }

    /// Whether any record is still to be emitted.
    pub fn has_data_left(&self) -> (r: bool)
        requires
            self.wf(),
        ensures
            r <==> self.remaining().len() > 0,
    {
        let n = self.streams.len();
        let mut k: usize = 0;
        while k < n
            invariant
                k <= n,
                self.wf(),
                n == self.streams@.len(),
                forall|q: int|
                    0 <= q < k ==> #[trigger] self.positions@[q] == self.streams.deep_view()[q].len(),
            decreases n - k,
        {
            if self.positions[k] < self.streams[k].len() {
                proof {
                    lemma_some_left(self.streams.deep_view(), self.positions@, k as int);
                }
                return true;
            }
            proof {
                assert(self.streams.deep_view()[k as int].len() == self.streams@[k as int]@.len());
            }
            k = k + 1;
        }
        proof {
            lemma_suffix_empty(self.streams.deep_view(), self.positions@);
        }
        false
    }

    /// Emits the least remaining record. The emitted stream stays
    /// non-decreasing, and the record moves from the remaining multiset to
    /// the emitted sequence.
    pub fn next(&mut self) -> (r: LshBucketRow)
        requires
            old(self).wf(),
            old(self).remaining().len() > 0,
        ensures
            final(self).wf(),
            final(self).streams_view() == old(self).streams_view(),
            final(self).emitted_view() == old(self).emitted_view().push(r),
            old(self).remaining().count(r) > 0,
            final(self).remaining() == old(self).remaining().remove(r),
            rows_sorted(final(self).emitted_view()),
    {
        let n = self.streams.len();
        let mut best: usize = 0;
        let mut found = false;
        let mut k: usize = 0;
        while k < n
            invariant
                k <= n,
                old(self).wf(),
                *self == *old(self),
                n == self.streams@.len(),
                found ==> best < k && self.positions@[best as int]
                    < self.streams.deep_view()[best as int].len(),
                found ==> forall|q: int|
                    0 <= q < k && self.positions@[q] < self.streams.deep_view()[q].len()
                        ==> row_le(
                        self.streams.deep_view()[best as int][self.positions@[best as int] as int],
                        #[trigger] self.streams.deep_view()[q][self.positions@[q] as int],
                    ),
                !found ==> forall|q: int|
                    0 <= q < k ==> #[trigger] self.positions@[q]
                        == self.streams.deep_view()[q].len(),
            decreases n - k,
        {
            if self.positions[k] < self.streams[k].len() {
                if !found {
                    best = k;
                    found = true;
                } else {
                    let ghost prev = best as int;
                    let cand = self.streams[k][self.positions[k]];
                    let cur = self.streams[best][self.positions[best]];
                    if cand.le(&cur) {
                        best = k;
                    }
                    proof {
                        let sv = self.streams.deep_view();
                        let ghost ck = sv[k as int][self.positions@[k as int] as int];
                        let ghost cp = sv[prev][self.positions@[prev] as int];
                        assert(ck == cand && cp == cur);
                        if best == k {
                            assert forall|q: int|
                                0 <= q < k + 1 && self.positions@[q] < sv[q].len() implies row_le(
                                sv[best as int][self.positions@[best as int] as int],
                                #[trigger] sv[q][self.positions@[q] as int],
                            ) by {
                                if q < k {
                                    lemma_row_le_trans(
                                        ck,
                                        cp,
                                        sv[q][self.positions@[q] as int],
                                    );
                                }
                            }
                        } else {
                            lemma_row_le_total(ck, cp);
                            assert(row_le(cp, ck));
                            assert forall|q: int|
                                0 <= q < k + 1 && self.positions@[q] < sv[q].len() implies row_le(
                                sv[best as int][self.positions@[best as int] as int],
                                #[trigger] sv[q][self.positions@[q] as int],
                            ) by {}
                        }
                    }
                }
            }
            k = k + 1;
        }
        proof {
            if !found {
                lemma_suffix_empty(self.streams.deep_view(), self.positions@);
                assert(false);
            }
        }
        let p = self.positions[best];
        let len_b = self.streams[best].len();
        proof {
            assert(self.streams.deep_view()[best as int].len() == self.streams@[best as int]@.len());
            assert(p < len_b);
        }
        let r = self.streams[best][p];
        proof {
            lemma_suffix_pop(self.streams.deep_view(), self.positions@, best as int);
        }
        let ghost old_positions = self.positions@;
        self.positions[best] = p + 1;
        proof {
            assert(self.positions@ =~= old_positions.update(best as int, (p + 1) as usize));
        }
        let ghost old_emitted = self.emitted@;
        self.emitted = Ghost(old_emitted.push(r));
        proof {
            assert forall|kk: int, j: int|
                0 <= kk < self.streams@.len() && self.positions@[kk] <= j
                    < self.streams.deep_view()[kk].len() && self.emitted@.len() > 0 implies row_le(
                self.emitted@.last(),
                #[trigger] self.streams.deep_view()[kk][j],
            ) by {
                let head = self.streams.deep_view()[kk][old_positions[kk] as int];
                if old_positions[kk] < j {
                    assert(row_le(
                        head,
                        self.streams.deep_view()[kk][j],
                    ));
                }
                assert(row_le(r, self.streams.deep_view()[kk][j]));
            }
            assert forall|i: int, j: int|
                0 <= i < j < self.emitted@.len() implies row_le(
                #[trigger] self.emitted@[i],
                #[trigger] self.emitted@[j],
            ) by {
                if j < self.emitted@.len() - 1 {
                    assert(row_le(old_emitted[i], old_emitted[j]));
                } else if i < self.emitted@.len() - 1 {
                    assert(self.emitted@[j] == r);
                    if old_emitted.len() > 0 {
                        assert(row_le(old_emitted.last(), r));
                        if i < old_emitted.len() - 1 {
                            lemma_row_le_trans(old_emitted[i], old_emitted.last(), r);
                        }
                    }
                }
            }
        }
        r
    }
}

/// The natural order is total.
pub proof fn lemma_row_le_total(a: LshBucketRow, b: LshBucketRow)
    ensures
        row_le(a, b) || row_le(b, a),
{
}

/// A stream with its position short of its end leaves something remaining.
proof fn lemma_some_left(streams: Seq<Seq<LshBucketRow>>, positions: Seq<usize>, m: int)
    requires
        streams.len() == positions.len(),
        0 <= m < streams.len(),
        positions[m] < streams[m].len(),
        forall|k: int| 0 <= k < streams.len() ==> #[trigger] positions[k] <= streams[k].len(),
    ensures
        suffix_multiset(streams, positions).len() > 0,
    decreases streams.len(),
{
    broadcast use vstd::seq_lib::group_to_multiset_ensures;
    broadcast use vstd::multiset::group_multiset_axioms;

    if m == 0 {
        let suf = streams.first().skip(positions.first() as int);
        vstd::seq_lib::to_multiset_len(suf);
        assert(suf.len() > 0);
    } else {
        lemma_some_left(streams.drop_first(), positions.drop_first(), m - 1);
    }
}

} // verus!
