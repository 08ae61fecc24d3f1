//! The pipeline stages over plain values: signing a file's rows into bucket
//! records, merging and grouping the sorted run files, planning a resumed
//! signer run, slicing work for the worker pool, and naming output files.
//! Reading and writing the actual files is the caller's part.
use vstd::prelude::*;

verus! {

use vstd::multiset::Multiset;
use crate::codec::decode_rows_spec;
use crate::codec::encode_groups;
use crate::codec::groups_bytes;
use crate::codec::LshBucketsMeta;
use crate::compress::zstd_unframed;
use crate::error::DedupError;
use crate::groups::find_groups;
use crate::groups::groups_of;
use crate::groups::groups_seq;
use crate::groups::DuplicatesGroup;
use crate::hashes::md5_hex;
use crate::hashes::md5_hex_of;
use crate::hashes::path_hash_of;
use crate::lsh::doc_rows;
use crate::lsh::lsh_rows_for_text;
use crate::lsh::LshBucketRow;
use crate::merge::parse_run_file;
use crate::merge::suffix_multiset;
use crate::merge::LshBucketRowsFilesMerger;
use crate::minhash::PermutationFamily;
use crate::sort::rows_sorted;
use crate::text::str_chars;
use crate::text::string_from_chars;
use crate::text::strings_equal;
use vstd::string::StrSliceExecFns;

/// The bucket records one document contributes, keyed by its file's path.
pub open spec fn doc_rows_of(path: Seq<char>, text: Seq<char>) -> Seq<LshBucketRow> {
    doc_rows(text, path_hash_of(path))
}

/// The bucket records one input file contributes: its documents' records,
/// in row order.
pub open spec fn file_rows(path: Seq<char>, texts: Seq<Seq<char>>) -> Seq<LshBucketRow>
    decreases texts.len(),
{
    if texts.len() == 0 {
        Seq::empty()
    } else {
        file_rows(path, texts.drop_last()) + doc_rows_of(path, texts.last())
    }
}

/// Signs one input file: emits, for every row of its text column, the 17
/// bucket records of that row.
pub fn parquet_file_rows(path: &str, texts: &Vec<String>, family: &PermutationFamily) -> (rows:
    Vec<LshBucketRow>)
    requires
        family.wf(),
    ensures
        rows@ == file_rows(path@, texts.deep_view()),
{
    let ghost tv = texts.deep_view();
    let path_hash = crate::hashes::hash_path(path);
    let mut rows: Vec<LshBucketRow> = Vec::new();
    let mut i: usize = 0;
    proof {
        assert(tv.take(0) =~= Seq::<Seq<char>>::empty());
        assert(rows@ =~= file_rows(path@, tv.take(0)));
    }
    while i < texts.len()
        invariant
            i <= texts@.len(),
            tv == texts.deep_view(),
            tv.len() == texts@.len(),
            family.wf(),
            path_hash == path_hash_of(path@),
            rows@ == file_rows(path@, tv.take(i as int)),
        decreases texts@.len() - i,
    {
        proof {
            assert(tv[i as int] == texts@[i as int]@);
        }
        let mut doc = lsh_rows_for_text(texts[i].as_str(), path_hash, family);
        rows.append(&mut doc);
        proof {
            assert(tv.take(i as int + 1).drop_last() =~= tv.take(i as int));
            assert(tv.take(i as int + 1).last() == tv[i as int]);
        }
        i = i + 1;
    }
    proof {
        assert(tv.take(tv.len() as int) =~= tv);
    }
    rows
}

/// The records of a set of run streams, as one multiset.
pub open spec fn streams_multiset(streams: Seq<Seq<LshBucketRow>>) -> Multiset<LshBucketRow>
    decreases streams.len(),
{
    if streams.len() == 0 {
        Multiset::empty()
    } else {
        streams.first().to_multiset().add(streams_multiset(streams.drop_first()))
    }
}

proof fn lemma_streams_multiset_zero(streams: Seq<Seq<LshBucketRow>>, positions: Seq<usize>)
    requires
        positions.len() == streams.len(),
        forall|k: int| 0 <= k < positions.len() ==> #[trigger] positions[k] == 0usize,
    ensures
        suffix_multiset(streams, positions) == streams_multiset(streams),
    decreases streams.len(),
{
    if streams.len() > 0 {
        lemma_streams_multiset_zero(streams.drop_first(), positions.drop_first());
        assert(streams.first().skip(0) =~= streams.first());
    }
}

/// Drains a merger over sorted streams: the result is the globally sorted
/// stream of exactly the input records.
pub fn merge_streams(streams: Vec<Vec<LshBucketRow>>) -> (r: Vec<LshBucketRow>)
    requires
        forall|k: int|
            0 <= k < streams@.len() ==> rows_sorted(#[trigger] streams.deep_view()[k]),
    ensures
        rows_sorted(r@),
        r@.to_multiset() == streams_multiset(streams.deep_view()),
{
    broadcast use vstd::seq_lib::group_to_multiset_ensures;
    broadcast use vstd::multiset::group_multiset_axioms;

    let ghost sv = streams.deep_view();
    let mut merger = LshBucketRowsFilesMerger::new(streams);
    proof {
        lemma_streams_multiset_zero(sv, Seq::new(sv.len(), |k: int| 0usize));
    }
    let mut out: Vec<LshBucketRow> = Vec::new();
    while merger.has_data_left()
        invariant
            merger.wf(),
            merger.streams_view() == sv,
            out@ == merger.emitted_view(),
            rows_sorted(out@),
            merger.remaining().add(out@.to_multiset()) == streams_multiset(sv),
        decreases merger.remaining().len(),
    {
        let ghost before_rem = merger.remaining();
        let ghost before_out = out@;
        let r = merger.next();
        out.push(r);
        proof {
            broadcast use vstd::seq_lib::group_to_multiset_ensures;
            broadcast use vstd::multiset::group_multiset_axioms;

            assert(out@ =~= before_out.push(r));
            assert(out@.to_multiset() =~= before_out.to_multiset().insert(r));
            assert(before_rem.count(r) > 0);
            assert(merger.remaining().add(out@.to_multiset()) =~= before_rem.add(
                before_out.to_multiset(),
            ));
        }
    }
    proof {
        broadcast use vstd::seq_lib::group_to_multiset_ensures;
        broadcast use vstd::multiset::group_multiset_axioms;

        assert(merger.remaining().len() == 0);
        assert forall|x: LshBucketRow| merger.remaining().count(x) == 0 by {
            if merger.remaining().count(x) > 0 {
                vstd::multiset::axiom_count_le_len(merger.remaining(), x);
            }
        }
        assert(merger.remaining() =~= Multiset::<LshBucketRow>::empty());
        assert(Multiset::<LshBucketRow>::empty().add(out@.to_multiset())
            =~= out@.to_multiset());
        assert(rows_sorted(merger.emitted_view()));
    }
    out
}

/// What parsing one run file yields, if anything.
pub open spec fn parsed_run(b: Seq<u8>) -> Option<Seq<LshBucketRow>> {
    match zstd_unframed(b) {
        Option::None => None,
        Option::Some(p) => decode_rows_spec(p),
    }
}

/// The error parsing one run file produces, if any.
pub open spec fn run_parse_error(b: Seq<u8>) -> Option<DedupError> {
    match zstd_unframed(b) {
        Option::None => Some(DedupError::CompressionFailed),
        Option::Some(p) => match decode_rows_spec(p) {
            Option::None => Some(DedupError::CorruptRunFile),
            Option::Some(rs) => if !rows_sorted(rs) {
                Some(DedupError::UnsortedRunFile)
            } else {
                None
            },
        },
    }
}

/// Merges all run files and emits the duplicate groups and their encoded
/// payload: there is a sorted merged stream carrying exactly the parsed
/// records, and the groups are precisely the maximal same-bucket runs of
/// two or more records in it.
pub fn find_duplicates_in_lsh_buckets_files(run_files: &Vec<Vec<u8>>) -> (r: Result<
    (Vec<DuplicatesGroup>, Vec<u8>),
    DedupError,
>)
    ensures
        match r {
            Ok(out) => {
                &&& forall|k: int|
                    0 <= k < run_files@.len() ==> run_parse_error(
                        #[trigger] run_files@[k]@,
                    ) is None
                &&& exists|merged: Seq<LshBucketRow>, streams: Seq<Seq<LshBucketRow>>|
                    {
                        &&& streams.len() == run_files@.len()
                        &&& forall|k: int|
                            0 <= k < streams.len() ==> parsed_run(run_files@[k]@) == Some(
                                #[trigger] streams[k],
                            )
                        &&& #[trigger] rows_sorted(merged)
                        &&& merged.to_multiset() == #[trigger] streams_multiset(streams)
                        &&& groups_seq(out.0@) == groups_of(merged)
                        &&& out.1@ == groups_bytes(groups_of(merged))
                    }
            },
            Err(e) => exists|k: int|
                0 <= k < run_files@.len() && run_parse_error(#[trigger] run_files@[k]@) == Some(
                    e,
                ),
        },
{
    let mut streams: Vec<Vec<LshBucketRow>> = Vec::new();
    let mut k: usize = 0;
    while k < run_files.len()
        invariant
            k <= run_files@.len(),
            streams@.len() == k,
            forall|q: int|
                0 <= q < k ==> run_parse_error(#[trigger] run_files@[q]@) is None,
            forall|q: int|
                0 <= q < k ==> parsed_run(run_files@[q]@) == Some(
                    #[trigger] streams.deep_view()[q],
                ),
            forall|q: int|
                0 <= q < k ==> rows_sorted(#[trigger] streams.deep_view()[q]),
        decreases run_files@.len() - k,
    {
        let ghost before = streams.deep_view();
        match parse_run_file(&run_files[k]) {
            Ok(rows) => {
                let ghost rv = rows@;
                streams.push(rows);
                proof {
                    assert(streams.deep_view() =~~= before.push(rv));
                }
            },
            Err(e) => {
                return Err(e);
            },
        }
        k = k + 1;
    }
    let ghost sv = streams.deep_view();
    let merged = merge_streams(streams);
    let groups = find_groups(&merged);
    let payload = encode_groups(&groups);
    proof {
        assert(rows_sorted(merged@));
        assert(merged@.to_multiset() == streams_multiset(sv));
        assert(groups_seq(groups@) == groups_of(merged@));
        assert(payload@ == groups_bytes(groups_of(merged@)));
    }
    Ok((groups, payload))
}

/// The decisions of a resumed signer run over an existing working
/// directory: which metas are stale, which run files are orphans, and which
/// inputs still need signing.
pub struct ResumePlan {
    pub meta_is_stale: Vec<bool>,
    pub rows_file_is_orphan: Vec<bool>,
    pub input_needs_processing: Vec<bool>,
}

/// Whether a surviving meta claims this run file name.
pub open spec fn known_rows_file(
    metas: Seq<LshBucketsMeta>,
    column: Seq<char>,
    name: Seq<char>,
) -> bool {
    exists|j: int|
        0 <= j < metas.len() && (#[trigger] metas[j]).column_name@ == column && name
            == metas[j].file_prefix@ + ".lsh_rows"@
}

/// Whether a surviving meta lists this input as already processed.
pub open spec fn input_processed(
    metas: Seq<LshBucketsMeta>,
    column: Seq<char>,
    input: Seq<char>,
) -> bool {
    exists|j: int|
        0 <= j < metas.len() && (#[trigger] metas[j]).column_name@ == column
            && metas[j].files.deep_view().contains(input)
}

/// Plans a resumed signer run: a meta is stale exactly when its column
/// differs from the requested one; a run file is an orphan exactly when no
/// surviving meta claims its name; an input needs signing exactly when no
/// surviving meta lists it.
pub fn plan_resume(
    metas: &Vec<LshBucketsMeta>,
    column_name: &String,
    rows_file_names: &Vec<String>,
    input_files: &Vec<String>,
) -> (r: ResumePlan)
    ensures
        r.meta_is_stale@.len() == metas@.len(),
        forall|k: int|
            0 <= k < metas@.len() ==> #[trigger] r.meta_is_stale@[k] == ((
            #[trigger] metas@[k]).column_name@ != column_name@),
        r.rows_file_is_orphan@.len() == rows_file_names@.len(),
        forall|k: int|
            0 <= k < rows_file_names@.len() ==> #[trigger] r.rows_file_is_orphan@[k]
                == !known_rows_file(metas@, column_name@, rows_file_names@[k]@),
        r.input_needs_processing@.len() == input_files@.len(),
        forall|k: int|
            0 <= k < input_files@.len() ==> #[trigger] r.input_needs_processing@[k]
                == !input_processed(metas@, column_name@, input_files@[k]@),
{
    let mut meta_is_stale: Vec<bool> = Vec::new();
    let mut k: usize = 0;
    while k < metas.len()
        invariant
            k <= metas@.len(),
            meta_is_stale@.len() == k,
            forall|q: int|
                0 <= q < k ==> #[trigger] meta_is_stale@[q] == ((
                #[trigger] metas@[q]).column_name@ != column_name@),
        decreases metas@.len() - k,
    {
        let stale = !strings_equal(&metas[k].column_name, column_name);
        meta_is_stale.push(stale);
        k = k + 1;
    }
    let mut rows_file_is_orphan: Vec<bool> = Vec::new();
    let mut i: usize = 0;
    while i < rows_file_names.len()
        invariant
            i <= rows_file_names@.len(),
            rows_file_is_orphan@.len() == i,
            forall|q: int|
                0 <= q < i ==> #[trigger] rows_file_is_orphan@[q] == !known_rows_file(
                    metas@,
                    column_name@,
                    rows_file_names@[q]@,
                ),
        decreases rows_file_names@.len() - i,
    {
        let name = &rows_file_names[i];
        let mut known = false;
        let mut j: usize = 0;
        while j < metas.len()
            invariant
                j <= metas@.len(),
                name == &rows_file_names@[i as int],
                i < rows_file_names@.len(),
                known ==> known_rows_file(metas@, column_name@, name@),
                !known ==> forall|q: int|
                    0 <= q < j ==> !((#[trigger] metas@[q]).column_name@ == column_name@ && name@
                        == metas@[q].file_prefix@ + ".lsh_rows"@),
            decreases metas@.len() - j,
        {
            if strings_equal(&metas[j].column_name, column_name) {
                let mut expected = str_chars(metas[j].file_prefix.as_str());
                let mut suffix = str_chars(".lsh_rows");
                expected.append(&mut suffix);
                let expected_name = string_from_chars(&expected);
                proof {
                    assert(expected_name@ =~= metas@[j as int].file_prefix@ + ".lsh_rows"@);
                }
                if strings_equal(&expected_name, name) {
                    known = true;
                }
            }
            j = j + 1;
        }
        rows_file_is_orphan.push(!known);
        i = i + 1;
    }
    let mut input_needs_processing: Vec<bool> = Vec::new();
    let mut i2: usize = 0;
    while i2 < input_files.len()
        invariant
            i2 <= input_files@.len(),
            input_needs_processing@.len() == i2,
            forall|q: int|
                0 <= q < i2 ==> #[trigger] input_needs_processing@[q] == !input_processed(
                    metas@,
                    column_name@,
                    input_files@[q]@,
                ),
        decreases input_files@.len() - i2,
    {
        let input = &input_files[i2];
        let mut processed = false;
        let mut j: usize = 0;
        while j < metas.len()
            invariant
                j <= metas@.len(),
                input == &input_files@[i2 as int],
                i2 < input_files@.len(),
                processed ==> input_processed(metas@, column_name@, input@),
                !processed ==> forall|q: int|
                    0 <= q < j ==> !((#[trigger] metas@[q]).column_name@ == column_name@
                        && metas@[q].files.deep_view().contains(input@)),
            decreases metas@.len() - j,
        {
            let col_ok = strings_equal(&metas[j].column_name, column_name);
            let ghost processed_before = processed;
            if col_ok {
                let files = &metas[j].files;
                let mut t: usize = 0;
                let ghost fv = metas@[j as int].files.deep_view();
                while t < files.len()
                    invariant
                        t <= files@.len(),
                        files == &metas@[j as int].files,
                        j < metas@.len(),
                        input == &input_files@[i2 as int],
                        i2 < input_files@.len(),
                        metas@[j as int].column_name@ == column_name@,
                        fv == metas@[j as int].files.deep_view(),
                        fv.len() == files@.len(),
                        processed_before ==> processed,
                        processed ==> input_processed(metas@, column_name@, input@),
                        !processed ==> forall|w: int| 0 <= w < t ==> fv[w] != input@,
                    decreases files@.len() - t,
                {
                    proof {
                        assert(fv[t as int] == files@[t as int]@);
                    }
                    if strings_equal(&files[t], input) {
                        processed = true;
                        proof {
                            assert(fv[t as int] == input@);
                            assert(metas@[j as int].files.deep_view()[t as int] == input@);
                            assert(metas@[j as int].files.deep_view().contains(input@));
                            assert(metas@[j as int].column_name@ == column_name@);
                        }
                    }
                    t = t + 1;
                }
                proof {
                    if !processed {
                        assert(forall|w: int| 0 <= w < fv.len() ==> fv[w] != input@);
                        assert(!metas@[j as int].files.deep_view().contains(input@)) by {
                            if metas@[j as int].files.deep_view().contains(input@) {
                                let w = choose|w: int|
                                    0 <= w < metas@[j as int].files.deep_view().len()
                                        && metas@[j as int].files.deep_view()[w] == input@;
                                assert(fv[w] != input@);
                            }
                        }
                    }
                }
            }
            proof {
                if !processed {
                    if col_ok {
                        assert(!metas@[j as int].files.deep_view().contains(input@));
                    } else {
                        assert(metas@[j as int].column_name@ != column_name@);
                    }
                    assert forall|q: int|
                        0 <= q < j + 1 implies !((#[trigger] metas@[q]).column_name@
                        == column_name@ && metas@[q].files.deep_view().contains(input@)) by {
                        if q == j {
                            assert(!(metas@[q].column_name@ == column_name@
                                && metas@[q].files.deep_view().contains(input@)));
                        } else {
                            assert(0 <= q < j);
                            assert(!((metas@[q]).column_name@ == column_name@
                                && metas@[q].files.deep_view().contains(input@)));
                        }
                    }
                }
            }
            j = j + 1;
        }
        input_needs_processing.push(!processed);
        i2 = i2 + 1;
    }
    ResumePlan { meta_is_stale, rows_file_is_orphan, input_needs_processing }
}

/// The worker chunk size: `max(n / n_workers, 1)`.
pub open spec fn chunk_size(n: nat, n_workers: nat) -> nat {
    if n / n_workers >= 1 {
        n / n_workers
    } else {
        1
    }
}

/// Slices `n` work items into contiguous chunks of `max(n / n_workers, 1)`
/// items, the last chunk taking the remainder.
pub fn chunk_bounds(n: usize, n_workers: usize) -> (r: Vec<(usize, usize)>)
    requires
        n_workers >= 1,
    ensures
        n == 0 ==> r@.len() == 0,
        n > 0 ==> r@.len() > 0 && r@[0].0 == 0 && r@[r@.len() - 1].1 == n,
        forall|k: int| 0 <= k < r@.len() ==> (#[trigger] r@[k]).0 < r@[k].1 <= n,
        forall|k: int| 0 <= k < r@.len() - 1 ==> (#[trigger] r@[k]).1 == r@[k + 1].0,
        forall|k: int|
            0 <= k < r@.len() - 1 ==> (#[trigger] r@[k]).1 - r@[k].0 == chunk_size(
                n as nat,
                n_workers as nat,
            ),
        forall|k: int|
            0 <= k < r@.len() ==> (#[trigger] r@[k]).1 - r@[k].0 <= chunk_size(
                n as nat,
                n_workers as nat,
            ),
{
    let per = if n / n_workers >= 1 {
        n / n_workers
    } else {
        1
    };
    proof {
        assert(per == chunk_size(n as nat, n_workers as nat));
    }
    let mut r: Vec<(usize, usize)> = Vec::new();
    let mut start: usize = 0;
    while start < n
        invariant
            per >= 1,
            per == chunk_size(n as nat, n_workers as nat),
            start <= n,
            n == 0 ==> r@.len() == 0,
            start == 0 ==> r@.len() == 0,
            start > 0 ==> r@.len() > 0 && r@[0].0 == 0 && r@[r@.len() - 1].1 == start,
            forall|k: int| 0 <= k < r@.len() ==> (#[trigger] r@[k]).0 < r@[k].1 <= n,
            forall|k: int| 0 <= k < r@.len() - 1 ==> (#[trigger] r@[k]).1 == r@[k + 1].0,
            forall|k: int|
                0 <= k < r@.len() ==> (#[trigger] r@[k]).1 - r@[k].0 == per || r@[k].1 == n,
            forall|k: int| 0 <= k < r@.len() ==> (#[trigger] r@[k]).1 - r@[k].0 <= per,
            r@.len() > 0 ==> r@[r@.len() - 1].1 == start,
        decreases n - start,
    {
        let end = if n - start < per {
            n
        } else {
            start + per
        };
        r.push((start, end));
        start = end;
    }
    proof {
        assert forall|k: int|
            0 <= k < r@.len() - 1 implies (#[trigger] r@[k]).1 - r@[k].0 == per by {
            assert(r@[k].1 == r@[k + 1].0);
            assert(r@[k + 1].0 < r@[k + 1].1 <= n);
        }
    }
    r
}

/// The output file for an input path: the MD5 hex digest of the path under
/// the output directory.
pub fn output_file_path(out_dir: &str, input_path: &str) -> (r: String)
    ensures
        r@ == out_dir@ + seq!['/'] + md5_hex_of(vstd::utf8::encode_utf8(input_path@))
            + ".parquet.zst"@,
{
    let mut v = str_chars(out_dir);
    v.push('/');
    let digest = md5_hex(input_path.as_bytes());
    let mut dchars = str_chars(digest.as_str());
    v.append(&mut dchars);
    let mut suffix = str_chars(".parquet.zst");
    v.append(&mut suffix);
    let r = string_from_chars(&v);
    proof {
        assert(r@ =~= out_dir@ + seq!['/'] + md5_hex_of(vstd::utf8::encode_utf8(input_path@))
            + ".parquet.zst"@);
    }
    r
}

/// One signed input: its canonical path and its rows' texts.
pub struct CorpusFile {
    pub path: Seq<char>,
    pub texts: Seq<Seq<char>>,
}

/// All bucket records a corpus emits, as one multiset.
pub open spec fn corpus_multiset(files: Seq<CorpusFile>) -> Multiset<LshBucketRow>
    decreases files.len(),
{
    if files.len() == 0 {
        Multiset::empty()
    } else {
        corpus_multiset(files.drop_last()).add(
            file_rows(files.last().path, files.last().texts).to_multiset(),
        )
    }
}

proof fn lemma_corpus_multiset_pull(files: Seq<CorpusFile>, i: int)
    requires
        0 <= i < files.len(),
    ensures
        corpus_multiset(files) == corpus_multiset(files.remove(i)).add(
            file_rows(files[i].path, files[i].texts).to_multiset(),
        ),
    decreases files.len(),
{
    broadcast use vstd::multiset::group_multiset_axioms;

    if i == files.len() - 1 {
        assert(files.remove(i) =~= files.drop_last());
    } else {
        let dl = files.drop_last();
        lemma_corpus_multiset_pull(dl, i);
        assert(files.remove(i).drop_last() =~= dl.remove(i));
        assert(files.remove(i).last() == files.last());
        assert(corpus_multiset(files.remove(i)) == corpus_multiset(dl.remove(i)).add(
            file_rows(files.last().path, files.last().texts).to_multiset(),
        ));
        assert(corpus_multiset(files) =~= corpus_multiset(files.remove(i)).add(
            file_rows(files[i].path, files[i].texts).to_multiset(),
        ));
    }
}

/// Signing the same corpus in any order — any shuffle, any partition into
/// workers, any spill threshold — emits the same multiset of bucket
/// records: each file's records are a function of its path and texts alone,
/// and the total is order-independent.
pub proof fn lemma_corpus_rows_any_order(f1: Seq<CorpusFile>, f2: Seq<CorpusFile>)
    requires
        f1.to_multiset() == f2.to_multiset(),
    ensures
        corpus_multiset(f1) == corpus_multiset(f2),
    decreases f1.len(),
{
    broadcast use vstd::seq_lib::group_to_multiset_ensures;
    broadcast use vstd::multiset::group_multiset_axioms;

    if f1.len() == 0 {
        assert(f2.to_multiset().len() == 0);
        assert(f2.len() == 0);
    } else {
        let x = f1.last();
        assert(f1.contains(x));
        assert(f1.to_multiset().count(x) > 0);
        assert(f2.to_multiset().count(x) > 0);
        assert(f2.contains(x));
        let j = choose|j: int| 0 <= j < f2.len() && f2[j] == x;
        assert(f1.remove(f1.len() - 1) =~= f1.drop_last());
        assert(f1.drop_last().to_multiset() == f1.to_multiset().remove(x));
        assert(f2.remove(j).to_multiset() == f2.to_multiset().remove(x));
        lemma_corpus_rows_any_order(f1.drop_last(), f2.remove(j));
        lemma_corpus_multiset_pull(f2, j);
    }
}

} // verus!
