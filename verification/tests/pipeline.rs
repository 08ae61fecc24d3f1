use deduplicate::filters::{apply_filter_to_texts, build_filters};
use deduplicate::groups::find_groups;
use deduplicate::hashes::{content_hash, hash_path};
use deduplicate::lsh::LshBucketRow;
use deduplicate::merge::{parse_run_file, LshBucketRowsFilesMerger};
use deduplicate::minhash::PermutationFamily;
use deduplicate::error::DedupError;
use deduplicate::operations::{find_duplicates_in_lsh_buckets_files, parquet_file_rows};
use deduplicate::writer::LshBucketRowsFilesWriter;

fn sign_corpus(
    files: &[(&str, Vec<&str>)],
    limit: u64,
) -> (Vec<Vec<u8>>, Vec<Vec<u8>>) {
    let family = PermutationFamily::new();
    let mut writer = LshBucketRowsFilesWriter::new("/tmp/work/raw_lsh_buckets".to_string(), limit);
    let mut run_payloads = Vec::new();
    let mut meta_payloads = Vec::new();
    for (path, texts) in files {
        let texts: Vec<String> = texts.iter().map(|t| t.to_string()).collect();
        let rows = parquet_file_rows(path, &texts, &family);
        let spill = writer
            .write_rows(&path.to_string(), &"content".to_string(), rows)
            .unwrap();
        if let Some(sp) = spill {
            run_payloads.push(sp.rows_payload);
            meta_payloads.push(sp.meta_payload);
        }
    }
    if let Some(sp) = writer.flush().unwrap() {
        run_payloads.push(sp.rows_payload);
        meta_payloads.push(sp.meta_payload);
    }
    (run_payloads, meta_payloads)
}

#[test]
fn two_identical_documents_form_one_group_and_one_row_is_filtered() {
    let corpus = [("/in/a", vec!["hello world"]), ("/in/b", vec!["hello world"])];
    let (runs, _metas) = sign_corpus(&corpus, 1 << 30);
    let (groups, _payload) = find_duplicates_in_lsh_buckets_files(&runs).unwrap();
    assert!(!groups.is_empty());
    for g in &groups {
        assert_eq!(g.group.len(), 2);
        assert_eq!(g.group[0].content_hash, content_hash("hello world"));
        assert_eq!(g.group[1].content_hash, content_hash("hello world"));
    }
    let filters = build_filters(&groups);
    let mut total = 0u64;
    let mut dropped = 0u64;
    let mut kept_rows = 0usize;
    for (path, texts) in &corpus {
        let ph = hash_path(path);
        let filter = filters
            .iter()
            .find(|f| f.path_hash == ph)
            .map(|f| f.hashes.clone())
            .unwrap_or_default();
        let texts: Vec<String> = texts.iter().map(|t| t.to_string()).collect();
        let (kept, t, d) = apply_filter_to_texts(texts, &filter);
        total += t;
        dropped += d;
        kept_rows += kept.len();
    }
    assert_eq!(total, 2);
    assert_eq!(dropped, 1);
    assert_eq!(kept_rows, 1);
}

#[test]
fn two_disjoint_documents_form_no_groups() {
    let corpus = [
        ("/in/a", vec!["alpha beta gamma"]),
        ("/in/b", vec!["delta epsilon zeta"]),
    ];
    let (runs, _metas) = sign_corpus(&corpus, 1 << 30);
    let (groups, payload) = find_duplicates_in_lsh_buckets_files(&runs).unwrap();
    assert!(groups.is_empty());
    assert!(payload.is_empty());
    let filters = build_filters(&groups);
    assert!(filters.is_empty());
}

#[test]
fn near_duplicates_collide_in_at_least_one_band() {
    let base = "the quick brown fox jumps over a very lazy dog while twenty tokens of filler text keep the similarity high dog";
    let variant = "the quick brown fox jumps over a very lazy dog while twenty tokens of filler text keep the similarity high cat";
    let corpus = [("/in/a", vec![base]), ("/in/b", vec![variant])];
    let (runs, _metas) = sign_corpus(&corpus, 1 << 30);
    let (groups, _payload) = find_duplicates_in_lsh_buckets_files(&runs).unwrap();
    assert!(!groups.is_empty());
    let filters = build_filters(&groups);
    let mut dropped = 0u64;
    for (path, texts) in &corpus {
        let ph = hash_path(path);
        let filter = filters
            .iter()
            .find(|f| f.path_hash == ph)
            .map(|f| f.hashes.clone())
            .unwrap_or_default();
        let texts: Vec<String> = texts.iter().map(|t| t.to_string()).collect();
        let (_kept, _t, d) = apply_filter_to_texts(texts, &filter);
        dropped += d;
    }
    assert_eq!(dropped, 1);
}

#[test]
fn empty_corpus_produces_empty_groups_and_payload() {
    let runs: Vec<Vec<u8>> = Vec::new();
    let (groups, payload) = find_duplicates_in_lsh_buckets_files(&runs).unwrap();
    assert!(groups.is_empty());
    assert!(payload.is_empty());
}

#[test]
fn merged_stream_is_monotonically_non_decreasing() {
    let corpus = [
        ("/in/a", vec!["one two three", "four five six"]),
        ("/in/b", vec!["seven eight nine"]),
        ("/in/c", vec!["one two three"]),
    ];
    // A tiny spill threshold forces one run file per input.
    let (runs, _metas) = sign_corpus(&corpus, 1);
    assert!(runs.len() >= 2);
    let mut streams = Vec::new();
    for r in &runs {
        streams.push(parse_run_file(r).unwrap());
    }
    let mut merger = LshBucketRowsFilesMerger::new(streams);
    let mut prev: Option<LshBucketRow> = None;
    let mut count = 0usize;
    while merger.has_data_left() {
        let r = merger.next();
        if let Some(p) = prev {
            let le = p.bucket_index < r.bucket_index
                || (p.bucket_index == r.bucket_index
                    && (p.bucket_hash < r.bucket_hash
                        || (p.bucket_hash == r.bucket_hash
                            && (p.path_hash < r.path_hash
                                || (p.path_hash == r.path_hash
                                    && p.content_hash <= r.content_hash)))));
            assert!(le);
        }
        prev = Some(r);
        count += 1;
    }
    // Four documents, 17 records each.
    assert_eq!(count, 4 * 17);
}

#[test]
fn signer_output_is_independent_of_order_and_spill_threshold() {
    let corpus_one = [
        ("/in/a", vec!["one two three", "four five six"]),
        ("/in/b", vec!["seven eight nine"]),
    ];
    let corpus_two = [
        ("/in/b", vec!["seven eight nine"]),
        ("/in/a", vec!["one two three", "four five six"]),
    ];
    let (runs_one, _m1) = sign_corpus(&corpus_one, 1 << 30);
    let (runs_two, _m2) = sign_corpus(&corpus_two, 1);
    let collect = |runs: &Vec<Vec<u8>>| {
        let mut rows: Vec<(u8, u64, u16, u64)> = Vec::new();
        for r in runs {
            for row in parse_run_file(r).unwrap() {
                rows.push((row.bucket_index, row.bucket_hash, row.path_hash, row.content_hash));
            }
        }
        rows.sort();
        rows
    };
    assert_eq!(collect(&runs_one), collect(&runs_two));
}

#[test]
fn rerunning_group_discovery_gives_identical_payloads() {
    let corpus = [("/in/a", vec!["hello world"]), ("/in/b", vec!["hello world"])];
    let (runs, _metas) = sign_corpus(&corpus, 1 << 30);
    let (_g1, p1) = find_duplicates_in_lsh_buckets_files(&runs).unwrap();
    let (_g2, p2) = find_duplicates_in_lsh_buckets_files(&runs).unwrap();
    assert_eq!(p1, p2);
}

#[test]
fn writer_rejects_a_second_column_name() {
    let family = PermutationFamily::new();
    let mut writer = LshBucketRowsFilesWriter::new("/tmp/w".to_string(), 1 << 30);
    let texts = vec!["x".to_string()];
    let rows = parquet_file_rows("/in/a", &texts, &family);
    writer
        .write_rows(&"/in/a".to_string(), &"content".to_string(), rows)
        .unwrap();
    let rows2 = parquet_file_rows("/in/b", &texts, &family);
    let err = writer
        .write_rows(&"/in/b".to_string(), &"other".to_string(), rows2)
        .unwrap_err();
    assert_eq!(err, DedupError::ColumnMismatch);
}

#[test]
fn run_files_parse_back_to_sorted_records_and_metas_decode() {
    let corpus = [("/in/b", vec!["bee"]), ("/in/a", vec!["ay", "eh"])];
    let (runs, metas) = sign_corpus(&corpus, 1 << 30);
    assert_eq!(runs.len(), 1);
    assert_eq!(metas.len(), 1);
    let rows = parse_run_file(&runs[0]).unwrap();
    assert_eq!(rows.len(), 3 * 17);
    let meta_bytes = zstd::stream::decode_all(metas[0].as_slice()).unwrap();
    let meta = deduplicate::codec::decode_meta(&meta_bytes).unwrap();
    assert_eq!(meta.column_name, "content");
    assert_eq!(meta.files, vec!["/in/a".to_string(), "/in/b".to_string()]);
    assert_eq!(meta.file_prefix.len(), 36);
}

#[test]
fn parse_run_file_reports_each_corruption() {
    let garbage = vec![1u8, 2, 3];
    assert_eq!(parse_run_file(&garbage).unwrap_err(), DedupError::CompressionFailed);
    let partial = zstd::stream::encode_all(&[1u8, 2, 3][..], 1).unwrap();
    assert_eq!(parse_run_file(&partial).unwrap_err(), DedupError::CorruptRunFile);
    let a = LshBucketRow::new(5, 5, 5, 5);
    let b = LshBucketRow::new(1, 1, 1, 1);
    let unsorted = deduplicate::codec::encode_rows(&vec![a, b]);
    let compressed = zstd::stream::encode_all(unsorted.as_slice(), 1).unwrap();
    assert_eq!(
        parse_run_file(&compressed).unwrap_err(),
        DedupError::UnsortedRunFile
    );
}

#[test]
fn groups_keep_the_minimum_content_hash_first() {
    let mk = |bh: u64, ph: u16, ch: u64| LshBucketRow::new(0, bh, ph, ch);
    let rows = vec![mk(9, 1, 50), mk(9, 2, 10), mk(9, 3, 30), mk(11, 1, 5)];
    let mut rows = rows;
    rows.sort_by(|x, y| {
        (x.bucket_index, x.bucket_hash, x.path_hash, x.content_hash).cmp(&(
            y.bucket_index,
            y.bucket_hash,
            y.path_hash,
            y.content_hash,
        ))
    });
    let groups = find_groups(&rows);
    assert_eq!(groups.len(), 1);
    let g = &groups[0].group;
    assert_eq!(g.len(), 3);
    assert_eq!(g[0].content_hash, 10);
    assert_eq!(g[1].content_hash, 30);
    assert_eq!(g[2].content_hash, 50);
}

#[test]
fn empty_text_rows_still_emit_records_and_group_together() {
    let family = PermutationFamily::new();
    let rows = deduplicate::lsh::lsh_rows_for_text("", 1, &family);
    assert_eq!(rows.len(), 17);
    let corpus = [("/in/a", vec![""]), ("/in/b", vec![""])];
    let (runs, _metas) = sign_corpus(&corpus, 1 << 30);
    let (groups, _payload) = find_duplicates_in_lsh_buckets_files(&runs).unwrap();
    assert!(!groups.is_empty());
    assert!(groups.iter().all(|g| g.group.len() == 2));
}
