use deduplicate::codec::{
    decode_groups, decode_meta, decode_rows, encode_groups, encode_meta, encode_rows,
    LshBucketsMeta,
};
use deduplicate::context::Context;
use deduplicate::error::DedupError;
use deduplicate::filters::{apply_filter_to_texts, build_filters, decode_filter, encode_filter};
use deduplicate::groups::{DuplicatesGroup, DuplicatesGroupItem};
use deduplicate::hashes::{content_hash, hash_path, token_hash};
use deduplicate::lsh::{create_lsh_buckets, lsh_rows_for_text, LshBucketRow};
use deduplicate::minhash::{hash_text, MinHashBuilder, PermutationFamily, MINHASH_SEED, NUM_PERM};
use deduplicate::operations::{chunk_bounds, output_file_path, plan_resume};
use deduplicate::text::tokenize;

#[test]
fn tokenize_splits_on_non_word_characters() {
    let toks = tokenize("hello, world!");
    let toks: Vec<&str> = toks.iter().map(|s| s.as_str()).collect();
    assert_eq!(toks, vec!["hello", "world"]);
}

#[test]
fn tokenize_keeps_digits_and_underscore() {
    let toks = tokenize("a_b 12,cd-_e");
    let toks: Vec<&str> = toks.iter().map(|s| s.as_str()).collect();
    assert_eq!(toks, vec!["a_b", "12", "cd", "_e"]);
}

#[test]
fn tokenize_accepts_cyrillic_letters() {
    let text = "\u{43f}\u{440}\u{438}\u{432}\u{435}\u{442} world";
    let toks = tokenize(text);
    assert_eq!(toks.len(), 2);
    assert_eq!(toks[0].as_str(), "\u{43f}\u{440}\u{438}\u{432}\u{435}\u{442}");
    assert_eq!(toks[1].as_str(), "world");
}

#[test]
fn tokenize_empty_text_has_no_tokens() {
    assert_eq!(tokenize("").len(), 0);
    assert_eq!(tokenize("  ,;!").len(), 0);
}

#[test]
fn content_hash_matches_cityhash64() {
    // CityHash64 of "world", as documented by the hashing crate.
    assert_eq!(content_hash("world"), 16436542438370751598u64);
}

#[test]
fn token_hash_matches_cityhash32() {
    // CityHash32 of "hello", as documented by the hashing crate.
    assert_eq!(token_hash("hello"), 2039911270u32);
}

#[test]
fn path_hash_folds_the_32_bit_hash() {
    let h32 = 2039911270u32;
    let expected = ((h32 >> 16) ^ (h32 & 0xFFFF)) as u16;
    assert_eq!(hash_path("hello"), expected);
}

#[test]
fn minhash_constants_are_fixed() {
    assert_eq!(NUM_PERM, 256);
    assert_eq!(MINHASH_SEED, 1);
}

#[test]
fn empty_text_signature_is_all_max() {
    let family = PermutationFamily::new();
    let mh = hash_text("", &family);
    assert_eq!(mh.values.len(), 256);
    assert!(mh.values.iter().all(|v| *v == u32::MAX));
}

#[test]
fn permutation_family_is_deterministic() {
    let f1 = PermutationFamily::new();
    let f2 = PermutationFamily::new();
    assert_eq!(f1.a, f2.a);
    assert_eq!(f1.b, f2.b);
    assert!(f1.a.iter().all(|a| *a >= 1));
    assert!(f1.b.len() == 256 && f1.a.len() == 256);
}

#[test]
fn case_and_punctuation_normalize_to_the_same_signature() {
    let family = PermutationFamily::new();
    let a = hash_text("Hello, world!", &family);
    let b = hash_text("hello world", &family);
    assert_eq!(a.values, b.values);
}

#[test]
fn token_order_changes_the_multiset_equal_signature() {
    let family = PermutationFamily::new();
    let a = hash_text("alpha beta gamma", &family);
    let b = hash_text("gamma, ALPHA; beta", &family);
    assert_eq!(a.values, b.values);
}

#[test]
fn disjoint_texts_have_different_signatures() {
    let family = PermutationFamily::new();
    let a = hash_text("alpha beta gamma", &family);
    let b = hash_text("delta epsilon zeta", &family);
    assert_ne!(a.values, b.values);
}

#[test]
fn builder_update_takes_minima() {
    let family = PermutationFamily::new();
    let mut builder = MinHashBuilder::new();
    builder.update(&family, "hello");
    let h = token_hash("hello");
    let one = builder.values.clone();
    for i in 0..256 {
        let expected = family.a[i].wrapping_mul(h).wrapping_add(family.b[i]);
        assert_eq!(one[i], expected.min(u32::MAX));
    }
    builder.update(&family, "world");
    for i in 0..256 {
        assert!(builder.values[i] <= one[i]);
    }
}

#[test]
fn a_document_emits_one_record_per_band() {
    let family = PermutationFamily::new();
    let rows = lsh_rows_for_text("hello world", 7, &family);
    assert_eq!(rows.len(), 17);
    for (i, row) in rows.iter().enumerate() {
        assert_eq!(row.bucket_index as usize, i);
        assert_eq!(row.path_hash, 7);
        assert_eq!(row.content_hash, content_hash("hello world"));
    }
    let mh = hash_text("hello world", &family);
    let buckets = create_lsh_buckets(&mh);
    for (i, b) in buckets.iter().enumerate() {
        assert_eq!(rows[i].bucket_hash, b.hash());
        assert_eq!(b.index() as usize, i);
    }
}

#[test]
fn identical_texts_in_different_files_share_bucket_hashes() {
    let family = PermutationFamily::new();
    let a = lsh_rows_for_text("hello world", 1, &family);
    let b = lsh_rows_for_text("hello world", 2, &family);
    for i in 0..17 {
        assert_eq!(a[i].bucket_hash, b[i].bucket_hash);
        assert_ne!(a[i].path_hash, b[i].path_hash);
    }
}

#[test]
fn rows_codec_round_trips() {
    let rows = vec![
        LshBucketRow::new(0, 42, 7, 99),
        LshBucketRow::new(3, u64::MAX, u16::MAX, 0),
    ];
    let bytes = encode_rows(&rows);
    assert_eq!(bytes.len(), 38);
    let back = decode_rows(&bytes).unwrap();
    assert_eq!(back, rows);
}

#[test]
fn rows_codec_rejects_partial_records() {
    let bytes = vec![1u8, 2, 3, 4, 5];
    assert!(decode_rows(&bytes).is_none());
}

#[test]
fn meta_codec_round_trips() {
    let meta = LshBucketsMeta {
        files: vec!["/a/b".to_string(), "/c".to_string()],
        column_name: "content".to_string(),
        file_prefix: "prefix-1".to_string(),
    };
    let bytes = encode_meta(&meta);
    let back = decode_meta(&bytes).unwrap();
    assert_eq!(back.files, meta.files);
    assert_eq!(back.column_name, meta.column_name);
    assert_eq!(back.file_prefix, meta.file_prefix);
}

#[test]
fn meta_codec_rejects_truncation() {
    let meta = LshBucketsMeta {
        files: vec!["x".to_string()],
        column_name: "content".to_string(),
        file_prefix: "p".to_string(),
    };
    let mut bytes = encode_meta(&meta);
    bytes.pop();
    assert!(decode_meta(&bytes).is_none());
}

#[test]
fn groups_codec_round_trips() {
    let groups = vec![
        DuplicatesGroup {
            group: vec![
                DuplicatesGroupItem { path_hash: 1, content_hash: 10 },
                DuplicatesGroupItem { path_hash: 2, content_hash: 20 },
            ],
        },
        DuplicatesGroup {
            group: vec![
                DuplicatesGroupItem { path_hash: 3, content_hash: 30 },
                DuplicatesGroupItem { path_hash: 4, content_hash: 40 },
                DuplicatesGroupItem { path_hash: 5, content_hash: 50 },
            ],
        },
    ];
    let bytes = encode_groups(&groups);
    let back = decode_groups(&bytes).unwrap();
    assert_eq!(back.len(), 2);
    assert_eq!(back[0].group, groups[0].group);
    assert_eq!(back[1].group, groups[1].group);
}

#[test]
fn groups_codec_rejects_garbage() {
    let bytes = vec![9u8, 9, 9];
    assert!(decode_groups(&bytes).is_none());
}

#[test]
fn filter_codec_round_trips() {
    let hashes = vec![1u64, u64::MAX, 42];
    let bytes = encode_filter(&hashes);
    assert_eq!(bytes.len(), 24);
    assert_eq!(decode_filter(&bytes).unwrap(), hashes);
    let bad = vec![0u8; 9];
    assert!(decode_filter(&bad).is_none());
}

#[test]
fn build_filters_drops_everything_but_the_survivor() {
    let groups = vec![
        DuplicatesGroup {
            group: vec![
                DuplicatesGroupItem { path_hash: 1, content_hash: 10 },
                DuplicatesGroupItem { path_hash: 2, content_hash: 20 },
                DuplicatesGroupItem { path_hash: 1, content_hash: 30 },
            ],
        },
        DuplicatesGroup {
            group: vec![
                DuplicatesGroupItem { path_hash: 2, content_hash: 5 },
                DuplicatesGroupItem { path_hash: 2, content_hash: 7 },
            ],
        },
    ];
    let filters = build_filters(&groups);
    let for1: Vec<u64> = filters
        .iter()
        .find(|f| f.path_hash == 1)
        .map(|f| f.hashes.clone())
        .unwrap();
    let for2: Vec<u64> = filters
        .iter()
        .find(|f| f.path_hash == 2)
        .map(|f| f.hashes.clone())
        .unwrap();
    assert_eq!(for1, vec![30]);
    assert_eq!(for2, vec![20, 7]);
    assert_eq!(filters.len(), 2);
}

#[test]
fn build_filters_of_nothing_is_empty() {
    let filters = build_filters(&Vec::new());
    assert!(filters.is_empty());
}

#[test]
fn apply_filter_drops_exactly_the_listed_hashes() {
    let texts = vec!["keep".to_string(), "drop".to_string(), "keep too".to_string()];
    let filter = vec![content_hash("drop")];
    let (kept, total, dropped) = apply_filter_to_texts(texts, &filter);
    assert_eq!(total, 3);
    assert_eq!(dropped, 1);
    let kept: Vec<&str> = kept.iter().map(|s| s.as_str()).collect();
    assert_eq!(kept, vec!["keep", "keep too"]);
}

#[test]
fn all_distinct_rows_survive_an_empty_filter() {
    let texts = vec!["a".to_string(), "b".to_string(), "c".to_string()];
    let (kept, total, dropped) = apply_filter_to_texts(texts.clone(), &Vec::new());
    assert_eq!(total, 3);
    assert_eq!(dropped, 0);
    assert_eq!(kept, texts);
}

#[test]
fn canonicalize_resolves_dots_and_doubled_separators() {
    assert_eq!(Context::canonicalize(&"/a/./b/../c".to_string()), "/a/c");
    assert_eq!(Context::canonicalize(&"//a//b/".to_string()), "/a/b");
    assert_eq!(Context::canonicalize(&"a/../../b".to_string()), "b");
    assert_eq!(Context::canonicalize(&"./x".to_string()), "x");
    assert_eq!(Context::canonicalize(&"/..".to_string()), "/");
    assert_eq!(Context::canonicalize(&"".to_string()), "");
}

#[test]
fn context_paths_are_deterministic() {
    let ctx = Context::new(
        "/in/".to_string(),
        "/tmp/work/".to_string(),
        vec!["/in/a".to_string()],
    );
    assert_eq!(ctx.input_folder().as_str(), "/in");
    assert_eq!(ctx.raw_lsh_buckets_folder_path(), "/tmp/work/raw_lsh_buckets");
    assert_eq!(ctx.duplicats_groups_path(), "/tmp/work/duplicates.groups");
    assert_eq!(ctx.filter_file_path(37), "/tmp/work/filters/37.filter");
    assert_eq!(ctx.filter_file_path(0), "/tmp/work/filters/0.filter");
    assert_eq!(ctx.filter_file_path(65535), "/tmp/work/filters/65535.filter");
}

#[test]
fn hash_to_input_files_groups_by_path_hash() {
    let a = "/in/a".to_string();
    let b = "/in/b".to_string();
    let ctx = Context::new("/in".to_string(), "/tmp/w".to_string(), vec![a.clone(), b.clone()]);
    let for_a = ctx.hash_to_input_files(hash_path(&a));
    assert!(for_a.contains(&a));
    let none = ctx.hash_to_input_files(hash_path(&a).wrapping_add(1));
    assert!(!none.contains(&a) || hash_path(&b) == hash_path(&a).wrapping_add(1));
}

#[test]
fn plan_resume_keeps_processed_inputs_and_known_run_files() {
    let metas = vec![
        LshBucketsMeta {
            files: vec!["/in/a".to_string(), "/in/b".to_string()],
            column_name: "content".to_string(),
            file_prefix: "x".to_string(),
        },
        LshBucketsMeta {
            files: vec!["/in/c".to_string()],
            column_name: "other".to_string(),
            file_prefix: "y".to_string(),
        },
    ];
    let column = "content".to_string();
    let rows_files = vec!["x.lsh_rows".to_string(), "y.lsh_rows".to_string()];
    let inputs = vec!["/in/a".to_string(), "/in/b".to_string(), "/in/c".to_string()];
    let plan = plan_resume(&metas, &column, &rows_files, &inputs);
    assert_eq!(plan.meta_is_stale, vec![false, true]);
    assert_eq!(plan.rows_file_is_orphan, vec![false, true]);
    assert_eq!(plan.input_needs_processing, vec![false, false, true]);
}

#[test]
fn chunk_bounds_partition_the_work() {
    let chunks = chunk_bounds(5, 2);
    assert_eq!(chunks, vec![(0, 2), (2, 4), (4, 5)]);
    assert_eq!(chunk_bounds(0, 3), vec![]);
    assert_eq!(chunk_bounds(3, 10), vec![(0, 1), (1, 2), (2, 3)]);
    assert_eq!(chunk_bounds(4, 1), vec![(0, 4)]);
}

#[test]
fn output_file_path_uses_the_md5_of_the_input_path() {
    // MD5 of "a" is 0cc175b9c0f1b6a831c399e269772661.
    let p = output_file_path("/out", "a");
    assert_eq!(p, "/out/0cc175b9c0f1b6a831c399e269772661.parquet.zst");
}

#[test]
fn error_variants_are_distinguishable() {
    assert_ne!(DedupError::ColumnMismatch, DedupError::CorruptRunFile);
    assert_ne!(DedupError::UnsortedRunFile, DedupError::CompressionFailed);
}
