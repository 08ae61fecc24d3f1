//! The streaming producer of run files. Bucket records accumulate in memory
//! together with the names of the inputs that produced them; when the packed
//! size of the buffer reaches the spill threshold, the buffer is sorted and
//! handed out as one compressed run file with its meta sidecar, under a
//! fresh unique prefix. Writing the two files to disk is the caller's part;
//! file creation must fail if the target already exists.
use vstd::prelude::*;

verus! {

use vstd::multiset::Multiset;
use crate::codec::encode_meta;
use crate::codec::encode_rows;
use crate::codec::meta_bytes;
use crate::codec::rows_bytes;
use crate::codec::LshBucketsMeta;
use crate::compress::zstd_compress;
use crate::compress::zstd_unframed;
use crate::context::canon_of;
use crate::context::canonicalize_path;
use crate::error::DedupError;
use crate::lsh::LshBucketRow;
use crate::sort::rows_sorted;
use crate::sort::sort_rows;
use crate::sort::sort_strings;
use crate::sort::strings_sorted;
use crate::text::str_chars;
use crate::text::string_from_chars;
use crate::text::strings_equal;
use vstd::string::StrSliceExecFns;

/// Relies on `uuid::Uuid::new_v4` and its `Display` form: a hyphenated
/// UUID of 36 characters. The value is random; nothing else is assumed.
#[verifier::external_body]
fn fresh_prefix() -> (r: String)
    ensures
        r@.len() == 36,
{
    format!("{}", uuid::Uuid::new_v4())
}

/// One spilled run file and its meta sidecar, ready to be written to disk.
#[derive(Debug)]
pub struct SpillFiles {
    pub rows_file_name: String,
    pub rows_payload: Vec<u8>,
    pub meta_file_name: String,
    pub meta_payload: Vec<u8>,
}

/// What a spill promises: both payloads decompress to the sorted images of
/// the buffered records and contributing files, under one fresh prefix.
pub open spec fn spill_wf(
    sp: SpillFiles,
    folder: Seq<char>,
    column: Seq<char>,
    buffered: Seq<LshBucketRow>,
    files: Seq<Seq<char>>,
) -> bool {
    exists|prefix: Seq<char>, sorted: Seq<LshBucketRow>, sfiles: Seq<Seq<char>>|
        {
            &&& prefix.len() == 36
            &&& #[trigger] rows_sorted(sorted)
            &&& sorted.to_multiset() == buffered.to_multiset()
            &&& strings_sorted(sfiles)
            &&& sfiles.to_multiset() == files.to_multiset()
            &&& sp.rows_file_name@ == canon_of(folder + seq!['/'] + prefix + ".lsh_rows"@)
            &&& sp.meta_file_name@ == canon_of(folder + seq!['/'] + prefix + ".lsh_meta"@)
            &&& zstd_unframed(sp.rows_payload@) == Some(rows_bytes(sorted))
            &&& zstd_unframed(sp.meta_payload@) == Some(#[trigger] meta_bytes(sfiles, column, prefix))
        }
}

/// Buffers bucket records and spills them as sorted, compressed run files.
pub struct LshBucketRowsFilesWriter {
    folder: String,
    files: Vec<String>,
    column_name: String,
    rows: Vec<LshBucketRow>,
    buckets_size_limit: u64,
    emitted: Ghost<Multiset<LshBucketRow>>,
}

impl LshBucketRowsFilesWriter {
    pub closed spec fn folder_view(self) -> Seq<char> {
        self.folder@
    }

    pub closed spec fn files_view(self) -> Seq<Seq<char>> {
        self.files.deep_view()
    }

    pub closed spec fn column_view(self) -> Seq<char> {
        self.column_name@
    }

    pub closed spec fn rows_view(self) -> Seq<LshBucketRow> {
        self.rows@
    }

    pub closed spec fn limit_spec(self) -> u64 {
        self.buckets_size_limit
    }

    /// The multiset of records already handed out in spills.
    pub closed spec fn emitted_view(self) -> Multiset<LshBucketRow> {
        self.emitted@
    }

    /// Starts an empty writer over a run-file directory.
    pub fn new(folder: String, buckets_size_limit: u64) -> (r: LshBucketRowsFilesWriter)
        ensures
            r.folder_view() == folder@,
            r.files_view() == Seq::<Seq<char>>::empty(),
            r.column_view() == Seq::<char>::empty(),
            r.rows_view() == Seq::<LshBucketRow>::empty(),
            r.limit_spec() == buckets_size_limit,
            r.emitted_view() == Multiset::<LshBucketRow>::empty(),
    {
        let r = LshBucketRowsFilesWriter {
            folder,
            files: Vec::new(),
            column_name: String::new(),
            rows: Vec::new(),
            buckets_size_limit,
            emitted: Ghost(Multiset::empty()),
        };
        proof {
            assert(r.files.deep_view() =~= Seq::<Seq<char>>::empty());
        }
        r
    }

    /// Spills the buffer, if it holds anything: sorts the records and the
    /// contributing files, compresses both payloads under a fresh prefix,
    /// and clears the buffer. The emitted multiset grows by exactly the
    /// buffered records.
    pub fn flush(&mut self) -> (r: Result<Option<SpillFiles>, DedupError>)
        ensures
            match r {
                Ok(opt) => match opt {
                    Option::Some(sp) => {
                        &&& old(self).rows_view().len() > 0
                        &&& final(self).folder_view() == old(self).folder_view()
                        &&& final(self).column_view() == old(self).column_view()
                        &&& final(self).limit_spec() == old(self).limit_spec()
                        &&& final(self).rows_view() == Seq::<LshBucketRow>::empty()
                        &&& final(self).files_view() == Seq::<Seq<char>>::empty()
                        &&& final(self).emitted_view() == old(self).emitted_view().add(
                            old(self).rows_view().to_multiset(),
                        )
                        &&& spill_wf(
                            sp,
                            old(self).folder_view(),
                            old(self).column_view(),
                            old(self).rows_view(),
                            old(self).files_view(),
                        )
                    },
                    Option::None => old(self).rows_view().len() == 0 && *final(self) == *old(
                        self,
                    ),
                },
                Err(e) => {
                    &&& e == DedupError::CompressionFailed
                    &&& old(self).rows_view().len() > 0
                    &&& *final(self) == *old(self)
                },
            },
    {
        broadcast use vstd::seq_lib::group_to_multiset_ensures;
        broadcast use vstd::multiset::group_multiset_axioms;

        if self.rows.len() == 0 {
            return Ok(None);
        }
        let prefix = fresh_prefix();
        let mut name_chars = str_chars(self.folder.as_str());
        name_chars.push('/');
        let mut prefix_chars = str_chars(prefix.as_str());
        let ghost pv = prefix@;
        name_chars.append(&mut prefix_chars);
        let mut rows_name_chars = name_chars.clone();
        let ghost base = self.folder@ + seq!['/'] + pv;
        proof {
            assert(name_chars@ =~= base);
            vstd::std_specs::vec::vec_clone_deep_view_proof(name_chars, rows_name_chars);
            assert(rows_name_chars@ =~= name_chars@);
        }
        let mut rows_suffix = str_chars(".lsh_rows");
        rows_name_chars.append(&mut rows_suffix);
        let rows_join = string_from_chars(&rows_name_chars);
        proof {
            assert(rows_join@ =~= base + ".lsh_rows"@);
        }
        let rows_file_name = canonicalize_path(rows_join.as_str());
        let mut meta_suffix = str_chars(".lsh_meta");
        name_chars.append(&mut meta_suffix);
        let meta_join = string_from_chars(&name_chars);
        proof {
            assert(meta_join@ =~= base + ".lsh_meta"@);
        }
        let meta_file_name = canonicalize_path(meta_join.as_str());

        let ghost old_rows = self.rows@;
        let ghost old_files = self.files.deep_view();
        let mut rows_copy: Vec<LshBucketRow> = Vec::new();
        let mut ri: usize = 0;
        while ri < self.rows.len()
            invariant
                ri <= self.rows@.len(),
                rows_copy@ =~= self.rows@.take(ri as int),
            decreases self.rows@.len() - ri,
        {
            rows_copy.push(self.rows[ri]);
            ri = ri + 1;
            assert(rows_copy@ =~= self.rows@.take(ri as int));
        }
        proof {
            assert(self.rows@.take(self.rows@.len() as int) =~= self.rows@);
        }
        let mut files_copy: Vec<String> = Vec::new();
        let mut fi: usize = 0;
        proof {
            assert(files_copy.deep_view() =~= self.files.deep_view().take(0));
        }
        while fi < self.files.len()
            invariant
                fi <= self.files@.len(),
                self.files.deep_view().len() == self.files@.len(),
                files_copy.deep_view() =~= self.files.deep_view().take(fi as int),
            decreases self.files@.len() - fi,
        {
            let ghost before = files_copy.deep_view();
            let s = String::clone(&self.files[fi]);
            proof {
                assert(self.files.deep_view()[fi as int] == self.files@[fi as int]@);
            }
            files_copy.push(s);
            fi = fi + 1;
            proof {
                assert(files_copy.deep_view() =~= before.push(
                    self.files.deep_view()[fi - 1],
                ));
                assert(files_copy.deep_view() =~= self.files.deep_view().take(fi as int));
            }
        }
        proof {
            assert(self.files.deep_view().take(self.files.deep_view().len() as int)
                =~= self.files.deep_view());
        }
        let sorted_rows = sort_rows(rows_copy);
        let sorted_files = sort_strings(files_copy);
        let rows_raw = encode_rows(&sorted_rows);
        let rows_payload = match zstd_compress(&rows_raw, 1) {
            Option::Some(p) => p,
            Option::None => {
                return Err(DedupError::CompressionFailed);
            },
        };
        let meta = LshBucketsMeta {
            files: sorted_files,
            column_name: self.column_name.clone(),
            file_prefix: prefix,
        };
        let meta_raw = encode_meta(&meta);
        let meta_payload = match zstd_compress(&meta_raw, 1) {
            Option::Some(p) => p,
            Option::None => {
                return Err(DedupError::CompressionFailed);
            },
        };
        self.rows.clear();
        self.files.clear();
        self.emitted = Ghost(self.emitted@.add(old_rows.to_multiset()));
        proof {
            assert(self.rows@ =~= Seq::<LshBucketRow>::empty());
            assert(self.files.deep_view() =~= Seq::<Seq<char>>::empty());
        }
        let sp = SpillFiles { rows_file_name, rows_payload, meta_file_name, meta_payload };
        proof {
            let sorted = sorted_rows@;
            let sfiles = meta.files.deep_view();
            assert(sp.rows_file_name@ == canon_of(
                old(self).folder_view() + seq!['/'] + pv + ".lsh_rows"@,
            ));
            assert(sp.meta_file_name@ == canon_of(
                old(self).folder_view() + seq!['/'] + pv + ".lsh_meta"@,
            ));
            assert(zstd_unframed(sp.rows_payload@) == Some(rows_bytes(sorted)));
            assert(zstd_unframed(sp.meta_payload@) == Some(
                meta_bytes(sfiles, old(self).column_view(), pv),
            ));
            assert(spill_wf(
                sp,
                old(self).folder_view(),
                old(self).column_view(),
                old_rows,
                old_files,
            ));
        }
        Ok(Some(sp))
    }

    /// Appends one signed document's records and its source file, and spills
    /// when the packed buffer reaches the size limit. Rows for a column
    /// other than the writer's are rejected.
    pub fn write_rows(
        &mut self,
        source_file: &String,
        column_name: &String,
        rows: Vec<LshBucketRow>,
    ) -> (r: Result<Option<SpillFiles>, DedupError>)
        ensures
            match r {
                Ok(opt) => {
                    &&& (old(self).column_view() == Seq::<char>::empty() || old(
                        self,
                    ).column_view() == column_name@)
                    &&& final(self).folder_view() == old(self).folder_view()
                    &&& final(self).column_view() == column_name@
                    &&& final(self).limit_spec() == old(self).limit_spec()
                    &&& match opt {
                        Option::None => {
                            &&& final(self).rows_view() == old(self).rows_view() + rows@
                            &&& final(self).files_view() == old(self).files_view().push(
                                source_file@,
                            )
                            &&& final(self).emitted_view() == old(self).emitted_view()
                            &&& 19 * final(self).rows_view().len() < old(self).limit_spec()
                                || final(self).rows_view().len() == 0
                        },
                        Option::Some(sp) => {
                            &&& 19 * (old(self).rows_view() + rows@).len() >= old(
                                self,
                            ).limit_spec()
                            &&& spill_wf(
                                sp,
                                old(self).folder_view(),
                                column_name@,
                                old(self).rows_view() + rows@,
                                old(self).files_view().push(source_file@),
                            )
                            &&& final(self).rows_view() == Seq::<LshBucketRow>::empty()
                            &&& final(self).files_view() == Seq::<Seq<char>>::empty()
                            &&& final(self).emitted_view() == old(self).emitted_view().add(
                                (old(self).rows_view() + rows@).to_multiset(),
                            )
                        },
                    }
                },
                Err(e) => {
                    ||| (e == DedupError::ColumnMismatch && old(self).column_view()
                        != Seq::<char>::empty() && old(self).column_view() != column_name@
                        && *final(self) == *old(self))
                    ||| (e == DedupError::CompressionFailed
                        && (old(self).column_view() == Seq::<char>::empty() || old(
                        self,
                    ).column_view() == column_name@)
                        && 19 * (old(self).rows_view() + rows@).len() >= old(self).limit_spec()
                        && final(self).rows_view() == old(self).rows_view() + rows@
                        && final(self).files_view() == old(self).files_view().push(source_file@)
                        && final(self).column_view() == column_name@
                        && final(self).folder_view() == old(self).folder_view()
                        && final(self).limit_spec() == old(self).limit_spec()
                        && final(self).emitted_view() == old(self).emitted_view())
                },
            },
    {
        if !self.column_name.as_str().is_empty() && !strings_equal(&self.column_name, column_name) {
            proof {
                assert(self.column_name@.len() > 0);
                assert(self.column_name@ != Seq::<char>::empty());
            }
            return Err(DedupError::ColumnMismatch);
        }
        proof {
            if self.column_name@.len() == 0 {
                assert(self.column_name@ =~= Seq::<char>::empty());
            }
        }
        let ghost old_rows = self.rows@;
        let ghost old_files = self.files.deep_view();
        let mut rows = rows;
        self.rows.append(&mut rows);
        let s = String::clone(source_file);
        self.files.push(s);
        self.column_name = String::clone(column_name);
        proof {
            assert(self.files.deep_view() =~= old_files.push(source_file@));
        }
        let len = self.rows.len();
        let packed: u128 = 19u128 * (len as u128);
        if len >= 1 && packed >= self.buckets_size_limit as u128 {
            let spilled = self.flush();
            match spilled {
                Ok(opt) => {
                    match opt {
                        Option::Some(sp) => Ok(Some(sp)),
                        Option::None => {
                            proof {
                                assert(false);
                            }
                            Ok(None)
                        },
                    }
                },
                Err(e) => Err(e),
            }
        } else {
            Ok(None)
        }
    }
}

} // verus!
