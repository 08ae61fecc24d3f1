//! On-disk record layouts, little-endian throughout.
//!
//! * A bucket record is 19 packed bytes: the band index, then the 64-bit
//!   bucket hash, the 16-bit path hash and the 64-bit content hash.
//! * A run-file payload is a plain concatenation of records.
//! * A string block is a 64-bit byte length followed by the UTF-8 bytes.
//! * A meta payload is a 64-bit file count, the file blocks, then the column
//!   name and the file prefix as string blocks.
//! * A duplicates group is a 64-bit member count followed by 10-byte members
//!   (path hash, content hash); the groups payload concatenates groups.
//! * A filter payload is a plain concatenation of 64-bit content hashes.
use vstd::prelude::*;

verus! {

use vstd::bytes::spec_u16_to_le_bytes;
use vstd::bytes::spec_u16_from_le_bytes;
use vstd::bytes::spec_u64_to_le_bytes;
use vstd::bytes::spec_u64_from_le_bytes;
use vstd::bytes::lemma_auto_spec_u16_to_from_le_bytes;
use vstd::bytes::lemma_auto_spec_u64_to_from_le_bytes;
use vstd::bytes::u16_to_le_bytes;
use vstd::bytes::u16_from_le_bytes;
use vstd::bytes::u64_to_le_bytes;
use vstd::bytes::u64_from_le_bytes;
use vstd::slice::slice_subrange;
use vstd::slice::slice_to_vec;
use vstd::string::StrSliceExecFns;
use vstd::utf8::encode_utf8;
use vstd::utf8::decode_utf8;
use vstd::utf8::valid_utf8;
use crate::groups::DuplicatesGroupItem;
use crate::lsh::LshBucketRow;

/// Size of one packed bucket record on disk.
pub const ROW_BYTES: usize = 19;

/// The 19-byte image of one bucket record.
pub open spec fn row_bytes(r: LshBucketRow) -> Seq<u8> {
    seq![r.bucket_index] + spec_u64_to_le_bytes(r.bucket_hash) + spec_u16_to_le_bytes(r.path_hash)
        + spec_u64_to_le_bytes(r.content_hash)
}

/// The payload of a run file: its records, concatenated.
pub open spec fn rows_bytes(rows: Seq<LshBucketRow>) -> Seq<u8>
    decreases rows.len(),
{
    if rows.len() == 0 {
        Seq::empty()
    } else {
        row_bytes(rows.first()) + rows_bytes(rows.drop_first())
    }
}

pub proof fn lemma_row_bytes_len(r: LshBucketRow)
    ensures
        row_bytes(r).len() == ROW_BYTES,
{
    lemma_auto_spec_u16_to_from_le_bytes();
    lemma_auto_spec_u64_to_from_le_bytes();
}

/// Appending one record appends its 19 bytes.
pub proof fn lemma_rows_bytes_push(rows: Seq<LshBucketRow>, r: LshBucketRow)
    ensures
        rows_bytes(rows.push(r)) == rows_bytes(rows) + row_bytes(r),
    decreases rows.len(),
{
    if rows.len() == 0 {
        assert(rows.push(r).first() == r);
        assert(rows.push(r).drop_first() =~= Seq::<LshBucketRow>::empty());
        assert(rows_bytes(Seq::<LshBucketRow>::empty()) == Seq::<u8>::empty());
        assert(rows_bytes(rows.push(r)) == row_bytes(r) + rows_bytes(rows.push(r).drop_first()));
        assert(rows_bytes(rows) == Seq::<u8>::empty());
        assert(rows_bytes(rows.push(r)) =~= rows_bytes(rows) + row_bytes(r));
    } else {
        lemma_rows_bytes_push(rows.drop_first(), r);
        assert(rows.push(r).drop_first() =~= rows.drop_first().push(r));
        assert(rows.push(r).first() == rows.first());
        assert(rows_bytes(rows.push(r)) =~= rows_bytes(rows) + row_bytes(r));
    }
}

/// The record whose image a 19-byte sequence is.
pub open spec fn decode_row(b: Seq<u8>) -> LshBucketRow {
    LshBucketRow {
        bucket_index: b[0],
        bucket_hash: spec_u64_from_le_bytes(b.subrange(1, 9)),
        path_hash: spec_u16_from_le_bytes(b.subrange(9, 11)),
        content_hash: spec_u64_from_le_bytes(b.subrange(11, 19)),
    }
}

pub proof fn lemma_decode_row_of_row_bytes(r: LshBucketRow)
    ensures
        decode_row(row_bytes(r)) == r,
{
    lemma_auto_spec_u16_to_from_le_bytes();
    lemma_auto_spec_u64_to_from_le_bytes();
    let b = row_bytes(r);
    assert(b[0] == r.bucket_index);
    assert(b.subrange(1, 9) =~= spec_u64_to_le_bytes(r.bucket_hash));
    assert(b.subrange(9, 11) =~= spec_u16_to_le_bytes(r.path_hash));
    assert(b.subrange(11, 19) =~= spec_u64_to_le_bytes(r.content_hash));
}

/// What a run-file payload decodes to: its records in order, or nothing if
/// the payload is not a whole number of records.
pub open spec fn decode_rows_spec(b: Seq<u8>) -> Option<Seq<LshBucketRow>>
    decreases b.len(),
{
    if b.len() == 0 {
        Some(Seq::empty())
    } else if b.len() < ROW_BYTES {
        None
    } else {
        match decode_rows_spec(b.skip(ROW_BYTES as int)) {
            Option::None => None,
            Option::Some(rest) => Some(seq![decode_row(b.take(ROW_BYTES as int))] + rest),
        }
    }
}

/// A payload decodes exactly when its length is a multiple of the record
/// size, and then record `i` is decoded from bytes `19 i .. 19 i + 19`.
pub proof fn lemma_decode_rows_spec_closed(b: Seq<u8>)
    ensures
        decode_rows_spec(b) is Some <==> b.len() % (ROW_BYTES as nat) == 0,
        b.len() % (ROW_BYTES as nat) == 0 ==> decode_rows_spec(b) == Some(
            Seq::new(
                b.len() / (ROW_BYTES as nat),
                |i: int| decode_row(b.subrange((ROW_BYTES as int) * i, (ROW_BYTES as int) * i + (ROW_BYTES as int))),
            ),
        ),
    decreases b.len(),
{
    if b.len() == 0 {
        assert(decode_rows_spec(b) == Some(Seq::<LshBucketRow>::empty()));
        assert(Seq::new(0, |i: int| decode_row(b.subrange((ROW_BYTES as int) * i, (ROW_BYTES as int) * i + (ROW_BYTES as int))))
            =~= Seq::<LshBucketRow>::empty());
    } else if b.len() < ROW_BYTES {
    } else {
        let rest = b.skip(ROW_BYTES as int);
        lemma_decode_rows_spec_closed(rest);
        if b.len() % (ROW_BYTES as nat) == 0 {
            let n = b.len() / (ROW_BYTES as nat);
            let whole = Seq::new(
                n as nat,
                |i: int| decode_row(b.subrange((ROW_BYTES as int) * i, (ROW_BYTES as int) * i + (ROW_BYTES as int))),
            );
            let tail = Seq::new(
                (n - 1) as nat,
                |i: int| decode_row(rest.subrange((ROW_BYTES as int) * i, (ROW_BYTES as int) * i + (ROW_BYTES as int))),
            );
            assert forall|i: int| 0 <= i < n - 1 implies tail[i] == whole[i + 1] by {
                assert(rest.subrange((ROW_BYTES as int) * i, (ROW_BYTES as int) * i + (ROW_BYTES as int)) =~= b.subrange(
                    (ROW_BYTES as int) * (i + 1),
                    (ROW_BYTES as int) * (i + 1) + (ROW_BYTES as int),
                ));
            }
            assert(b.take(ROW_BYTES as int) =~= b.subrange(0, ROW_BYTES as int));
            assert(whole[0] == decode_row(b.subrange(0, ROW_BYTES as int)));
            assert(seq![decode_row(b.take(ROW_BYTES as int))] + tail =~= whole);
        }
    }
}

/// Round trip: a run-file payload written from records decodes back to
/// exactly those records.
pub proof fn lemma_rows_roundtrip(rows: Seq<LshBucketRow>)
    ensures
        decode_rows_spec(rows_bytes(rows)) == Some(rows),
    decreases rows.len(),
{
    if rows.len() == 0 {
    } else {
        lemma_rows_roundtrip(rows.drop_first());
        lemma_row_bytes_len(rows.first());
        lemma_decode_row_of_row_bytes(rows.first());
        let b = rows_bytes(rows);
        assert(b == row_bytes(rows.first()) + rows_bytes(rows.drop_first()));
        assert(b.len() >= ROW_BYTES);
        assert(b.take(ROW_BYTES as int) =~= row_bytes(rows.first()));
        assert(b.skip(ROW_BYTES as int) =~= rows_bytes(rows.drop_first()));
        assert(seq![rows.first()] + rows.drop_first() =~= rows);
    }
}

/// Writes records into their packed on-disk payload.
pub fn encode_rows(rows: &Vec<LshBucketRow>) -> (r: Vec<u8>)
    ensures
        r@ == rows_bytes(rows@),
{
    let mut out: Vec<u8> = Vec::new();
    let mut i: usize = 0;
    proof {
        assert(rows@.take(0) =~= Seq::<LshBucketRow>::empty());
    }
    while i < rows.len()
        invariant
            i <= rows@.len(),
            out@ == rows_bytes(rows@.take(i as int)),
        decreases rows@.len() - i,
    {
        let row = rows[i];
        let ghost before = out@;
        out.push(row.bucket_index);
        let mut bh = u64_to_le_bytes(row.bucket_hash);
        out.append(&mut bh);
        let mut ph = u16_to_le_bytes(row.path_hash);
        out.append(&mut ph);
        let mut ch = u64_to_le_bytes(row.content_hash);
        out.append(&mut ch);
        proof {
            assert(out@ =~= before + row_bytes(row));
            lemma_rows_bytes_push(rows@.take(i as int), row);
            assert(rows@.take(i as int + 1) =~= rows@.take(i as int).push(row));
        }
        i = i + 1;
    }
    proof {
        assert(rows@.take(rows@.len() as int) =~= rows@);
    }
    out
}

/// Reads a packed payload back into records; fails exactly when the payload
/// is not a whole number of records.
pub fn decode_rows(bytes: &Vec<u8>) -> (r: Option<Vec<LshBucketRow>>)
    ensures
        match r {
            Option::Some(rows) => decode_rows_spec(bytes@) == Some(rows@),
            Option::None => decode_rows_spec(bytes@) is None,
        },
{
    proof {
        lemma_decode_rows_spec_closed(bytes@);
    }
    if bytes.len() % ROW_BYTES != 0 {
        return None;
    }
    let n = bytes.len() / ROW_BYTES;
    let ghost whole = Seq::new(
        n as nat,
        |i: int| decode_row(bytes@.subrange((ROW_BYTES as int) * i, (ROW_BYTES as int) * i + (ROW_BYTES as int))),
    );
    let mut rows: Vec<LshBucketRow> = Vec::new();
    let mut i: usize = 0;
    while i < n
        invariant
            i <= n,
            n * ROW_BYTES == bytes@.len(),
            bytes@.len() <= usize::MAX,
            whole == Seq::new(
                n as nat,
                |k: int| decode_row(bytes@.subrange((ROW_BYTES as int) * k, (ROW_BYTES as int) * k + (ROW_BYTES as int))),
            ),
            rows@ =~= whole.take(i as int),
        decreases n - i,
    {
        proof {
            assert((i as int) * (ROW_BYTES as int) + (ROW_BYTES as int) <= bytes@.len())
                by (nonlinear_arith)
                requires
                    i < n,
                    (n as int) * (ROW_BYTES as int) == bytes@.len(),
            ;
        }
        let base = i * ROW_BYTES;
        let bucket_index = bytes[base];
        let bh = u64_from_le_bytes(slice_subrange(bytes.as_slice(), base + 1, base + 9));
        let ph = u16_from_le_bytes(slice_subrange(bytes.as_slice(), base + 9, base + 11));
        let ch = u64_from_le_bytes(slice_subrange(bytes.as_slice(), base + 11, base + 19));
        let row = LshBucketRow { bucket_index, bucket_hash: bh, path_hash: ph, content_hash: ch };
        proof {
            let chunk = bytes@.subrange((ROW_BYTES as int) * (i as int), (ROW_BYTES as int) * (i as int) + (ROW_BYTES as int));
            assert(chunk[0] == bytes@[base as int]);
            assert(bytes@.subrange(base as int + 1, base as int + 9) =~= chunk.subrange(1, 9));
            assert(bytes@.subrange(base as int + 9, base as int + 11) =~= chunk.subrange(9, 11));
            assert(bytes@.subrange(base as int + 11, base as int + 19) =~= chunk.subrange(11, 19));
            assert(row == decode_row(chunk));
            assert(whole.take(i as int + 1) =~= whole.take(i as int).push(whole[i as int]));
        }
        rows.push(row);
        i = i + 1;
    }
    proof {
        assert(whole.take(n as int) =~= whole);
    }
    Some(rows)
}

/// Relies on `String::from_utf8`: it succeeds exactly on valid UTF-8 and
/// returns the string those bytes decode to.
#[verifier::external_body]
pub(crate) fn string_from_utf8(bytes: Vec<u8>) -> (r: Option<String>)
    ensures
        r is Some <==> valid_utf8(bytes@),
        r matches Some(s) ==> s@ == decode_utf8(bytes@),
{
    match String::from_utf8(bytes) {
        Ok(s) => Some(s),
        Err(_) => None,
    }
}

/// A string block: the string's UTF-8 byte length as 8 little-endian bytes,
/// then the bytes themselves.
pub open spec fn str_block(s: Seq<char>) -> Seq<u8> {
    spec_u64_to_le_bytes(encode_utf8(s).len() as u64) + encode_utf8(s)
}

/// Reads one string block off the front of a payload.
pub open spec fn take_str_block(b: Seq<u8>) -> Option<(Seq<char>, Seq<u8>)> {
    if b.len() < 8 {
        None
    } else {
        let len = spec_u64_from_le_bytes(b.take(8)) as int;
        let rest = b.skip(8);
        if rest.len() < len {
            None
        } else if !valid_utf8(rest.take(len)) {
            None
        } else {
            Some((decode_utf8(rest.take(len)), rest.skip(len)))
        }
    }
}

/// Reading back an encoded string block yields the string and the tail.
pub proof fn lemma_str_block_roundtrip(s: Seq<char>, tail: Seq<u8>)
    requires
        encode_utf8(s).len() <= u64::MAX,
    ensures
        take_str_block(str_block(s) + tail) == Some((s, tail)),
        str_block(s).len() >= 8,
{
    lemma_auto_spec_u64_to_from_le_bytes();
    vstd::utf8::encode_utf8_valid_utf8(s);
    vstd::utf8::encode_utf8_decode_utf8(s);
    let b = str_block(s) + tail;
    let len = encode_utf8(s).len() as int;
    assert(b.take(8) =~= spec_u64_to_le_bytes(len as u64));
    assert(spec_u64_from_le_bytes(b.take(8)) == len as u64);
    assert(b.skip(8) =~= encode_utf8(s) + tail);
    assert(b.skip(8).take(len) =~= encode_utf8(s));
    assert(b.skip(8).skip(len) =~= tail);
}

/// The concatenated string blocks of a list of strings.
pub open spec fn str_blocks(ss: Seq<Seq<char>>) -> Seq<u8>
    decreases ss.len(),
{
    if ss.len() == 0 {
        Seq::empty()
    } else {
        str_block(ss.first()) + str_blocks(ss.drop_first())
    }
}

/// Reads `n` string blocks off the front of a payload.
pub open spec fn take_str_blocks(b: Seq<u8>, n: nat) -> Option<(Seq<Seq<char>>, Seq<u8>)>
    decreases n,
{
    if n == 0 {
        Some((Seq::empty(), b))
    } else {
        match take_str_block(b) {
            Option::None => None,
            Option::Some((s, rest)) => match take_str_blocks(rest, (n - 1) as nat) {
                Option::None => None,
                Option::Some((ss, rest2)) => Some((seq![s] + ss, rest2)),
            },
        }
    }
}

/// Reading back `n` encoded string blocks yields the strings and the tail.
pub proof fn lemma_str_blocks_roundtrip(ss: Seq<Seq<char>>, tail: Seq<u8>)
    requires
        forall|i: int| 0 <= i < ss.len() ==> encode_utf8(#[trigger] ss[i]).len() <= u64::MAX,
    ensures
        take_str_blocks(str_blocks(ss) + tail, ss.len()) == Some((ss, tail)),
    decreases ss.len(),
{
    if ss.len() == 0 {
        assert(str_blocks(ss) + tail =~= tail);
    } else {
        assert(encode_utf8(ss.first()).len() <= u64::MAX);
        lemma_str_block_roundtrip(ss.first(), str_blocks(ss.drop_first()) + tail);
        assert(str_blocks(ss) + tail =~= str_block(ss.first()) + (str_blocks(ss.drop_first())
            + tail));
        assert forall|i: int|
            0 <= i < ss.drop_first().len() implies encode_utf8(
            #[trigger] ss.drop_first()[i],
        ).len() <= u64::MAX by {
            assert(ss.drop_first()[i] == ss[i + 1]);
        }
        lemma_str_blocks_roundtrip(ss.drop_first(), tail);
        assert(seq![ss.first()] + ss.drop_first() =~= ss);
    }
}

/// The payload of a meta file: the number of contributing inputs, their
/// paths, the column name, and the run file's prefix.
pub open spec fn meta_bytes(files: Seq<Seq<char>>, column: Seq<char>, prefix: Seq<char>) -> Seq<
    u8,
> {
    spec_u64_to_le_bytes(files.len() as u64) + str_blocks(files) + str_block(column) + str_block(
        prefix,
    )
}

/// What a meta payload decodes to, or nothing if it is malformed.
pub open spec fn decode_meta_spec(b: Seq<u8>) -> Option<(Seq<Seq<char>>, Seq<char>, Seq<char>)> {
    if b.len() < 8 {
        None
    } else {
        let n = spec_u64_from_le_bytes(b.take(8));
        match take_str_blocks(b.skip(8), n as nat) {
            Option::None => None,
            Option::Some((files, rest)) => match take_str_block(rest) {
                Option::None => None,
                Option::Some((column, rest2)) => match take_str_block(rest2) {
                    Option::None => None,
                    Option::Some((prefix, rest3)) => if rest3.len() == 0 {
                        Some((files, column, prefix))
                    } else {
                        None
                    },
                },
            },
        }
    }
}

/// Round trip: an encoded meta payload decodes back to its fields.
pub proof fn lemma_meta_roundtrip(files: Seq<Seq<char>>, column: Seq<char>, prefix: Seq<char>)
    requires
        files.len() <= u64::MAX,
        forall|i: int| 0 <= i < files.len() ==> encode_utf8(#[trigger] files[i]).len() <= u64::MAX,
        encode_utf8(column).len() <= u64::MAX,
        encode_utf8(prefix).len() <= u64::MAX,
    ensures
        decode_meta_spec(meta_bytes(files, column, prefix)) == Some((files, column, prefix)),
{
    lemma_auto_spec_u64_to_from_le_bytes();
    let b = meta_bytes(files, column, prefix);
    assert(b.take(8) =~= spec_u64_to_le_bytes(files.len() as u64));
    assert(b.skip(8) =~= str_blocks(files) + (str_block(column) + str_block(prefix)));
    lemma_str_blocks_roundtrip(files, str_block(column) + str_block(prefix));
    lemma_str_block_roundtrip(column, str_block(prefix));
    lemma_str_block_roundtrip(prefix, Seq::<u8>::empty());
    assert(str_block(prefix) + Seq::<u8>::empty() =~= str_block(prefix));
    assert(str_block(column) + str_block(prefix) =~= str_block(column) + (str_block(prefix)
        + Seq::<u8>::empty()));
}

/// Appends a string block for `s` to `out`.
fn push_str_block(out: &mut Vec<u8>, s: &str)
    ensures
        final(out)@ == old(out)@ + str_block(s@),
{
    let bytes = s.as_bytes_vec();
    let ghost before = out@;
    let mut len8 = u64_to_le_bytes(bytes.len() as u64);
    out.append(&mut len8);
    let mut payload = bytes;
    out.append(&mut payload);
    proof {
        assert(out@ =~= before + str_block(s@));
    }
}

/// Reads a string block at `pos`; fails exactly when the spec reader does.
fn read_str_block(bytes: &Vec<u8>, pos: usize) -> (r: Option<(String, usize)>)
    requires
        pos <= bytes@.len(),
    ensures
        match r {
            Option::Some(p) => pos <= p.1 <= bytes@.len() && take_str_block(
                bytes@.skip(pos as int),
            ) == Some((p.0@, bytes@.skip(p.1 as int))),
            Option::None => take_str_block(bytes@.skip(pos as int)) is None,
        },
{
    let here = bytes.len() - pos;
    if here < 8 {
        return None;
    }
    let len64 = u64_from_le_bytes(slice_subrange(bytes.as_slice(), pos, pos + 8));
    proof {
        assert(bytes@.subrange(pos as int, pos as int + 8) =~= bytes@.skip(pos as int).take(8));
    }
    let avail = (here - 8) as u64;
    if avail < len64 {
        proof {
            assert(bytes@.skip(pos as int).skip(8).len() < spec_u64_from_le_bytes(
                bytes@.skip(pos as int).take(8),
            ) as int);
        }
        return None;
    }
    let len = len64 as usize;
    let sub = slice_to_vec(slice_subrange(bytes.as_slice(), pos + 8, pos + 8 + len));
    proof {
        assert(bytes@.subrange(pos as int + 8, pos as int + 8 + len as int) =~= bytes@.skip(
            pos as int,
        ).skip(8).take(len as int));
    }
    match string_from_utf8(sub) {
        Option::Some(s) => {
            proof {
                assert(bytes@.skip(pos as int).skip(8).skip(len as int) =~= bytes@.skip(
                    pos as int + 8 + len as int,
                ));
            }
            Some((s, pos + 8 + len))
        },
        Option::None => None,
    }
}

/// Metadata accompanying one run file: which inputs contributed, for which
/// column, under which file prefix.
pub struct LshBucketsMeta {
    pub files: Vec<String>,
    pub column_name: String,
    pub file_prefix: String,
}

impl LshBucketsMeta {
    pub fn files(&self) -> (r: &Vec<String>)
        ensures
            r == &self.files,
    {
        &self.files
    }

    pub fn file_prefix(&self) -> (r: &String)
        ensures
            r == &self.file_prefix,
    {
        &self.file_prefix
    }

    pub fn column_name(&self) -> (r: &String)
        ensures
            r == &self.column_name,
    {
        &self.column_name
    }
}

/// Writes a meta record into its payload.
pub fn encode_meta(meta: &LshBucketsMeta) -> (r: Vec<u8>)
    ensures
        r@ == meta_bytes(meta.files.deep_view(), meta.column_name@, meta.file_prefix@),
{
    let ghost fv = meta.files.deep_view();
    let mut out: Vec<u8> = Vec::new();
    let mut len8 = u64_to_le_bytes(meta.files.len() as u64);
    out.append(&mut len8);
    let mut i: usize = 0;
    proof {
        assert(fv.take(0) =~= Seq::<Seq<char>>::empty());
        assert(str_blocks(Seq::<Seq<char>>::empty()) == Seq::<u8>::empty());
        assert(out@ =~= spec_u64_to_le_bytes(fv.len() as u64) + str_blocks(fv.take(0)));
    }
    while i < meta.files.len()
        invariant
            i <= meta.files@.len(),
            fv == meta.files.deep_view(),
            fv.len() == meta.files@.len(),
            out@ == spec_u64_to_le_bytes(fv.len() as u64) + str_blocks(fv.take(i as int)),
        decreases meta.files@.len() - i,
    {
        proof {
            assert(meta.files.deep_view()[i as int] == meta.files@[i as int]@);
        }
        push_str_block(&mut out, meta.files[i].as_str());
        proof {
            lemma_str_blocks_push(fv.take(i as int), fv[i as int]);
            assert(fv.take(i as int + 1) =~= fv.take(i as int).push(fv[i as int]));
        }
        i = i + 1;
    }
    proof {
        assert(fv.take(fv.len() as int) =~= fv);
    }
    push_str_block(&mut out, meta.column_name.as_str());
    push_str_block(&mut out, meta.file_prefix.as_str());
    proof {
        assert(out@ =~= meta_bytes(fv, meta.column_name@, meta.file_prefix@));
    }
    out
}

/// Appending one string appends its block.
proof fn lemma_str_blocks_push(ss: Seq<Seq<char>>, s: Seq<char>)
    ensures
        str_blocks(ss.push(s)) == str_blocks(ss) + str_block(s),
    decreases ss.len(),
{
    if ss.len() == 0 {
        assert(ss.push(s).first() == s);
        assert(ss.push(s).drop_first() =~= Seq::<Seq<char>>::empty());
        assert(str_blocks(Seq::<Seq<char>>::empty()) == Seq::<u8>::empty());
        assert(str_blocks(ss.push(s)) =~= str_blocks(ss) + str_block(s));
    } else {
        lemma_str_blocks_push(ss.drop_first(), s);
        assert(ss.push(s).drop_first() =~= ss.drop_first().push(s));
        assert(ss.push(s).first() == ss.first());
        assert(str_blocks(ss.push(s)) =~= str_blocks(ss) + str_block(s));
    }
}

/// Reads a meta payload back; fails exactly when the spec reader does.
pub fn decode_meta(bytes: &Vec<u8>) -> (r: Option<LshBucketsMeta>)
    ensures
        match r {
            Option::Some(m) => decode_meta_spec(bytes@) == Some(
                (m.files.deep_view(), m.column_name@, m.file_prefix@),
            ),
            Option::None => decode_meta_spec(bytes@) is None,
        },
{
    if bytes.len() < 8 {
        return None;
    }
    let n64 = u64_from_le_bytes(slice_subrange(bytes.as_slice(), 0, 8));
    proof {
        assert(bytes@.subrange(0, 8) =~= bytes@.take(8));
    }
    let ghost nn = spec_u64_from_le_bytes(bytes@.take(8)) as nat;
    if n64 > bytes.len() as u64 {
        proof {
            lemma_take_str_blocks_bound(bytes@.skip(8), nn);
            assert(take_str_blocks(bytes@.skip(8), nn) is None);
            assert(decode_meta_spec(bytes@) is None);
        }
        return None;
    }
    let n = n64 as usize;
    let mut files: Vec<String> = Vec::new();
    let mut pos: usize = 8;
    let mut i: usize = 0;
    proof {
        assert(files.deep_view() =~= Seq::<Seq<char>>::empty());
        assert(bytes@.skip(8) =~= bytes@.skip(pos as int));
        assert(n as nat == nn);
        assert forall|p: Option<(Seq<Seq<char>>, Seq<u8>)>|
            true implies #[trigger] blocks_glue(files.deep_view(), p) == p by {
            match p {
                Option::Some(q) => {
                    assert(Seq::<Seq<char>>::empty() + q.0 =~= q.0);
                },
                Option::None => {},
            }
        }
    }
    while i < n
        invariant
            i <= n,
            n as nat == nn,
            nn == spec_u64_from_le_bytes(bytes@.take(8)) as nat,
            bytes@.len() >= 8,
            pos <= bytes@.len(),
            files.deep_view().len() == i,
            take_str_blocks(bytes@.skip(8), nn) == blocks_glue(
                files.deep_view(),
                take_str_blocks(bytes@.skip(pos as int), (n - i) as nat),
            ),
        decreases n - i,
    {
        let ghost old_files = files.deep_view();
        let ghost old_pos = pos as int;
        match read_str_block(bytes, pos) {
            Option::Some(p) => {
                let (s, p2) = p;
                let ghost sv = s@;
                files.push(s);
                pos = p2;
                proof {
                    assert(files.deep_view() =~= old_files.push(sv));
                    let tail = take_str_blocks(bytes@.skip(pos as int), (n - i - 1) as nat);
                    assert(take_str_blocks(bytes@.skip(old_pos), (n - i) as nat) == (match tail {
                        Option::None => None::<(Seq<Seq<char>>, Seq<u8>)>,
                        Option::Some(q) => Some((seq![sv] + q.0, q.1)),
                    }));
                    match tail {
                        Option::Some(q) => {
                            assert(old_files + (seq![sv] + q.0) =~= old_files.push(sv) + q.0);
                            assert(blocks_glue(
                                old_files,
                                take_str_blocks(bytes@.skip(old_pos), (n - i) as nat),
                            ) == blocks_glue(files.deep_view(), tail));
                        },
                        Option::None => {},
                    }
                }
            },
            Option::None => {
                proof {
                    assert(take_str_blocks(bytes@.skip(pos as int), (n - i) as nat) is None);
                    assert(take_str_blocks(bytes@.skip(8), nn) is None);
                    assert(decode_meta_spec(bytes@) is None);
                }
                return None;
            },
        }
        i = i + 1;
    }
    proof {
        assert(take_str_blocks(bytes@.skip(pos as int), 0) == Some(
            (Seq::<Seq<char>>::empty(), bytes@.skip(pos as int)),
        ));
        assert(files.deep_view() + Seq::<Seq<char>>::empty() =~= files.deep_view());
        assert(take_str_blocks(bytes@.skip(8), nn) == Some(
            (files.deep_view(), bytes@.skip(pos as int)),
        ));
    }
    let ghost fv = files.deep_view();
    let column_name = match read_str_block(bytes, pos) {
        Option::Some(p) => {
            let (s, p2) = p;
            pos = p2;
            s
        },
        Option::None => {
            proof {
                assert(decode_meta_spec(bytes@) is None);
            }
            return None;
        },
    };
    let ghost pos_after_col = pos as int;
    let file_prefix = match read_str_block(bytes, pos) {
        Option::Some(p) => {
            let (s, p2) = p;
            pos = p2;
            s
        },
        Option::None => {
            proof {
                assert(decode_meta_spec(bytes@) is None);
            }
            return None;
        },
    };
    if pos != bytes.len() {
        proof {
            assert(bytes@.skip(pos as int).len() != 0);
            assert(decode_meta_spec(bytes@) is None);
        }
        return None;
    }
    proof {
        assert(bytes@.skip(pos as int).len() == 0);
        assert(decode_meta_spec(bytes@) == Some(
            (fv, column_name@, file_prefix@),
        ));
    }
    Some(LshBucketsMeta { files, column_name, file_prefix })
}

/// Reading `n` blocks needs at least eight bytes per block.
pub proof fn lemma_take_str_blocks_bound(b: Seq<u8>, n: nat)
    ensures
        take_str_blocks(b, n) is Some ==> n * 8 <= b.len(),
    decreases n,
{
    if n > 0 {
        match take_str_block(b) {
            Option::Some(q) => {
                lemma_take_str_blocks_bound(q.1, (n - 1) as nat);
                assert(q.1.len() <= b.len() - 8);
                assert(n * 8 == (n - 1) * 8 + 8) by (nonlinear_arith);
            },
            Option::None => {},
        }
    }
}

/// Prepends already-read strings to the result of reading the remaining
/// blocks.
pub open spec fn blocks_glue(
    done: Seq<Seq<char>>,
    rest: Option<(Seq<Seq<char>>, Seq<u8>)>,
) -> Option<(Seq<Seq<char>>, Seq<u8>)> {
    match rest {
        Option::None => None,
        Option::Some(q) => Some((done + q.0, q.1)),
    }
}

/// One group member on disk: path hash then content hash, 10 bytes.
pub open spec fn item_bytes(it: DuplicatesGroupItem) -> Seq<u8> {
    spec_u16_to_le_bytes(it.path_hash) + spec_u64_to_le_bytes(it.content_hash)
}

/// The members of one group, concatenated.
pub open spec fn items_bytes(items: Seq<DuplicatesGroupItem>) -> Seq<u8>
    decreases items.len(),
{
    if items.len() == 0 {
        Seq::empty()
    } else {
        item_bytes(items.first()) + items_bytes(items.drop_first())
    }
}

/// One group on disk: its member count, then its members.
pub open spec fn group_bytes(g: Seq<DuplicatesGroupItem>) -> Seq<u8> {
    spec_u64_to_le_bytes(g.len() as u64) + items_bytes(g)
}

/// The duplicates-groups payload: every group, concatenated in emission
/// order.
pub open spec fn groups_bytes(gs: Seq<Seq<DuplicatesGroupItem>>) -> Seq<u8>
    decreases gs.len(),
{
    if gs.len() == 0 {
        Seq::empty()
    } else {
        group_bytes(gs.first()) + groups_bytes(gs.drop_first())
    }
}

/// Reads `n` members off the front of a payload.
pub open spec fn take_items(b: Seq<u8>, n: nat) -> Option<(Seq<DuplicatesGroupItem>, Seq<u8>)>
    decreases n,
{
    if n == 0 {
        Some((Seq::empty(), b))
    } else if b.len() < 10 {
        None
    } else {
        let it = DuplicatesGroupItem {
            path_hash: spec_u16_from_le_bytes(b.subrange(0, 2)),
            content_hash: spec_u64_from_le_bytes(b.subrange(2, 10)),
        };
        match take_items(b.skip(10), (n - 1) as nat) {
            Option::None => None,
            Option::Some((items, rest)) => Some((seq![it] + items, rest)),
        }
    }
}

/// The tail left by `take_items` is a suffix: never longer than the input.
pub proof fn lemma_take_items_len(b: Seq<u8>, n: nat)
    ensures
        take_items(b, n) matches Some(p) ==> p.1.len() <= b.len(),
    decreases n,
{
    if n > 0 && b.len() >= 10 {
        lemma_take_items_len(b.skip(10), (n - 1) as nat);
    }
}

/// What a groups payload decodes to: its groups in order, or nothing if it
/// is malformed.
pub open spec fn decode_groups_spec(b: Seq<u8>) -> Option<Seq<Seq<DuplicatesGroupItem>>>
    decreases b.len(),
    when b.len() >= 0
    via decode_groups_spec_decreases
{
    if b.len() == 0 {
        Some(Seq::empty())
    } else if b.len() < 8 {
        None
    } else {
        let n = spec_u64_from_le_bytes(b.take(8));
        match take_items(b.skip(8), n as nat) {
            Option::None => None,
            Option::Some((g, rest)) => match decode_groups_spec(rest) {
                Option::None => None,
                Option::Some(gs) => Some(seq![g] + gs),
            },
        }
    }
}

#[via_fn]
proof fn decode_groups_spec_decreases(b: Seq<u8>) {
    if b.len() >= 8 {
        let n = spec_u64_from_le_bytes(b.take(8));
        lemma_take_items_len(b.skip(8), n as nat);
    }
}

/// Reading back `n` encoded members yields them and the tail.
pub proof fn lemma_items_roundtrip(items: Seq<DuplicatesGroupItem>, tail: Seq<u8>)
    ensures
        take_items(items_bytes(items) + tail, items.len()) == Some((items, tail)),
    decreases items.len(),
{
    lemma_auto_spec_u16_to_from_le_bytes();
    lemma_auto_spec_u64_to_from_le_bytes();
    if items.len() == 0 {
        assert(items_bytes(items) + tail =~= tail);
    } else {
        lemma_items_roundtrip(items.drop_first(), tail);
        let b = items_bytes(items) + tail;
        assert(b =~= item_bytes(items.first()) + (items_bytes(items.drop_first()) + tail));
        assert(b.len() >= 10);
        assert(b.subrange(0, 2) =~= spec_u16_to_le_bytes(items.first().path_hash));
        assert(b.subrange(2, 10) =~= spec_u64_to_le_bytes(items.first().content_hash));
        assert(b.skip(10) =~= items_bytes(items.drop_first()) + tail);
        assert(seq![items.first()] + items.drop_first() =~= items);
    }
}

/// Appending one member appends its ten bytes.
proof fn lemma_items_bytes_push(items: Seq<DuplicatesGroupItem>, it: DuplicatesGroupItem)
    ensures
        items_bytes(items.push(it)) == items_bytes(items) + item_bytes(it),
    decreases items.len(),
{
    if items.len() == 0 {
        assert(items.push(it).first() == it);
        assert(items.push(it).drop_first() =~= Seq::<DuplicatesGroupItem>::empty());
        assert(items_bytes(Seq::<DuplicatesGroupItem>::empty()) == Seq::<u8>::empty());
        assert(items_bytes(items.push(it)) =~= items_bytes(items) + item_bytes(it));
    } else {
        lemma_items_bytes_push(items.drop_first(), it);
        assert(items.push(it).drop_first() =~= items.drop_first().push(it));
        assert(items.push(it).first() == items.first());
        assert(items_bytes(items.push(it)) =~= items_bytes(items) + item_bytes(it));
    }
}

/// Appending one group appends its bytes.
proof fn lemma_groups_bytes_push(gs: Seq<Seq<DuplicatesGroupItem>>, g: Seq<DuplicatesGroupItem>)
    ensures
        groups_bytes(gs.push(g)) == groups_bytes(gs) + group_bytes(g),
    decreases gs.len(),
{
    if gs.len() == 0 {
        assert(gs.push(g).first() == g);
        assert(gs.push(g).drop_first() =~= Seq::<Seq<DuplicatesGroupItem>>::empty());
        assert(groups_bytes(Seq::<Seq<DuplicatesGroupItem>>::empty()) == Seq::<u8>::empty());
        assert(groups_bytes(gs.push(g)) =~= groups_bytes(gs) + group_bytes(g));
    } else {
        lemma_groups_bytes_push(gs.drop_first(), g);
        assert(gs.push(g).drop_first() =~= gs.drop_first().push(g));
        assert(gs.push(g).first() == gs.first());
        assert(groups_bytes(gs.push(g)) =~= groups_bytes(gs) + group_bytes(g));
    }
}

/// Writes the groups into the duplicates-groups payload.
pub fn encode_groups(groups: &Vec<crate::groups::DuplicatesGroup>) -> (r: Vec<u8>)
    ensures
        r@ == groups_bytes(crate::groups::groups_seq(groups@)),
{
    let ghost gs = crate::groups::groups_seq(groups@);
    let mut out: Vec<u8> = Vec::new();
    let mut gi: usize = 0;
    proof {
        assert(gs.take(0) =~= Seq::<Seq<DuplicatesGroupItem>>::empty());
        assert(out@ =~= groups_bytes(gs.take(0)));
    }
    while gi < groups.len()
        invariant
            gi <= groups@.len(),
            gs == crate::groups::groups_seq(groups@),
            gs.len() == groups@.len(),
            out@ == groups_bytes(gs.take(gi as int)),
        decreases groups@.len() - gi,
    {
        let g = &groups[gi];
        let ghost gv = gs[gi as int];
        proof {
            assert(gv == groups@[gi as int].group@);
        }
        let ghost before = out@;
        let mut len8 = u64_to_le_bytes(g.group.len() as u64);
        out.append(&mut len8);
        let mut t: usize = 0;
        proof {
            assert(gv.take(0) =~= Seq::<DuplicatesGroupItem>::empty());
            assert(items_bytes(Seq::<DuplicatesGroupItem>::empty()) == Seq::<u8>::empty());
            assert(out@ =~= before + spec_u64_to_le_bytes(gv.len() as u64) + items_bytes(
                gv.take(0),
            ));
        }
        while t < g.group.len()
            invariant
                t <= g.group@.len(),
                g == &groups@[gi as int],
                gi < groups@.len(),
                gv == g.group@,
                out@ == before + spec_u64_to_le_bytes(gv.len() as u64) + items_bytes(
                    gv.take(t as int),
                ),
            decreases g.group@.len() - t,
        {
            let it = g.group[t];
            let mut ph2 = u16_to_le_bytes(it.path_hash);
            out.append(&mut ph2);
            let mut ch8 = u64_to_le_bytes(it.content_hash);
            out.append(&mut ch8);
            proof {
                lemma_items_bytes_push(gv.take(t as int), gv[t as int]);
                assert(gv.take(t as int + 1) =~= gv.take(t as int).push(gv[t as int]));
                assert(out@ =~= before + spec_u64_to_le_bytes(gv.len() as u64) + items_bytes(
                    gv.take(t as int + 1),
                ));
            }
            t = t + 1;
        }
        proof {
            assert(gv.take(gv.len() as int) =~= gv);
            lemma_groups_bytes_push(gs.take(gi as int), gv);
            assert(gs.take(gi as int + 1) =~= gs.take(gi as int).push(gv));
            assert(out@ =~= groups_bytes(gs.take(gi as int)) + group_bytes(gv));
        }
        gi = gi + 1;
    }
    proof {
        assert(gs.take(gs.len() as int) =~= gs);
    }
    out
}

/// Prepends already-read members to the result of reading the rest.
pub open spec fn items_glue(
    done: Seq<DuplicatesGroupItem>,
    rest: Option<(Seq<DuplicatesGroupItem>, Seq<u8>)>,
) -> Option<(Seq<DuplicatesGroupItem>, Seq<u8>)> {
    match rest {
        Option::None => None,
        Option::Some(q) => Some((done + q.0, q.1)),
    }
}

/// Prepends already-read groups to the result of reading the rest.
pub open spec fn groups_glue(
    done: Seq<Seq<DuplicatesGroupItem>>,
    rest: Option<Seq<Seq<DuplicatesGroupItem>>>,
) -> Option<Seq<Seq<DuplicatesGroupItem>>> {
    match rest {
        Option::None => None,
        Option::Some(gs) => Some(done + gs),
    }
}

/// Reads a duplicates-groups payload back; fails exactly when the spec
/// reader does.
pub fn decode_groups(bytes: &Vec<u8>) -> (r: Option<Vec<crate::groups::DuplicatesGroup>>)
    ensures
        match r {
            Option::Some(gs) => decode_groups_spec(bytes@) == Some(
                crate::groups::groups_seq(gs@),
            ),
            Option::None => decode_groups_spec(bytes@) is None,
        },
{
    let mut groups: Vec<crate::groups::DuplicatesGroup> = Vec::new();
    let mut pos: usize = 0;
    proof {
        assert(bytes@.skip(0) =~= bytes@);
        assert(crate::groups::groups_seq(groups@) =~= Seq::<Seq<DuplicatesGroupItem>>::empty());
        assert forall|q: Option<Seq<Seq<DuplicatesGroupItem>>>|
            true implies #[trigger] groups_glue(crate::groups::groups_seq(groups@), q) == q by {
            match q {
                Option::Some(gs2) => {
                    assert(Seq::<Seq<DuplicatesGroupItem>>::empty() + gs2 =~= gs2);
                },
                Option::None => {},
            }
        }
    }
    while pos < bytes.len()
        invariant
            pos <= bytes@.len(),
            decode_groups_spec(bytes@) == groups_glue(
                crate::groups::groups_seq(groups@),
                decode_groups_spec(bytes@.skip(pos as int)),
            ),
        decreases bytes@.len() - pos,
    {
        let here = bytes.len() - pos;
        if here < 8 {
            proof {
                assert(bytes@.skip(pos as int).len() < 8);
                assert(bytes@.skip(pos as int).len() != 0);
                assert(decode_groups_spec(bytes@.skip(pos as int)) is None);
            }
            return None;
        }
        let cnt64 = u64_from_le_bytes(slice_subrange(bytes.as_slice(), pos, pos + 8));
        let ghost base = bytes@.skip(pos as int);
        proof {
            assert(bytes@.subrange(pos as int, pos as int + 8) =~= base.take(8));
        }
        let mut items: Vec<DuplicatesGroupItem> = Vec::new();
        let mut ipos: usize = pos + 8;
        let mut t: u64 = 0;
        proof {
            assert(base.skip(8) =~= bytes@.skip(pos as int + 8));
            assert(items@ =~= Seq::<DuplicatesGroupItem>::empty());
            assert forall|q: Option<(Seq<DuplicatesGroupItem>, Seq<u8>)>|
                true implies #[trigger] items_glue(items@, q) == q by {
                match q {
                    Option::Some(p) => {
                        assert(Seq::<DuplicatesGroupItem>::empty() + p.0 =~= p.0);
                    },
                    Option::None => {},
                }
            }
        }
        while t < cnt64
            invariant
                t <= cnt64,
                pos + 8 <= ipos <= bytes@.len(),
                base == bytes@.skip(pos as int),
                pos <= bytes@.len(),
                base.len() >= 8,
                cnt64 == spec_u64_from_le_bytes(base.take(8)),
                decode_groups_spec(bytes@) == groups_glue(
                    crate::groups::groups_seq(groups@),
                    decode_groups_spec(base),
                ),
                items@.len() == t,
                take_items(base.skip(8), cnt64 as nat) == items_glue(
                    items@,
                    take_items(bytes@.skip(ipos as int), (cnt64 - t) as nat),
                ),
            decreases cnt64 - t,
        {
            let ghost cur = bytes@.skip(ipos as int);
            if bytes.len() - ipos < 10 {
                proof {
                    assert(cur.len() < 10);
                    assert(take_items(cur, (cnt64 - t) as nat) is None);
                    assert(take_items(base.skip(8), cnt64 as nat) is None);
                    assert(decode_groups_spec(base) is None);
                }
                return None;
            }
            let ph = u16_from_le_bytes(slice_subrange(bytes.as_slice(), ipos, ipos + 2));
            let ch = u64_from_le_bytes(slice_subrange(bytes.as_slice(), ipos + 2, ipos + 10));
            let it = DuplicatesGroupItem { path_hash: ph, content_hash: ch };
            let ghost old_items = items@;
            proof {
                assert(bytes@.subrange(ipos as int, ipos as int + 2) =~= cur.subrange(0, 2));
                assert(bytes@.subrange(ipos as int + 2, ipos as int + 10) =~= cur.subrange(2, 10));
                let tail = take_items(bytes@.skip(ipos as int + 10), (cnt64 - t - 1) as nat);
                assert(cur.skip(10) =~= bytes@.skip(ipos as int + 10));
                assert(take_items(cur, (cnt64 - t) as nat) == (match tail {
                    Option::None => None::<(Seq<DuplicatesGroupItem>, Seq<u8>)>,
                    Option::Some(q) => Some((seq![it] + q.0, q.1)),
                }));
                match tail {
                    Option::Some(q) => {
                        assert(old_items + (seq![it] + q.0) =~= old_items.push(it) + q.0);
                    },
                    Option::None => {},
                }
            }
            items.push(it);
            ipos = ipos + 10;
            t = t + 1;
            proof {
                assert(items@ =~= old_items.push(it));
            }
        }
        proof {
            assert(take_items(bytes@.skip(ipos as int), 0) == Some(
                (Seq::<DuplicatesGroupItem>::empty(), bytes@.skip(ipos as int)),
            ));
            assert(items@ + Seq::<DuplicatesGroupItem>::empty() =~= items@);
            assert(take_items(base.skip(8), cnt64 as nat) == Some(
                (items@, bytes@.skip(ipos as int)),
            ));
        }
        let ghost old_groups = crate::groups::groups_seq(groups@);
        groups.push(crate::groups::DuplicatesGroup { group: items });
        pos = ipos;
        proof {
            let gvnew = crate::groups::groups_seq(groups@);
            assert(gvnew =~= old_groups.push(gvnew[gvnew.len() - 1]));
            assert(gvnew[gvnew.len() - 1] == groups@[groups@.len() - 1].group@);
            assert(decode_groups_spec(base) == (match decode_groups_spec(bytes@.skip(pos as int)) {
                Option::None => None::<Seq<Seq<DuplicatesGroupItem>>>,
                Option::Some(gs2) => Some(seq![gvnew[gvnew.len() - 1]] + gs2),
            }));
            match decode_groups_spec(bytes@.skip(pos as int)) {
                Option::Some(gs2) => {
                    assert(old_groups + (seq![gvnew[gvnew.len() - 1]] + gs2) =~= gvnew + gs2);
                },
                Option::None => {},
            }
        }
    }
    proof {
        assert(bytes@.skip(pos as int).len() == 0);
        assert(decode_groups_spec(bytes@.skip(pos as int)) == Some(
            Seq::<Seq<DuplicatesGroupItem>>::empty(),
        ));
        assert(crate::groups::groups_seq(groups@) + Seq::<Seq<DuplicatesGroupItem>>::empty()
            =~= crate::groups::groups_seq(groups@));
    }
    Some(groups)
}

/// Round trip: an encoded groups payload decodes back to its groups.
pub proof fn lemma_groups_roundtrip(gs: Seq<Seq<DuplicatesGroupItem>>)
    requires
        forall|i: int| 0 <= i < gs.len() ==> (#[trigger] gs[i]).len() <= u64::MAX,
    ensures
        decode_groups_spec(groups_bytes(gs)) == Some(gs),
    decreases gs.len(),
{
    lemma_auto_spec_u64_to_from_le_bytes();
    if gs.len() == 0 {
    } else {
        assert forall|i: int|
            0 <= i < gs.drop_first().len() implies (#[trigger] gs.drop_first()[i]).len()
            <= u64::MAX by {
            assert(gs.drop_first()[i] == gs[i + 1]);
        }
        lemma_groups_roundtrip(gs.drop_first());
        let g = gs.first();
        assert(g.len() <= u64::MAX);
        let b = groups_bytes(gs);
        assert(b =~= spec_u64_to_le_bytes(g.len() as u64) + (items_bytes(g) + groups_bytes(
            gs.drop_first(),
        )));
        assert(b.len() >= 8);
        assert(b.take(8) =~= spec_u64_to_le_bytes(g.len() as u64));
        assert(b.skip(8) =~= items_bytes(g) + groups_bytes(gs.drop_first()));
        lemma_items_roundtrip(g, groups_bytes(gs.drop_first()));
        assert(seq![g] + gs.drop_first() =~= gs);
    }
}

} // verus!
