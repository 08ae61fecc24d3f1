//! Filter files. Each duplicates group keeps its survivor (position 0) and
//! drops every other member: the member's content hash is appended to the
//! filter of its path hash. The applier then drops exactly the rows of a
//! file whose content hash occurs in that file's filter.
use vstd::prelude::*;

verus! {

use vstd::bytes::spec_u64_to_le_bytes;
use vstd::bytes::spec_u64_from_le_bytes;
use vstd::bytes::lemma_auto_spec_u64_to_from_le_bytes;
use vstd::bytes::u64_to_le_bytes;
use vstd::bytes::u64_from_le_bytes;
use vstd::slice::slice_subrange;
use crate::groups::DuplicatesGroup;
use crate::groups::DuplicatesGroupItem;
use crate::groups::groups_seq;
use crate::hashes::content_hash;
use crate::hashes::content_hash_of;

/// The content hashes that a prefix of one group's non-survivor members
/// drops for path hash `ph`, in order.
pub open spec fn item_drops_for(items: Seq<DuplicatesGroupItem>, ph: u16) -> Seq<u64>
    decreases items.len(),
{
    if items.len() == 0 {
        Seq::empty()
    } else {
        let rest = item_drops_for(items.drop_last(), ph);
        if items.last().path_hash == ph {
            rest + seq![items.last().content_hash]
        } else {
            rest
        }
    }
}

/// The content hashes a sequence of groups drops for path hash `ph`: every
/// member but each group's survivor, in emission order.
pub open spec fn dropped_for(gs: Seq<Seq<DuplicatesGroupItem>>, ph: u16) -> Seq<u64>
    decreases gs.len(),
{
    if gs.len() == 0 {
        Seq::empty()
    } else {
        let rest = dropped_for(gs.drop_last(), ph);
        if gs.last().len() <= 1 {
            rest
        } else {
            rest + item_drops_for(gs.last().skip(1), ph)
        }
    }
}

/// One filter file: the content hashes to drop from inputs with this path
/// hash.
pub struct FilterFile {
    pub path_hash: u16,
    pub hashes: Vec<u64>,
}

/// Finds the filter for a path hash, if one exists yet.
fn find_filter(filters: &Vec<FilterFile>, ph: u16) -> (r: Option<usize>)
    ensures
        match r {
            Option::Some(ix) => ix < filters@.len() && filters@[ix as int].path_hash == ph,
            Option::None => forall|k: int|
                0 <= k < filters@.len() ==> (#[trigger] filters@[k]).path_hash != ph,
        },
{
    let mut k: usize = 0;
    while k < filters.len()
        invariant
            k <= filters@.len(),
            forall|q: int| 0 <= q < k ==> (#[trigger] filters@[q]).path_hash != ph,
        decreases filters@.len() - k,
    {
        if filters[k].path_hash == ph {
            return Some(k);
        }
        k = k + 1;
    }
    None
}

/// Builds the per-path-hash filters from the duplicate groups: for every
/// group, every member after the survivor contributes its content hash to
/// the filter of its path hash. Each path hash appears at most once, holds
/// exactly its dropped hashes in emission order, and appears exactly when
/// something is dropped for it.
pub fn build_filters(groups: &Vec<DuplicatesGroup>) -> (filters: Vec<FilterFile>)
    ensures
        forall|a: int, b: int|
            0 <= a < b < filters@.len() ==> (#[trigger] filters@[a]).path_hash != (
            #[trigger] filters@[b]).path_hash,
        forall|k: int|
            0 <= k < filters@.len() ==> (#[trigger] filters@[k]).hashes@ == dropped_for(
                groups_seq(groups@),
                filters@[k].path_hash,
            ) && filters@[k].hashes@.len() > 0,
        forall|ph: u16|
            dropped_for(groups_seq(groups@), ph).len() > 0 ==> exists|k: int|
                0 <= k < filters@.len() && (#[trigger] filters@[k]).path_hash == ph,
{
    let ghost gs = groups_seq(groups@);
    let mut filters: Vec<FilterFile> = Vec::new();
    let mut gi: usize = 0;
    proof {
        assert(gs.take(0) =~= Seq::<Seq<DuplicatesGroupItem>>::empty());
    }
    while gi < groups.len()
        invariant
            gi <= groups@.len(),
            gs == groups_seq(groups@),
            gs.len() == groups@.len(),
            forall|a: int, b: int|
                0 <= a < b < filters@.len() ==> (#[trigger] filters@[a]).path_hash != (
                #[trigger] filters@[b]).path_hash,
            forall|k: int|
                0 <= k < filters@.len() ==> (#[trigger] filters@[k]).hashes@ == dropped_for(
                    gs.take(gi as int),
                    filters@[k].path_hash,
                ) && filters@[k].hashes@.len() > 0,
            forall|ph: u16|
                dropped_for(gs.take(gi as int), ph).len() > 0 ==> exists|k: int|
                    0 <= k < filters@.len() && (#[trigger] filters@[k]).path_hash == ph,
        decreases groups@.len() - gi,
    {
        let g = &groups[gi];
        let n = g.group.len();
        let ghost items = gs[gi as int].skip(1);
        proof {
            assert(gs[gi as int] == groups@[gi as int].group@);
            assert(items.take(0) =~= Seq::<DuplicatesGroupItem>::empty());
            assert(item_drops_for(Seq::<DuplicatesGroupItem>::empty(), 0u16) == Seq::<u64>::empty());
        }
        let mut t: usize = 1;
        while t < n
            invariant
                1 <= t <= n || (n == 0 && t == 1),
                n == g.group@.len(),
                g == &groups@[gi as int],
                gi < groups@.len(),
                gs == groups_seq(groups@),
                gs.len() == groups@.len(),
                items == gs[gi as int].skip(1),
                gs[gi as int] == groups@[gi as int].group@,
                forall|a: int, b: int|
                    0 <= a < b < filters@.len() ==> (#[trigger] filters@[a]).path_hash != (
                    #[trigger] filters@[b]).path_hash,
                forall|k: int|
                    0 <= k < filters@.len() ==> (#[trigger] filters@[k]).hashes@ == dropped_for(
                        gs.take(gi as int),
                        filters@[k].path_hash,
                    ) + item_drops_for(items.take(t - 1), filters@[k].path_hash)
                        && filters@[k].hashes@.len() > 0,
                forall|ph: u16|
                    (dropped_for(gs.take(gi as int), ph) + item_drops_for(
                        items.take(t - 1),
                        ph,
                    )).len() > 0 ==> exists|k: int|
                        0 <= k < filters@.len() && (#[trigger] filters@[k]).path_hash == ph,
            decreases n - t,
        {
            let it = g.group[t];
            let ph = it.path_hash;
            let ch = it.content_hash;
            proof {
                assert(items[t - 1] == groups@[gi as int].group@[t as int]);
                assert(items[t - 1] == it);
                assert(items.take(t as int).drop_last() =~= items.take(t - 1));
                assert(items.take(t as int).last() == items[t - 1]);
                assert forall|q: u16| true implies #[trigger] item_drops_for(
                    items.take(t as int),
                    q,
                ) == (if q == ph {
                    item_drops_for(items.take(t - 1), q) + seq![ch]
                } else {
                    item_drops_for(items.take(t - 1), q)
                }) by {}
            }
            let found = find_filter(&filters, ph);
            let ghost old_filters = filters@;
            match found {
                Option::Some(ix) => {
                    let mut entry = filters.remove(ix);
                    entry.hashes.push(ch);
                    let ghost updated = entry;
                    filters.insert(ix, entry);
                    proof {
                        assert(filters@ =~= old_filters.update(ix as int, updated));
                        assert(filters@[ix as int].hashes@ =~= old_filters[ix as int].hashes@.push(
                            ch,
                        ));
                        assert(old_filters[ix as int].hashes@.push(ch) =~= old_filters[ix as int].hashes@
                            + seq![ch]);
                        assert(forall|k: int|
                            0 <= k < filters@.len() && k != ix ==> #[trigger] filters@[k]
                                == old_filters[k]);
                        assert(filters@[ix as int].path_hash == ph);
                    }
                },
                Option::None => {
                    let mut hashes: Vec<u64> = Vec::new();
                    hashes.push(ch);
                    filters.push(FilterFile { path_hash: ph, hashes });
                    proof {
                        assert(filters@ =~= old_filters.push(filters@[filters@.len() - 1]));
                        assert(filters@[filters@.len() - 1].path_hash == ph);
                        assert(filters@[filters@.len() - 1].hashes@ =~= seq![ch]);
                        assert((dropped_for(gs.take(gi as int), ph) + item_drops_for(
                            items.take(t - 1),
                            ph,
                        )).len() == 0);
                        assert(dropped_for(gs.take(gi as int), ph) =~= Seq::<u64>::empty());
                        assert(item_drops_for(items.take(t - 1), ph) =~= Seq::<u64>::empty());
                        assert(forall|k: int|
                            0 <= k < old_filters.len() ==> #[trigger] filters@[k]
                                == old_filters[k]);
                        assert(filters@[filters@.len() - 1].path_hash == ph);
                    }
                },
            }
            proof {
                assert forall|k: int|
                    0 <= k < filters@.len() implies (#[trigger] filters@[k]).hashes@
                    == dropped_for(gs.take(gi as int), filters@[k].path_hash) + item_drops_for(
                    items.take(t as int),
                    filters@[k].path_hash,
                ) && filters@[k].hashes@.len() > 0 by {
                    if filters@[k].path_hash == ph {
                        assert(filters@[k].hashes@ =~= dropped_for(
                            gs.take(gi as int),
                            ph,
                        ) + (item_drops_for(items.take(t - 1), ph) + seq![ch]));
                    } else {
                        assert(item_drops_for(items.take(t as int), filters@[k].path_hash)
                            == item_drops_for(items.take(t - 1), filters@[k].path_hash));
                    }
                }
                assert forall|q: u16|
                    (dropped_for(gs.take(gi as int), q) + item_drops_for(
                        items.take(t as int),
                        q,
                    )).len() > 0 implies exists|k: int|
                        0 <= k < filters@.len() && (#[trigger] filters@[k]).path_hash == q by {
                    if q != ph {
                        assert((dropped_for(gs.take(gi as int), q) + item_drops_for(
                            items.take(t - 1),
                            q,
                        )).len() > 0);
                        let k0 = choose|k0: int|
                            0 <= k0 < old_filters.len() && old_filters[k0].path_hash == q;
                        assert(filters@[k0].path_hash == q);
                    }
                }
            }
            t = t + 1;
        }
        proof {
            assert(gs.take(gi as int + 1) =~= gs.take(gi as int).push(gs[gi as int]));
            assert(gs.take(gi as int + 1).drop_last() =~= gs.take(gi as int));
            assert(gs.take(gi as int + 1).last() == gs[gi as int]);
            if n >= 2 {
                assert(items.take(n - 1) =~= items);
                assert forall|q: u16|
                    #[trigger] dropped_for(gs.take(gi as int + 1), q) == dropped_for(
                    gs.take(gi as int),
                    q,
                ) + item_drops_for(items, q) by {
                    assert(gs.take(gi as int + 1).last().skip(1) =~= items);
                }
            } else {
                assert forall|q: u16|
                    #[trigger] dropped_for(gs.take(gi as int + 1), q) == dropped_for(
                    gs.take(gi as int),
                    q,
                ) by {}
                assert forall|k: int|
                    0 <= k < filters@.len() implies (#[trigger] filters@[k]).hashes@
                    == dropped_for(gs.take(gi as int + 1), filters@[k].path_hash) by {
                    assert(filters@[k].hashes@ == dropped_for(
                        gs.take(gi as int),
                        filters@[k].path_hash,
                    ) + item_drops_for(items.take(0), filters@[k].path_hash));
                    assert(items.take(0) =~= Seq::<DuplicatesGroupItem>::empty());
                    assert(item_drops_for(Seq::<DuplicatesGroupItem>::empty(), filters@[k].path_hash)
                        == Seq::<u64>::empty());
                    assert(dropped_for(gs.take(gi as int), filters@[k].path_hash) + Seq::<u64>::empty()
                        =~= dropped_for(gs.take(gi as int), filters@[k].path_hash));
                }
                assert forall|q: u16|
                    #[trigger] dropped_for(gs.take(gi as int + 1), q).len() > 0 implies exists|
                        k: int,
                    |
                        0 <= k < filters@.len() && (#[trigger] filters@[k]).path_hash == q by {
                    assert((dropped_for(gs.take(gi as int), q) + item_drops_for(
                        items.take(0),
                        q,
                    )).len() > 0);
                }
            }
        }
        gi = gi + 1;
    }
    proof {
        assert(gs.take(groups@.len() as int) =~= gs);
    }
    filters
}

/// Whether a content hash occurs in a filter.
pub fn filter_contains(filter: &Vec<u64>, x: u64) -> (r: bool)
    ensures
        r == filter@.contains(x),
{
    let mut k: usize = 0;
    while k < filter.len()
        invariant
            k <= filter@.len(),
            forall|q: int| 0 <= q < k ==> filter@[q] != x,
        decreases filter@.len() - k,
    {
        if filter[k] == x {
            return true;
        }
        k = k + 1;
    }
    proof {
        assert(!filter@.contains(x));
    }
    false
}

/// The rows of a file that survive its filter: exactly those whose content
/// hash does not occur in it, in file order.
pub open spec fn kept_texts(texts: Seq<Seq<char>>, filter: Seq<u64>) -> Seq<Seq<char>>
    decreases texts.len(),
{
    if texts.len() == 0 {
        Seq::empty()
    } else {
        let rest = kept_texts(texts.drop_last(), filter);
        if filter.contains(content_hash_of(texts.last())) {
            rest
        } else {
            rest + seq![texts.last()]
        }
    }
}

/// Applies one file's filter to its rows: a row is dropped exactly when its
/// content hash occurs in the filter. Also reports how many rows were seen
/// and how many were dropped.
pub fn apply_filter_to_texts(texts: Vec<String>, filter: &Vec<u64>) -> (r: (Vec<String>, u64, u64))
    requires
        texts@.len() <= u64::MAX,
    ensures
        r.0.deep_view() == kept_texts(texts.deep_view(), filter@),
        r.1 == texts@.len(),
        r.2 == texts@.len() - r.0@.len(),
{
    let ghost tv = texts.deep_view();
    let n = texts.len();
    let mut kept: Vec<String> = Vec::new();
    let mut i: usize = 0;
    proof {
        assert(tv.take(0) =~= Seq::<Seq<char>>::empty());
        assert(kept.deep_view() =~= Seq::<Seq<char>>::empty());
    }
    let mut texts = texts;
    let mut dropped: u64 = 0;
    let mut it: usize = 0;
    while it < n
        invariant
            it <= n,
            n == texts@.len(),
            n <= u64::MAX,
            tv == texts.deep_view(),
            dropped <= it,
            kept.deep_view() =~= kept_texts(tv.take(it as int), filter@),
            kept@.len() + dropped == it,
        decreases n - it,
    {
        let ch = content_hash(texts[it].as_str());
        proof {
            assert(texts.deep_view()[it as int] == texts@[it as int]@);
            assert(tv.take(it as int + 1).drop_last() =~= tv.take(it as int));
            assert(tv.take(it as int + 1).last() == tv[it as int]);
        }
        let ghost old_kept = kept.deep_view();
        if !filter_contains(filter, ch) {
            let s = String::clone(&texts[it]);
            kept.push(s);
            proof {
                assert(kept.deep_view() =~= old_kept.push(tv[it as int]));
                assert(old_kept.push(tv[it as int]) =~= old_kept + seq![tv[it as int]]);
            }
        } else {
            dropped = dropped + 1;
        }
        it = it + 1;
    }
    proof {
        assert(tv.take(n as int) =~= tv);
    }
    (kept, n as u64, dropped)
}

/// A row appears in the output exactly when its content hash is not in the
/// filter: every surviving row is one of the input rows, and every input
/// row with an unfiltered hash appears.
pub proof fn lemma_kept_texts_membership(texts: Seq<Seq<char>>, filter: Seq<u64>)
    ensures
        forall|j: int|
            0 <= j < kept_texts(texts, filter).len() ==> texts.contains(
                #[trigger] kept_texts(texts, filter)[j],
            ) && !filter.contains(content_hash_of(kept_texts(texts, filter)[j])),
        forall|i: int|
            0 <= i < texts.len() && !filter.contains(content_hash_of(#[trigger] texts[i]))
                ==> kept_texts(texts, filter).contains(texts[i]),
    decreases texts.len(),
{
    if texts.len() == 0 {
    } else {
        lemma_kept_texts_membership(texts.drop_last(), filter);
        let rest = kept_texts(texts.drop_last(), filter);
        assert forall|j: int|
            0 <= j < kept_texts(texts, filter).len() implies texts.contains(
            #[trigger] kept_texts(texts, filter)[j],
        ) && !filter.contains(content_hash_of(kept_texts(texts, filter)[j])) by {
            if j < rest.len() {
                assert(kept_texts(texts, filter)[j] == rest[j]);
                assert(texts.drop_last().contains(rest[j]));
                let w = choose|w: int| 0 <= w < texts.drop_last().len() && texts.drop_last()[w]
                    == rest[j];
                assert(texts[w] == rest[j]);
            } else {
                assert(kept_texts(texts, filter)[j] == texts.last());
                assert(texts[texts.len() - 1] == texts.last());
            }
        }
        assert forall|i: int|
            0 <= i < texts.len() && !filter.contains(content_hash_of(#[trigger] texts[i]))
                implies kept_texts(texts, filter).contains(texts[i]) by {
            if i < texts.len() - 1 {
                assert(texts.drop_last()[i] == texts[i]);
                assert(rest.contains(texts[i]));
                let w = choose|w: int| 0 <= w < rest.len() && rest[w] == texts[i];
                if filter.contains(content_hash_of(texts.last())) {
                    assert(kept_texts(texts, filter)[w] == texts[i]);
                } else {
                    assert(kept_texts(texts, filter)[w] == texts[i]);
                }
            } else {
                assert(texts[i] == texts.last());
                assert(kept_texts(texts, filter)[kept_texts(texts, filter).len() - 1]
                    == texts.last());
            }
        }
    }
}

/// The payload of a filter file: its content hashes, concatenated as
/// little-endian 8-byte values.
pub open spec fn filter_bytes(hashes: Seq<u64>) -> Seq<u8>
    decreases hashes.len(),
{
    if hashes.len() == 0 {
        Seq::empty()
    } else {
        spec_u64_to_le_bytes(hashes.first()) + filter_bytes(hashes.drop_first())
    }
}

proof fn lemma_filter_bytes_push(hashes: Seq<u64>, h: u64)
    ensures
        filter_bytes(hashes.push(h)) == filter_bytes(hashes) + spec_u64_to_le_bytes(h),
    decreases hashes.len(),
{
    if hashes.len() == 0 {
        assert(hashes.push(h).first() == h);
        assert(hashes.push(h).drop_first() =~= Seq::<u64>::empty());
        assert(filter_bytes(Seq::<u64>::empty()) == Seq::<u8>::empty());
        assert(filter_bytes(hashes.push(h)) =~= filter_bytes(hashes) + spec_u64_to_le_bytes(h));
    } else {
        lemma_filter_bytes_push(hashes.drop_first(), h);
        assert(hashes.push(h).drop_first() =~= hashes.drop_first().push(h));
        assert(hashes.push(h).first() == hashes.first());
        assert(filter_bytes(hashes.push(h)) =~= filter_bytes(hashes) + spec_u64_to_le_bytes(h));
    }
}

/// What a filter payload decodes to, or nothing if it is not a whole number
/// of hashes.
pub open spec fn decode_filter_spec(b: Seq<u8>) -> Option<Seq<u64>>
    decreases b.len(),
{
    if b.len() == 0 {
        Some(Seq::empty())
    } else if b.len() < 8 {
        None
    } else {
        match decode_filter_spec(b.skip(8)) {
            Option::None => None,
            Option::Some(rest) => Some(seq![spec_u64_from_le_bytes(b.take(8))] + rest),
        }
    }
}

/// Round trip: an encoded filter decodes to exactly its hashes.
pub proof fn lemma_filter_roundtrip(hashes: Seq<u64>)
    ensures
        decode_filter_spec(filter_bytes(hashes)) == Some(hashes),
    decreases hashes.len(),
{
    lemma_auto_spec_u64_to_from_le_bytes();
    if hashes.len() == 0 {
    } else {
        lemma_filter_roundtrip(hashes.drop_first());
        let b = filter_bytes(hashes);
        assert(b == spec_u64_to_le_bytes(hashes.first()) + filter_bytes(hashes.drop_first()));
        assert(b.len() >= 8);
        assert(b.take(8) =~= spec_u64_to_le_bytes(hashes.first()));
        assert(b.skip(8) =~= filter_bytes(hashes.drop_first()));
        assert(seq![hashes.first()] + hashes.drop_first() =~= hashes);
    }
}

/// Writes a filter's hashes into their packed payload.
pub fn encode_filter(hashes: &Vec<u64>) -> (r: Vec<u8>)
    ensures
        r@ == filter_bytes(hashes@),
{
    let mut out: Vec<u8> = Vec::new();
    let mut i: usize = 0;
    proof {
        assert(hashes@.take(0) =~= Seq::<u64>::empty());
    }
    while i < hashes.len()
        invariant
            i <= hashes@.len(),
            out@ == filter_bytes(hashes@.take(i as int)),
        decreases hashes@.len() - i,
    {
        let ghost before = out@;
        let mut four = u64_to_le_bytes(hashes[i]);
        out.append(&mut four);
        proof {
            lemma_filter_bytes_push(hashes@.take(i as int), hashes@[i as int]);
            assert(hashes@.take(i as int + 1) =~= hashes@.take(i as int).push(hashes@[i as int]));
        }
        i = i + 1;
    }
    proof {
        assert(hashes@.take(hashes@.len() as int) =~= hashes@);
    }
    out
}

/// Reads a filter payload back; fails exactly when it is not a whole number
/// of hashes.
pub fn decode_filter(bytes: &Vec<u8>) -> (r: Option<Vec<u64>>)
    ensures
        match r {
            Option::Some(hashes) => decode_filter_spec(bytes@) == Some(hashes@),
            Option::None => decode_filter_spec(bytes@) is None,
        },
{
    proof {
        lemma_decode_filter_closed(bytes@);
    }
    if bytes.len() % 8 != 0 {
        return None;
    }
    let n = bytes.len() / 8;
    let ghost whole = Seq::new(
        n as nat,
        |k: int| spec_u64_from_le_bytes(bytes@.subrange(8 * k, 8 * k + 8)),
    );
    let mut hashes: Vec<u64> = Vec::new();
    let mut i: usize = 0;
    while i < n
        invariant
            i <= n,
            n * 8 == bytes@.len(),
            bytes@.len() <= usize::MAX,
            whole == Seq::new(
                n as nat,
                |k: int| spec_u64_from_le_bytes(bytes@.subrange(8 * k, 8 * k + 8)),
            ),
            hashes@ =~= whole.take(i as int),
        decreases n - i,
    {
        proof {
            assert((i as int) * 8 + 8 <= bytes@.len()) by (nonlinear_arith)
                requires
                    i < n,
                    (n as int) * 8 == bytes@.len(),
            ;
        }
        let base = i * 8;
        let h = u64_from_le_bytes(slice_subrange(bytes.as_slice(), base, base + 8));
        proof {
            assert(bytes@.subrange(base as int, base as int + 8) =~= bytes@.subrange(
                8 * (i as int),
                8 * (i as int) + 8,
            ));
            assert(whole.take(i as int + 1) =~= whole.take(i as int).push(whole[i as int]));
        }
        hashes.push(h);
        i = i + 1;
    }
    proof {
        assert(whole.take(n as int) =~= whole);
    }
    Some(hashes)
}

/// A filter payload decodes exactly when its length is a multiple of eight,
/// to the hash at each 8-byte chunk.
proof fn lemma_decode_filter_closed(b: Seq<u8>)
    ensures
        decode_filter_spec(b) is Some <==> b.len() % 8 == 0,
        b.len() % 8 == 0 ==> decode_filter_spec(b) == Some(
            Seq::new(b.len() / 8, |k: int| spec_u64_from_le_bytes(b.subrange(8 * k, 8 * k + 8))),
        ),
    decreases b.len(),
{
    if b.len() == 0 {
        assert(Seq::new(0, |k: int| spec_u64_from_le_bytes(b.subrange(8 * k, 8 * k + 8)))
            =~= Seq::<u64>::empty());
    } else if b.len() < 8 {
    } else {
        let rest = b.skip(8);
        lemma_decode_filter_closed(rest);
        if b.len() % 8 == 0 {
            let n = b.len() / 8;
            let whole = Seq::new(
                n,
                |k: int| spec_u64_from_le_bytes(b.subrange(8 * k, 8 * k + 8)),
            );
            let tail = Seq::new(
                (n - 1) as nat,
                |k: int| spec_u64_from_le_bytes(rest.subrange(8 * k, 8 * k + 8)),
            );
            assert forall|k: int| 0 <= k < n - 1 implies tail[k] == whole[k + 1] by {
                assert(rest.subrange(8 * k, 8 * k + 8) =~= b.subrange(
                    8 * (k + 1),
                    8 * (k + 1) + 8,
                ));
            }
            assert(b.take(8) =~= b.subrange(0, 8));
            assert(whole[0] == spec_u64_from_le_bytes(b.subrange(0, 8)));
            assert(seq![spec_u64_from_le_bytes(b.take(8))] + tail =~= whole);
        }
    }
}

} // verus!
