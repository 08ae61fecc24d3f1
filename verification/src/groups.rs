//! Duplicate-group discovery. A single pass over the globally sorted record
//! stream cuts it into maximal runs that share `(bucket_index, bucket_hash)`;
//! every run of two or more records becomes a duplicates group, its members
//! sorted by content hash ascending (ties by path hash). The member at
//! position 0 — the least content hash — is the group's survivor.
use vstd::prelude::*;

verus! {

use vstd::relations::total_ordering;
use vstd::relations::sorted_by;
use crate::lsh::LshBucketRow;
use crate::sort::rows_sorted;

/// One group membership: which file (by path hash) and which row (by
/// content hash).
#[derive(Clone, Copy, PartialEq, Eq, Structural, Debug)]
pub struct DuplicatesGroupItem {
    pub path_hash: u16,
    pub content_hash: u64,
}

/// One duplicates group: its memberships, sorted by content hash.
pub struct DuplicatesGroup {
    pub group: Vec<DuplicatesGroupItem>,
}

/// The membership a record contributes to its group.
pub open spec fn item_of_row(r: LshBucketRow) -> DuplicatesGroupItem {
    DuplicatesGroupItem { path_hash: r.path_hash, content_hash: r.content_hash }
}

/// Whether two records fall into the same bucket.
pub open spec fn same_key(a: LshBucketRow, b: LshBucketRow) -> bool {
    a.bucket_index == b.bucket_index && a.bucket_hash == b.bucket_hash
}

/// Group emission order: content hash ascending, ties by path hash.
pub open spec fn item_le(a: DuplicatesGroupItem, b: DuplicatesGroupItem) -> bool {
    if a.content_hash != b.content_hash {
        a.content_hash < b.content_hash
    } else {
        a.path_hash <= b.path_hash
    }
}

/// The emission order as a relation value, for use with `sort_by`.
pub open spec fn item_order() -> spec_fn(DuplicatesGroupItem, DuplicatesGroupItem) -> bool {
    |a: DuplicatesGroupItem, b: DuplicatesGroupItem| item_le(a, b)
}

pub proof fn lemma_item_order_total()
    ensures
        total_ordering(item_order()),
{
}

/// `sorted_by` under [`item_order`] says exactly that [`item_le`] holds
/// pairwise.
pub proof fn lemma_sorted_by_item_order(s: Seq<DuplicatesGroupItem>)
    ensures
        sorted_by(s, item_order()) <==> (forall|i: int, j: int|
            0 <= i < j < s.len() ==> item_le(#[trigger] s[i], #[trigger] s[j])),
{
    if sorted_by(s, item_order()) {
        assert forall|i: int, j: int|
            0 <= i < j < s.len() implies item_le(#[trigger] s[i], #[trigger] s[j]) by {
            assert(item_order()(s[i], s[j]));
        }
    }
    if forall|i: int, j: int| 0 <= i < j < s.len() ==> item_le(#[trigger] s[i], #[trigger] s[j]) {
        assert forall|i: int, j: int|
            0 <= i < j < s.len() implies #[trigger] item_order()(s[i], s[j]) by {
            assert(item_le(s[i], s[j]));
        }
    }
}

/// Length of the run of records at the start of `rows` that share `key`'s
/// bucket.
pub open spec fn key_run_len(rows: Seq<LshBucketRow>, key: LshBucketRow) -> nat
    decreases rows.len(),
{
    if rows.len() > 0 && same_key(rows.first(), key) {
        1 + key_run_len(rows.drop_first(), key)
    } else {
        0
    }
}

pub proof fn lemma_key_run_len(rows: Seq<LshBucketRow>, key: LshBucketRow)
    ensures
        key_run_len(rows, key) <= rows.len(),
        forall|m: int| 0 <= m < key_run_len(rows, key) ==> same_key(#[trigger] rows[m], key),
        key_run_len(rows, key) < rows.len() ==> !same_key(
            rows[key_run_len(rows, key) as int],
            key,
        ),
    decreases rows.len(),
{
    if rows.len() > 0 && same_key(rows.first(), key) {
        lemma_key_run_len(rows.drop_first(), key);
        assert forall|m: int| 0 <= m < key_run_len(rows, key) implies same_key(
            #[trigger] rows[m],
            key,
        ) by {
            if m > 0 {
                assert(rows.drop_first()[m - 1] == rows[m]);
            }
        }
        if key_run_len(rows, key) < rows.len() {
            assert(rows.drop_first()[key_run_len(rows, key) as int - 1] == rows[key_run_len(
                rows,
                key,
            ) as int]);
        }
    }
}

/// A run's length is pinned down by its records.
pub proof fn lemma_key_run_len_is(rows: Seq<LshBucketRow>, key: LshBucketRow, m: int)
    requires
        0 <= m <= rows.len(),
        forall|k: int| 0 <= k < m ==> same_key(#[trigger] rows[k], key),
        m == rows.len() || !same_key(rows[m], key),
    ensures
        key_run_len(rows, key) == m,
    decreases rows.len(),
{
    if m == 0 {
    } else {
        assert(same_key(rows[0], key));
        assert forall|k: int| 0 <= k < m - 1 implies same_key(#[trigger] rows.drop_first()[k], key)
            by {
            assert(rows.drop_first()[k] == rows[k + 1]);
        }
        if m - 1 < rows.drop_first().len() {
            assert(rows.drop_first()[m - 1] == rows[m]);
        }
        lemma_key_run_len_is(rows.drop_first(), key, m - 1);
    }
}

/// The maximal same-bucket runs of length at least two, in stream order.
pub open spec fn runs_of(rows: Seq<LshBucketRow>) -> Seq<Seq<LshBucketRow>>
    decreases rows.len(),
    when rows.len() >= 0
    via runs_of_decreases
{
    if rows.len() == 0 {
        Seq::empty()
    } else {
        let k = key_run_len(rows, rows.first()) as int;
        let rest = runs_of(rows.skip(k));
        if k >= 2 {
            seq![rows.take(k)] + rest
        } else {
            rest
        }
    }
}

#[via_fn]
proof fn runs_of_decreases(rows: Seq<LshBucketRow>) {
    if rows.len() > 0 {
        lemma_key_run_len(rows, rows.first());
        assert(key_run_len(rows, rows.first()) >= 1);
    }
}

/// The groups a record stream emits: each qualifying run's memberships,
/// sorted in emission order.
pub open spec fn groups_of(rows: Seq<LshBucketRow>) -> Seq<Seq<DuplicatesGroupItem>> {
    runs_of(rows).map(
        |i: int, run: Seq<LshBucketRow>|
            run.map(|j: int, r: LshBucketRow| item_of_row(r)).sort_by(item_order()),
    )
}

/// The memberships of a sequence of groups, as sequences.
pub open spec fn groups_seq(gs: Seq<DuplicatesGroup>) -> Seq<Seq<DuplicatesGroupItem>> {
    gs.map(|i: int, g: DuplicatesGroup| g.group@)
}

/// Every emitted run has at least two members, and its records all share
/// one bucket.
pub proof fn lemma_runs_shape(rows: Seq<LshBucketRow>)
    ensures
        forall|k: int|
            0 <= k < runs_of(rows).len() ==> (#[trigger] runs_of(rows)[k]).len() >= 2,
        forall|k: int, a: int, b: int|
            0 <= k < runs_of(rows).len() && 0 <= a < runs_of(rows)[k].len() && 0 <= b
                < runs_of(rows)[k].len() ==> same_key(
                #[trigger] runs_of(rows)[k][a],
                #[trigger] runs_of(rows)[k][b],
            ),
    decreases rows.len(),
{
    if rows.len() == 0 {
    } else {
        let key = rows.first();
        let k = key_run_len(rows, key) as int;
        lemma_key_run_len(rows, key);
        lemma_runs_shape(rows.skip(k));
        if k >= 2 {
            assert(runs_of(rows) == seq![rows.take(k)] + runs_of(rows.skip(k)));
            assert forall|q: int|
                0 <= q < runs_of(rows).len() implies (#[trigger] runs_of(rows)[q]).len() >= 2 by {
                if q == 0 {
                    assert(runs_of(rows)[0] == rows.take(k));
                    assert(rows.take(k).len() == k);
                } else {
                    assert(runs_of(rows)[q] == runs_of(rows.skip(k))[q - 1]);
                }
            }
            assert forall|q: int, a: int, b: int|
                0 <= q < runs_of(rows).len() && 0 <= a < runs_of(rows)[q].len() && 0 <= b
                    < runs_of(rows)[q].len() implies same_key(
                #[trigger] runs_of(rows)[q][a],
                #[trigger] runs_of(rows)[q][b],
            ) by {
                if q == 0 {
                    assert(runs_of(rows)[0] == rows.take(k));
                    assert(rows.take(k)[a] == rows[a]);
                    assert(rows.take(k)[b] == rows[b]);
                    assert(same_key(rows[a], key));
                    assert(same_key(rows[b], key));
                } else {
                    assert(runs_of(rows)[q] == runs_of(rows.skip(k))[q - 1]);
                }
            }
        } else {
            assert(runs_of(rows) == runs_of(rows.skip(k)));
        }
    }
}

/// Every emitted group has at least two members and is sorted in emission
/// order: the member at position 0 carries the least content hash.
pub proof fn lemma_groups_shape(rows: Seq<LshBucketRow>)
    ensures
        forall|k: int|
            0 <= k < groups_of(rows).len() ==> (#[trigger] groups_of(rows)[k]).len() >= 2,
        forall|k: int|
            0 <= k < groups_of(rows).len() ==> sorted_by(
                #[trigger] groups_of(rows)[k],
                item_order(),
            ),
{
    lemma_runs_shape(rows);
    lemma_item_order_total();
    assert forall|k: int| 0 <= k < groups_of(rows).len() implies (#[trigger] groups_of(rows)[k]).len()
        >= 2 && sorted_by(groups_of(rows)[k], item_order()) by {
        let run = runs_of(rows)[k];
        let items = run.map(|j: int, r: LshBucketRow| item_of_row(r));
        items.lemma_sort_by_ensures(item_order());
        vstd::seq_lib::to_multiset_len(items);
        vstd::seq_lib::to_multiset_len(items.sort_by(item_order()));
        assert(groups_of(rows)[k] == items.sort_by(item_order()));
    }
}

/// The survivor of a group — its member at position 0 — carries the minimum
/// content hash; with pairwise distinct content hashes it is the unique
/// minimum.
pub proof fn lemma_survivor_min(g: Seq<DuplicatesGroupItem>)
    requires
        sorted_by(g, item_order()),
        g.len() >= 1,
    ensures
        forall|i: int| 0 < i < g.len() ==> g[0].content_hash <= (#[trigger] g[i]).content_hash,
        (forall|i: int, j: int|
            0 <= i < j < g.len() ==> (#[trigger] g[i]).content_hash != (#[trigger] g[j]).content_hash)
            ==> forall|i: int|
            0 < i < g.len() ==> g[0].content_hash < (#[trigger] g[i]).content_hash,
{
    lemma_sorted_by_item_order(g);
    assert forall|i: int| 0 < i < g.len() implies g[0].content_hash <= (#[trigger] g[i]).content_hash
        by {
        assert(item_le(g[0], g[i]));
    }
}

/// Two sequences sorted in emission order with the same multiset are equal.
proof fn lemma_sorted_items_unique(s1: Seq<DuplicatesGroupItem>, s2: Seq<DuplicatesGroupItem>)
    requires
        sorted_by(s1, item_order()),
        sorted_by(s2, item_order()),
        s1.to_multiset() == s2.to_multiset(),
    ensures
        s1 == s2,
    decreases s1.len(),
{
    broadcast use vstd::seq_lib::group_to_multiset_ensures;

    lemma_sorted_by_item_order(s1);
    lemma_sorted_by_item_order(s2);
    if s1.len() == 0 {
        assert(s2.to_multiset().len() == 0);
        assert(s1 =~= s2);
    } else {
        assert(s1.contains(s1[0]));
        assert(s1.to_multiset().count(s1[0]) > 0);
        assert(s2.to_multiset().count(s1[0]) > 0);
        assert(s2.contains(s1[0]));
        assert(s2.contains(s2[0]));
        assert(s2.to_multiset().count(s2[0]) > 0);
        assert(s1.to_multiset().count(s2[0]) > 0);
        assert(s1.contains(s2[0]));
        let i = choose|i: int| 0 <= i < s2.len() && s2[i] == s1[0];
        let j = choose|j: int| 0 <= j < s1.len() && s1[j] == s2[0];
        if i > 0 {
            assert(item_le(s2[0], s2[i]));
        }
        if j > 0 {
            assert(item_le(s1[0], s1[j]));
        }
        assert(item_le(s1[0], s2[0]) && item_le(s2[0], s1[0]));
        assert(s1[0] == s2[0]);
        assert(s1.drop_first() =~= s1.remove(0));
        assert(s2.drop_first() =~= s2.remove(0));
        assert(s1.remove(0).to_multiset() == s1.to_multiset().remove(s1[0]));
        assert(s2.remove(0).to_multiset() == s2.to_multiset().remove(s2[0]));
        assert forall|a: int, b: int|
            0 <= a < b < s1.drop_first().len() implies item_le(
            #[trigger] s1.drop_first()[a],
            #[trigger] s1.drop_first()[b],
        ) by {
            assert(item_le(s1[a + 1], s1[b + 1]));
        }
        assert forall|a: int, b: int|
            0 <= a < b < s2.drop_first().len() implies item_le(
            #[trigger] s2.drop_first()[a],
            #[trigger] s2.drop_first()[b],
        ) by {
            assert(item_le(s2[a + 1], s2[b + 1]));
        }
        lemma_sorted_by_item_order(s1.drop_first());
        lemma_sorted_by_item_order(s2.drop_first());
        lemma_sorted_items_unique(s1.drop_first(), s2.drop_first());
        vstd::seq_lib::to_multiset_len(s1);
        vstd::seq_lib::to_multiset_len(s2);
        assert(s1.len() == s2.len());
        assert forall|q: int| 0 <= q < s1.len() implies s1[q] == s2[q] by {
            if q > 0 {
                assert(s1[q] == s1.drop_first()[q - 1]);
                assert(s2[q] == s2.drop_first()[q - 1]);
            }
        }
        assert(s1 =~= s2);
    }
}

/// Sorts a run's memberships into emission order.
fn sort_items(v: Vec<DuplicatesGroupItem>) -> (r: Vec<DuplicatesGroupItem>)
    ensures
        sorted_by(r@, item_order()),
        r@.to_multiset() == v@.to_multiset(),
{
    let mut rest = v;
    let mut out: Vec<DuplicatesGroupItem> = Vec::new();
    proof {
        broadcast use vstd::seq_lib::group_to_multiset_ensures;
        broadcast use vstd::multiset::group_multiset_axioms;

        assert(out@.to_multiset().add(rest@.to_multiset()) =~= v@.to_multiset());
    }
    while rest.len() > 0
        invariant
            out@.to_multiset().add(rest@.to_multiset()) == v@.to_multiset(),
            forall|i: int, j: int|
                0 <= i < j < out@.len() ==> item_le(#[trigger] out@[i], #[trigger] out@[j]),
            forall|i: int, j: int|
                0 <= i < out@.len() && 0 <= j < rest@.len() ==> item_le(
                    #[trigger] out@[i],
                    #[trigger] rest@[j],
                ),
        decreases rest.len(),
    {
        let mut m: usize = 0;
        let mut t: usize = 1;
        while t < rest.len()
            invariant
                m < t <= rest@.len(),
                forall|k: int| 0 <= k < t ==> item_le(rest@[m as int], #[trigger] rest@[k]),
            decreases rest.len() - t,
        {
            let a = rest[t];
            let b = rest[m];
            let smaller = if a.content_hash != b.content_hash {
                a.content_hash < b.content_hash
            } else {
                a.path_hash <= b.path_hash
            };
            if smaller {
                m = t;
            }
            t = t + 1;
        }
        let ghost old_out = out@;
        let ghost old_rest = rest@;
        let x = rest.remove(m);
        out.push(x);
        proof {
            broadcast use vstd::seq_lib::group_to_multiset_ensures;
            broadcast use vstd::multiset::group_multiset_axioms;

            vstd::seq_lib::to_multiset_remove(old_rest, m as int);
            assert(old_rest[m as int] == x);
            assert(old_rest.contains(x));
            assert(old_rest.to_multiset().count(x) > 0);
            assert(out@.to_multiset().add(rest@.to_multiset()) =~= old_out.to_multiset().add(
                old_rest.to_multiset(),
            ));
        }
    }
    proof {
        broadcast use vstd::seq_lib::group_to_multiset_ensures;

        assert(rest@.to_multiset().len() == 0);
        assert(out@.to_multiset().add(rest@.to_multiset()) =~= out@.to_multiset());
        lemma_sorted_by_item_order(out@);
    }
    out
}

/// Scans the sorted record stream and emits its duplicate groups, in stream
/// order.
pub fn find_groups(rows: &Vec<LshBucketRow>) -> (groups: Vec<DuplicatesGroup>)
    ensures
        groups_seq(groups@) == groups_of(rows@),
{
    let n = rows.len();
    let mut groups: Vec<DuplicatesGroup> = Vec::new();
    let mut i: usize = 0;
    proof {
        assert(rows@.skip(0) =~= rows@);
        assert(groups_seq(groups@) =~= Seq::<Seq<DuplicatesGroupItem>>::empty());
        assert(Seq::<Seq<DuplicatesGroupItem>>::empty() + groups_of(rows@) =~= groups_of(rows@));
    }
    while i < n
        invariant
            i <= n,
            n == rows@.len(),
            groups_of(rows@) == groups_seq(groups@) + groups_of(rows@.skip(i as int)),
        decreases n - i,
    {
        let ghost rest = rows@.skip(i as int);
        let start = i;
        let key = rows[i];
        let mut j = i + 1;
        while j < n
            invariant
                start < j <= n,
                n == rows@.len(),
                key == rows@[start as int],
                forall|k: int| start <= k < j ==> same_key(#[trigger] rows@[k], key),
            ensures
                start < j <= n,
                forall|k: int| start <= k < j ==> same_key(#[trigger] rows@[k], key),
                j == n || !same_key(rows@[j as int], key),
            decreases n - j,
        {
            let r = rows[j];
            if !(r.bucket_index == key.bucket_index && r.bucket_hash == key.bucket_hash) {
                break ;
            }
            j = j + 1;
        }
        proof {
            assert(rest[0] == rows@[start as int]);
            assert forall|k: int| 0 <= k < j - start implies same_key(#[trigger] rest[k], rest[0])
                by {
                assert(rest[k] == rows@[start + k]);
            }
            if j < n {
                assert(rest[j - start] == rows@[j as int]);
            }
            lemma_key_run_len_is(rest, rest[0], j - start);
            assert(rest.skip(j - start) =~= rows@.skip(j as int));
        }
        if j - start >= 2 {
            let mut items: Vec<DuplicatesGroupItem> = Vec::new();
            let mut k = start;
            proof {
                let run = rest.take(j - start);
                assert(run.map(|q: int, r: LshBucketRow| item_of_row(r)).take(0)
                    =~= Seq::<DuplicatesGroupItem>::empty());
                assert(items@ =~= Seq::<DuplicatesGroupItem>::empty());
            }
            while k < j
                invariant
                    start <= k <= j <= n,
                    n == rows@.len(),
                    rest == rows@.skip(start as int),
                    items@ =~= rest.take(j - start).map(
                        |q: int, r: LshBucketRow| item_of_row(r),
                    ).take(k - start),
                decreases j - k,
            {
                let r = rows[k];
                items.push(DuplicatesGroupItem { path_hash: r.path_hash, content_hash: r.content_hash });
                proof {
                    let imap = rest.take(j - start).map(|q: int, r: LshBucketRow| item_of_row(r));
                    assert(rest.take(j - start)[k - start] == rows@[k as int]);
                    assert(imap[k - start] == item_of_row(rows@[k as int]));
                    assert(imap.take(k + 1 - start) =~= imap.take(k - start).push(
                        imap[k - start],
                    ));
                }
                k = k + 1;
            }
            let sorted = sort_items(items);
            let ghost old_groups = groups_seq(groups@);
            groups.push(DuplicatesGroup { group: sorted });
            proof {
                let run = rest.take(j - start);
                let imap = run.map(|q: int, r: LshBucketRow| item_of_row(r));
                assert(items@ =~= imap);
                lemma_item_order_total();
                imap.lemma_sort_by_ensures(item_order());
                lemma_sorted_items_unique(sorted@, imap.sort_by(item_order()));
                assert(groups_of(rest) == seq![imap.sort_by(item_order())] + groups_of(
                    rest.skip(j - start),
                ));
                assert(groups_seq(groups@) =~= old_groups.push(sorted@));
                assert(old_groups.push(sorted@) + groups_of(rows@.skip(j as int)) =~= old_groups
                    + (seq![sorted@] + groups_of(rows@.skip(j as int))));
            }
        } else {
            proof {
                assert(groups_of(rest) == groups_of(rest.skip(j - start)));
            }
        }
        i = j;
    }
    proof {
        assert(rows@.skip(i as int) =~= Seq::<LshBucketRow>::empty());
        assert(runs_of(Seq::<LshBucketRow>::empty()) == Seq::<Seq<LshBucketRow>>::empty());
        assert(groups_of(Seq::<LshBucketRow>::empty())
            =~= Seq::<Seq<DuplicatesGroupItem>>::empty());
        assert(groups_seq(groups@) + Seq::<Seq<DuplicatesGroupItem>>::empty() =~= groups_seq(
            groups@,
        ));
    }
    groups
}

} // verus!
