//! Verified selection sorts for the record and string orders the pipeline
//! relies on: bucket records in natural order before a spill, group items by
//! content hash at emission, and meta file lists lexicographically.
use vstd::prelude::*;

verus! {

use vstd::string::StrSliceExecFns;
use crate::lsh::row_le;
use crate::lsh::LshBucketRow;

/// Whether a record sequence is non-decreasing in the natural order.
pub open spec fn rows_sorted(s: Seq<LshBucketRow>) -> bool {
    forall|i: int, j: int| 0 <= i < j < s.len() ==> row_le(#[trigger] s[i], #[trigger] s[j])
}

/// Sorts bucket records into natural order, keeping the multiset.
pub fn sort_rows(v: Vec<LshBucketRow>) -> (r: Vec<LshBucketRow>)
    ensures
        rows_sorted(r@),
        r@.to_multiset() == v@.to_multiset(),
{
    broadcast use vstd::seq_lib::group_to_multiset_ensures;
    broadcast use vstd::multiset::group_multiset_axioms;

    let mut rest = v;
    let mut out: Vec<LshBucketRow> = Vec::new();
    proof {
        assert(out@.to_multiset().add(rest@.to_multiset()) =~= v@.to_multiset());
    }
    while rest.len() > 0
        invariant
            out@.to_multiset().add(rest@.to_multiset()) == v@.to_multiset(),
            rows_sorted(out@),
            forall|i: int, j: int|
                0 <= i < out@.len() && 0 <= j < rest@.len() ==> row_le(
                    #[trigger] out@[i],
                    #[trigger] rest@[j],
                ),
        decreases rest.len(),
    {
        let mut m: usize = 0;
        let mut t: usize = 1;
        while t < rest.len()
            invariant
                m < t <= rest@.len(),
                forall|k: int| 0 <= k < t ==> row_le(rest@[m as int], #[trigger] rest@[k]),
            decreases rest.len() - t,
        {
            if rest[t].le(&rest[m]) {
                m = t;
            }
            t = t + 1;
        }
        let ghost old_out = out@;
        let ghost old_rest = rest@;
        let x = rest.remove(m);
        out.push(x);
        proof {
            broadcast use vstd::seq_lib::group_to_multiset_ensures;
            broadcast use vstd::multiset::group_multiset_axioms;

            vstd::seq_lib::to_multiset_remove(old_rest, m as int);
            assert(old_rest.remove(m as int).to_multiset() == old_rest.to_multiset().remove(x));
            assert(old_rest[m as int] == x);
            assert(old_rest.contains(x));
            assert(old_rest.to_multiset().count(x) > 0);
            assert(out@.to_multiset().add(rest@.to_multiset()) =~= old_out.to_multiset().add(
                old_rest.to_multiset(),
            ));
        }
    }
    proof {
        assert(rest@.to_multiset().len() == 0);
        assert(out@.to_multiset().add(rest@.to_multiset()) =~= out@.to_multiset());
    }
    out
}

/// Lexicographic order on character sequences, by code point, with a prefix
/// ordered before its extensions. For UTF-8 encoded strings this coincides
/// with the byte-wise order.
pub open spec fn lex_le(a: Seq<char>, b: Seq<char>) -> bool
    decreases a.len(),
{
    if a.len() == 0 {
        true
    } else if b.len() == 0 {
        false
    } else if a[0] != b[0] {
        a[0] < b[0]
    } else {
        lex_le(a.drop_first(), b.drop_first())
    }
}

/// At the first position where two sequences diverge (or one ends), the
/// lexicographic order is decided.
proof fn lemma_lex_le_decide(a: Seq<char>, b: Seq<char>, i: int)
    requires
        0 <= i <= a.len(),
        i <= b.len(),
        forall|k: int| 0 <= k < i ==> a[k] == b[k],
        i == a.len() || i == b.len() || a[i] != b[i],
    ensures
        lex_le(a, b) == (if i == a.len() {
            true
        } else if i == b.len() {
            false
        } else {
            a[i] < b[i]
        }),
    decreases i,
{
    if i == 0 {
    } else {
        assert(a[0] == b[0]);
        assert forall|k: int| 0 <= k < i - 1 implies a.drop_first()[k] == b.drop_first()[k] by {
            assert(a.drop_first()[k] == a[k + 1]);
            assert(b.drop_first()[k] == b[k + 1]);
        }
        if i < a.len() && i < b.len() {
            assert(a.drop_first()[i - 1] == a[i]);
            assert(b.drop_first()[i - 1] == b[i]);
        }
        lemma_lex_le_decide(a.drop_first(), b.drop_first(), i - 1);
    }
}

/// The lexicographic order is reflexive.
pub proof fn lemma_lex_le_refl(a: Seq<char>)
    ensures
        lex_le(a, a),
    decreases a.len(),
{
    if a.len() > 0 {
        lemma_lex_le_refl(a.drop_first());
    }
}

/// The lexicographic order is total.
pub proof fn lemma_lex_le_total(a: Seq<char>, b: Seq<char>)
    ensures
        lex_le(a, b) || lex_le(b, a),
    decreases a.len(),
{
    if a.len() == 0 || b.len() == 0 {
    } else if a[0] != b[0] {
    } else {
        lemma_lex_le_total(a.drop_first(), b.drop_first());
    }
}

/// The lexicographic order is transitive.
pub proof fn lemma_lex_le_trans(a: Seq<char>, b: Seq<char>, c: Seq<char>)
    requires
        lex_le(a, b),
        lex_le(b, c),
    ensures
        lex_le(a, c),
    decreases a.len(),
{
    if a.len() == 0 {
    } else if b.len() == 0 {
    } else if c.len() == 0 {
    } else if a[0] == b[0] && b[0] == c[0] {
        lemma_lex_le_trans(a.drop_first(), b.drop_first(), c.drop_first());
    }
}

/// Decides the lexicographic order between two strings.
pub fn str_le(a: &str, b: &str) -> (r: bool)
    ensures
        r == lex_le(a@, b@),
{
    let an = a.unicode_len();
    let bn = b.unicode_len();
    let mut j: usize = 0;
    while j < an && j < bn
        invariant
            j <= an,
            j <= bn,
            an == a@.len(),
            bn == b@.len(),
            forall|k: int| 0 <= k < j ==> a@[k] == b@[k],
        ensures
            j <= an,
            j <= bn,
            an == a@.len(),
            bn == b@.len(),
            forall|k: int| 0 <= k < j ==> a@[k] == b@[k],
            j == an || j == bn || a@[j as int] != b@[j as int],
        decreases an - j,
    {
        let ca = a.get_char(j);
        let cb = b.get_char(j);
        if ca != cb {
            break ;
        }
        j = j + 1;
    }
    proof {
        lemma_lex_le_decide(a@, b@, j as int);
    }
    if j == an {
        true
    } else if j == bn {
        false
    } else {
        a.get_char(j) < b.get_char(j)
    }
}

/// Whether a sequence of character sequences is lexicographically sorted.
pub open spec fn strings_sorted(s: Seq<Seq<char>>) -> bool {
    forall|i: int, j: int| 0 <= i < j < s.len() ==> lex_le(#[trigger] s[i], #[trigger] s[j])
}

/// Sorts strings lexicographically, keeping the multiset of their
/// character sequences.
pub fn sort_strings(v: Vec<String>) -> (r: Vec<String>)
    ensures
        strings_sorted(r.deep_view()),
        r.deep_view().to_multiset() == v.deep_view().to_multiset(),
{
    broadcast use vstd::seq_lib::group_to_multiset_ensures;
    broadcast use vstd::multiset::group_multiset_axioms;

    let mut rest = v;
    let ghost dv = rest.deep_view();
    let mut out: Vec<String> = Vec::new();
    proof {
        assert(out.deep_view() =~= Seq::<Seq<char>>::empty());
        assert(out.deep_view().to_multiset().add(rest.deep_view().to_multiset())
            =~= dv.to_multiset());
    }
    while rest.len() > 0
        invariant
            out.deep_view().to_multiset().add(rest.deep_view().to_multiset()) == dv.to_multiset(),
            strings_sorted(out.deep_view()),
            forall|i: int, j: int|
                0 <= i < out.deep_view().len() && 0 <= j < rest.deep_view().len() ==> lex_le(
                    #[trigger] out.deep_view()[i],
                    #[trigger] rest.deep_view()[j],
                ),
        decreases rest.len(),
    {
        let mut m: usize = 0;
        let mut t: usize = 1;
        proof {
            lemma_lex_le_refl(rest.deep_view()[0]);
        }
        while t < rest.len()
            invariant
                m < t <= rest@.len(),
                rest.deep_view().len() == rest@.len(),
                forall|k: int|
                    0 <= k < t ==> lex_le(
                        rest.deep_view()[m as int],
                        #[trigger] rest.deep_view()[k],
                    ),
            decreases rest.len() - t,
        {
            proof {
                lemma_lex_le_total(rest.deep_view()[t as int], rest.deep_view()[m as int]);
            }
            if str_le(rest[t].as_str(), rest[m].as_str()) {
                let ghost old_m = m as int;
                m = t;
                proof {
                    lemma_lex_le_refl(rest.deep_view()[m as int]);
                    assert forall|k: int|
                        0 <= k < t implies lex_le(
                        rest.deep_view()[m as int],
                        #[trigger] rest.deep_view()[k],
                    ) by {
                        lemma_lex_le_trans(
                            rest.deep_view()[m as int],
                            rest.deep_view()[old_m],
                            rest.deep_view()[k],
                        );
                    }
                }
            }
            t = t + 1;
        }
        let ghost old_out = out.deep_view();
        let ghost old_rest = rest.deep_view();
        let x = rest.remove(m);
        out.push(x);
        proof {
            broadcast use vstd::seq_lib::group_to_multiset_ensures;
            broadcast use vstd::multiset::group_multiset_axioms;

            assert(rest.deep_view() =~= old_rest.remove(m as int));
            assert(out.deep_view() =~= old_out.push(old_rest[m as int]));
            vstd::seq_lib::to_multiset_remove(old_rest, m as int);
            assert(old_rest.remove(m as int).to_multiset() == old_rest.to_multiset().remove(
                old_rest[m as int],
            ));
            assert(old_rest.contains(old_rest[m as int]));
            assert(old_rest.to_multiset().count(old_rest[m as int]) > 0);
            assert(out.deep_view().to_multiset().add(rest.deep_view().to_multiset())
                =~= old_out.to_multiset().add(old_rest.to_multiset()));
        }
    }
    proof {
        assert(rest.deep_view().len() == 0);
        assert(rest.deep_view().to_multiset().len() == 0);
        assert(out.deep_view().to_multiset().add(rest.deep_view().to_multiset())
            =~= out.deep_view().to_multiset());
    }
    out
}

} // verus!
