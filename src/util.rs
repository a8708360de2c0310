use vstd::prelude::*;

use crate::xaddr::{key_of, sorted, XAddr};

verus! {

/// The merge of two sequences: repeatedly take the smaller head, `b`'s on ties.
pub open spec fn merged(a: Seq<XAddr>, b: Seq<XAddr>) -> Seq<XAddr>
    decreases a.len() + b.len(),
{
    if a.len() == 0 {
        b
    } else if b.len() == 0 {
        a
    } else if key_of(a[0]) < key_of(b[0]) {
        seq![a[0]] + merged(a.skip(1), b)
    } else {
        seq![b[0]] + merged(a, b.skip(1))
    }
}

/// `s` with every run of equal neighbours collapsed to one element.
pub open spec fn deduped(s: Seq<XAddr>) -> Seq<XAddr>
    decreases s.len(),
{
    if s.len() <= 1 {
        s
    } else if s[s.len() - 1] == s[s.len() - 2] {
        deduped(s.drop_last())
    } else {
        deduped(s.drop_last()).push(s.last())
    }
}

/// Merges two sorted sequences into one sorted sequence.
pub fn sorted_merge(a: &[XAddr], b: &[XAddr]) -> (r: Vec<XAddr>)
    ensures
        r@ == merged(a@, b@),
{
    let mut sorted: Vec<XAddr> = Vec::new();
    let mut ia: usize = 0;
    let mut ib: usize = 0;
    assert(a@.skip(0) =~= a@);
    assert(b@.skip(0) =~= b@);
    assert(sorted@ + merged(a@, b@) =~= merged(a@, b@));
    while ia < a.len() && ib < b.len()
        invariant
            ia <= a@.len(),
            ib <= b@.len(),
            sorted@ + merged(a@.skip(ia as int), b@.skip(ib as int)) == merged(a@, b@),
        decreases a@.len() + b@.len() - ia - ib,
    {
        let ghost sa = a@.skip(ia as int);
        let ghost sb = b@.skip(ib as int);
        if a[ia].lt(&b[ib]) {
            sorted.push(a[ia]);
            ia = ia + 1;
            assert(sa.skip(1) =~= a@.skip(ia as int));
        } else {
            sorted.push(b[ib]);
            ib = ib + 1;
            assert(sb.skip(1) =~= b@.skip(ib as int));
        }
    }
    let ghost ra = a@.skip(ia as int);
    let ghost rb = b@.skip(ib as int);
    let ghost rest = merged(ra, rb);
    let (remaining, begin) = if ia < a.len() {
        (a, ia)
    } else {
        (b, ib)
    };
    assert(rest =~= remaining@.skip(begin as int));
    let mut i: usize = begin;
    while i < remaining.len()
        invariant
            begin <= i <= remaining@.len(),
            rest == remaining@.skip(begin as int),
            sorted@ + remaining@.skip(i as int) == merged(a@, b@),
        decreases remaining@.len() - i,
    {
        let ghost before = remaining@.skip(i as int);
        sorted.push(remaining[i]);
        i = i + 1;
        assert(before =~= seq![before[0]] + remaining@.skip(i as int));
        assert(sorted@ + remaining@.skip(i as int) =~= sorted@.drop_last() + before);
    }
    assert(remaining@.skip(i as int) =~= Seq::<XAddr>::empty());
    assert(sorted@ =~= sorted@ + remaining@.skip(i as int));
    sorted
}

/// Removes consecutive duplicates.
pub fn dedup(s: &[XAddr]) -> (r: Vec<XAddr>)
    ensures
        r@ == deduped(s@),
{
    let mut r: Vec<XAddr> = Vec::new();
    let mut i: usize = 0;
    while i < s.len()
        invariant
            i <= s@.len(),
            r@ == deduped(s@.take(i as int)),
        decreases s@.len() - i,
    {
        let ghost t = s@.take(i as int + 1);
        assert(t.drop_last() =~= s@.take(i as int));
        if i == 0 || s[i] != s[i - 1] {
            r.push(s[i]);
            assert(i == 0 ==> deduped(t) =~= deduped(s@.take(i as int)).push(s[i as int]));
        }
        i = i + 1;
    }
    assert(s@.take(i as int) =~= s@);
    r
}

/// Everything in a merge is at least as large as a common lower bound of the inputs.
proof fn lemma_merged_bounded(a: Seq<XAddr>, b: Seq<XAddr>, k: int)
    requires
        forall|i: int| 0 <= i < a.len() ==> k <= key_of(#[trigger] a[i]),
        forall|i: int| 0 <= i < b.len() ==> k <= key_of(#[trigger] b[i]),
    ensures
        forall|i: int| 0 <= i < merged(a, b).len() ==> k <= key_of(#[trigger] merged(a, b)[i]),
    decreases a.len() + b.len(),
{
    if a.len() > 0 && b.len() > 0 {
        let m = merged(a, b);
        if key_of(a[0]) < key_of(b[0]) {
            let t = a.skip(1);
            assert forall|i: int| 0 <= i < t.len() implies k <= key_of(#[trigger] t[i]) by {
                assert(t[i] == a[i + 1]);
            }
            lemma_merged_bounded(t, b, k);
            assert forall|i: int| 0 <= i < m.len() implies k <= key_of(#[trigger] m[i]) by {
                if i > 0 {
                    assert(m[i] == merged(t, b)[i - 1]);
                }
            }
        } else {
            let t = b.skip(1);
            assert forall|i: int| 0 <= i < t.len() implies k <= key_of(#[trigger] t[i]) by {
                assert(t[i] == b[i + 1]);
            }
            lemma_merged_bounded(a, t, k);
            assert forall|i: int| 0 <= i < m.len() implies k <= key_of(#[trigger] m[i]) by {
                if i > 0 {
                    assert(m[i] == merged(a, t)[i - 1]);
                }
            }
        }
    }
}

/// A merge holds exactly the elements of both inputs, counted with multiplicity.
pub proof fn lemma_merged_elements(a: Seq<XAddr>, b: Seq<XAddr>)
    ensures
        merged(a, b).to_multiset() == a.to_multiset().add(b.to_multiset()),
    decreases a.len() + b.len(),
{
    broadcast use vstd::seq_lib::group_to_multiset_ensures, vstd::multiset::group_multiset_axioms;

    if a.len() == 0 {
        assert(a.to_multiset() =~= vstd::multiset::Multiset::empty());
        assert(merged(a, b).to_multiset() =~= a.to_multiset().add(b.to_multiset()));
    } else if b.len() == 0 {
        assert(b.to_multiset() =~= vstd::multiset::Multiset::empty());
        assert(merged(a, b).to_multiset() =~= a.to_multiset().add(b.to_multiset()));
    } else if key_of(a[0]) < key_of(b[0]) {
        let t = a.skip(1);
        lemma_merged_elements(t, b);
        assert(merged(a, b) =~= merged(t, b).insert(0, a[0]));
        assert(a =~= t.insert(0, a[0]));
        vstd::seq_lib::to_multiset_insert(merged(t, b), 0, a[0]);
        vstd::seq_lib::to_multiset_insert(t, 0, a[0]);
        assert(merged(a, b).to_multiset() =~= a.to_multiset().add(b.to_multiset()));
    } else {
        let t = b.skip(1);
        lemma_merged_elements(a, t);
        assert(merged(a, b) =~= merged(a, t).insert(0, b[0]));
        assert(b =~= t.insert(0, b[0]));
        vstd::seq_lib::to_multiset_insert(merged(a, t), 0, b[0]);
        vstd::seq_lib::to_multiset_insert(t, 0, b[0]);
        assert(merged(a, b).to_multiset() =~= a.to_multiset().add(b.to_multiset()));
    }
}

/// The merge of two sorted sequences is sorted and holds exactly their
/// elements, so it is their sorted union; merging it with nothing gives it back.
pub proof fn lemma_merge_sorted(a: Seq<XAddr>, b: Seq<XAddr>)
    requires
        sorted(a),
        sorted(b),
    ensures
        sorted(merged(a, b)),
        merged(a, b).len() == a.len() + b.len(),
        merged(a, b).to_multiset() == a.to_multiset().add(b.to_multiset()),
        merged(merged(a, b), Seq::empty()) == merged(a, b),
    decreases a.len() + b.len(),
{
    lemma_merged_elements(a, b);
    if a.len() > 0 && b.len() > 0 {
        if key_of(a[0]) < key_of(b[0]) {
            let t = a.skip(1);
            lemma_merge_sorted(t, b);
            lemma_merged_bounded(t, b, key_of(a[0]));
            let m = merged(a, b);
            assert(m == seq![a[0]] + merged(t, b));
            assert forall|i: int, j: int| 0 <= i < j < m.len() implies key_of(m[i]) <= key_of(
                m[j],
            ) by {
                if i > 0 {
                    assert(m[i] == merged(t, b)[i - 1]);
                }
                assert(m[j] == merged(t, b)[j - 1]);
            }
        } else {
            let t = b.skip(1);
            lemma_merge_sorted(a, t);
            lemma_merged_bounded(a, t, key_of(b[0]));
            let m = merged(a, b);
            assert(m == seq![b[0]] + merged(a, t));
            assert forall|i: int, j: int| 0 <= i < j < m.len() implies key_of(m[i]) <= key_of(
                m[j],
            ) by {
                if i > 0 {
                    assert(m[i] == merged(a, t)[i - 1]);
                }
                assert(m[j] == merged(a, t)[j - 1]);
            }
        }
    }
}

/// Collapsing duplicates keeps the last element.
proof fn lemma_deduped_last(s: Seq<XAddr>)
    requires
        s.len() > 0,
    ensures
        deduped(s).len() > 0,
        deduped(s).last() == s.last(),
    decreases s.len(),
{
    if s.len() > 1 {
        lemma_deduped_last(s.drop_last());
    }
}

/// Collapsing duplicates of a sorted sequence leaves it sorted.
pub proof fn lemma_deduped_sorted(s: Seq<XAddr>)
    requires
        sorted(s),
    ensures
        sorted(deduped(s)),
    decreases s.len(),
{
    if s.len() > 1 {
        let t = s.drop_last();
        assert(sorted(t));
        lemma_deduped_sorted(t);
        lemma_deduped_last(t);
        let d = deduped(t);
        if s[s.len() - 1] != s[s.len() - 2] {
            assert forall|i: int, j: int|
                0 <= i < j < d.push(s.last()).len() implies key_of(d.push(s.last())[i]) <= key_of(
                d.push(s.last())[j],
            ) by {
                if j == d.len() {
                    if i < d.len() - 1 {
                        assert(key_of(d[i]) <= key_of(d[d.len() - 1]));
                    }
                }
            }
        }
    }
}

} // verus!
