//! A deterministic, stable insertion sort at the specification level.
//!
//! The registry's presentation order must be pinned exactly — not merely
//! "some sorted permutation" — so that reconciling twice with the same scan
//! provably changes nothing.  `insertion_sort` is that exact function; the
//! executable sort in the registry is proved to compute it.

use vstd::prelude::*;
use vstd::relations::sorted_by;
use vstd::seq_lib::lemma_multiset_commutative;

verus! {

/// The order relates every pair of elements, one way or the other.
pub open spec fn leq_total<A>(leq: spec_fn(A, A) -> bool) -> bool {
    forall|a: A, b: A| #[trigger] leq(a, b) || #[trigger] leq(b, a)
}

pub open spec fn leq_transitive<A>(leq: spec_fn(A, A) -> bool) -> bool {
    forall|a: A, b: A, c: A| #![trigger leq(a, b), leq(b, c)] leq(a, b) && leq(b, c) ==> leq(a, c)
}

/// Insert `x` into the sorted sequence `s`, after every element at most `x`
/// (so that elements that compare equal keep their original order).
pub open spec fn insert_sorted<A>(x: A, s: Seq<A>, leq: spec_fn(A, A) -> bool) -> Seq<A>
    decreases s.len(),
{
    if s.len() == 0 {
        seq![x]
    } else if leq(s[0], x) {
        seq![s[0]] + insert_sorted(x, s.drop_first(), leq)
    } else {
        seq![x] + s
    }
}

/// Stable insertion sort, processing elements left to right.
pub open spec fn insertion_sort<A>(s: Seq<A>, leq: spec_fn(A, A) -> bool) -> Seq<A>
    decreases s.len(),
{
    if s.len() == 0 {
        Seq::empty()
    } else {
        insert_sorted(s.last(), insertion_sort(s.drop_last(), leq), leq)
    }
}

pub proof fn lemma_insert_sorted_multiset<A>(x: A, s: Seq<A>, leq: spec_fn(A, A) -> bool)
    ensures
        insert_sorted(x, s, leq).len() == s.len() + 1,
        insert_sorted(x, s, leq).to_multiset() == s.to_multiset().insert(x),
    decreases s.len(),
{
    broadcast use vstd::seq_lib::group_to_multiset_ensures;
    broadcast use vstd::multiset::group_multiset_axioms;

    if s.len() == 0 {
        assert(seq![x] =~= s.push(x));
    } else if leq(s[0], x) {
        lemma_insert_sorted_multiset(x, s.drop_first(), leq);
        let rest = s.drop_first();
        let ir = insert_sorted(x, rest, leq);
        lemma_multiset_commutative(seq![s[0]], ir);
        lemma_multiset_commutative(seq![s[0]], rest);
        assert(s =~= seq![s[0]] + rest);
        assert((seq![s[0]] + ir).to_multiset() =~= s.to_multiset().insert(x));
    } else {
        lemma_multiset_commutative(seq![x], s);
        lemma_multiset_commutative(s, seq![x]);
        assert(s + seq![x] =~= s.push(x));
        assert((seq![x] + s).to_multiset() =~= s.to_multiset().insert(x));
    }
}

pub proof fn lemma_insert_sorted_sorted<A>(x: A, s: Seq<A>, leq: spec_fn(A, A) -> bool)
    requires
        sorted_by(s, leq),
        leq_total(leq),
        leq_transitive(leq),
    ensures
        sorted_by(insert_sorted(x, s, leq), leq),
    decreases s.len(),
{
    broadcast use vstd::seq_lib::group_to_multiset_ensures;
    broadcast use vstd::multiset::group_multiset_axioms;

    let r = insert_sorted(x, s, leq);
    if s.len() == 0 {
    } else if leq(s[0], x) {
        let rest = s.drop_first();
        assert(sorted_by(rest, leq));
        lemma_insert_sorted_sorted(x, rest, leq);
        lemma_insert_sorted_multiset(x, rest, leq);
        let ir = insert_sorted(x, rest, leq);
        assert forall|k: int| 0 <= k < ir.len() implies leq(s[0], ir[k]) by {
            assert(ir.contains(ir[k]));
            assert(ir.to_multiset().count(ir[k]) > 0);
            if ir[k] == x {
                assert(leq(s[0], ir[k]));
            } else {
                assert(rest.to_multiset().count(ir[k]) > 0);
                assert(rest.contains(ir[k]));
                let j = choose|j: int| 0 <= j < rest.len() && rest[j] == ir[k];
                assert(leq(s[0], s[j + 1]));
            }
        }
        assert forall|i: int, j: int| 0 <= i < j < r.len() implies leq(r[i], r[j]) by {
            if i == 0 {
                assert(r[j] == ir[j - 1]);
            } else {
                assert(r[i] == ir[i - 1] && r[j] == ir[j - 1]);
            }
        }
    } else {
        assert(leq(x, s[0]));
        assert forall|i: int, j: int| 0 <= i < j < r.len() implies leq(r[i], r[j]) by {
            if i == 0 {
                if j == 1 {
                    assert(leq(x, s[0]));
                } else {
                    assert(leq(s[0], s[j - 1]));
                }
            } else {
                assert(r[i] == s[i - 1] && r[j] == s[j - 1]);
            }
        }
    }
}

pub proof fn lemma_insertion_sort_ensures<A>(s: Seq<A>, leq: spec_fn(A, A) -> bool)
    requires
        leq_total(leq),
        leq_transitive(leq),
    ensures
        insertion_sort(s, leq).len() == s.len(),
        insertion_sort(s, leq).to_multiset() == s.to_multiset(),
        sorted_by(insertion_sort(s, leq), leq),
    decreases s.len(),
{
    broadcast use vstd::seq_lib::group_to_multiset_ensures;

    if s.len() != 0 {
        lemma_insertion_sort_ensures(s.drop_last(), leq);
        lemma_insert_sorted_multiset(s.last(), insertion_sort(s.drop_last(), leq), leq);
        lemma_insert_sorted_sorted(s.last(), insertion_sort(s.drop_last(), leq), leq);
        assert(s =~= s.drop_last().push(s.last()));
        assert(s.to_multiset() =~= s.drop_last().to_multiset().insert(s.last()));
    }
}

/// Inserting an element that every element of `s` is at most of appends it.
pub proof fn lemma_insert_sorted_at_end<A>(x: A, s: Seq<A>, leq: spec_fn(A, A) -> bool)
    requires
        forall|i: int| 0 <= i < s.len() ==> leq(#[trigger] s[i], x),
    ensures
        insert_sorted(x, s, leq) == s.push(x),
    decreases s.len(),
{
    if s.len() == 0 {
        assert(seq![x] =~= s.push(x));
    } else {
        assert(leq(s[0], x));
        assert forall|i: int| 0 <= i < s.drop_first().len() implies leq(
            #[trigger] s.drop_first()[i],
            x,
        ) by {
            assert(s.drop_first()[i] == s[i + 1]);
        }
        lemma_insert_sorted_at_end(x, s.drop_first(), leq);
        assert(seq![s[0]] + s.drop_first().push(x) =~= s.push(x));
    }
}

/// Sorting an already sorted sequence leaves it exactly as it is.
pub proof fn lemma_insertion_sort_of_sorted<A>(s: Seq<A>, leq: spec_fn(A, A) -> bool)
    requires
        sorted_by(s, leq),
    ensures
        insertion_sort(s, leq) == s,
    decreases s.len(),
{
    if s.len() != 0 {
        let pre = s.drop_last();
        assert(sorted_by(pre, leq));
        lemma_insertion_sort_of_sorted(pre, leq);
        assert forall|i: int| 0 <= i < pre.len() implies leq(#[trigger] pre[i], s.last()) by {
            assert(leq(s[i], s[s.len() - 1]));
        }
        lemma_insert_sorted_at_end(s.last(), pre, leq);
        assert(pre.push(s.last()) =~= s);
    }
}

/// Where the insertion lands: right before the first element that is not
/// at most `x`.  This is the fact the executable inner loop relies on.
pub proof fn lemma_insert_sorted_position<A>(x: A, s: Seq<A>, leq: spec_fn(A, A) -> bool, j: int)
    requires
        0 <= j <= s.len(),
        forall|i: int| 0 <= i < j ==> leq(#[trigger] s[i], x),
        j < s.len() ==> !leq(s[j], x),
    ensures
        insert_sorted(x, s, leq) == s.take(j) + seq![x] + s.skip(j),
    decreases s.len(),
{
    if j == 0 {
        if s.len() == 0 {
            assert(insert_sorted(x, s, leq) =~= s.take(0) + seq![x] + s.skip(0));
        } else {
            assert(!leq(s[0], x));
            assert(seq![x] + s =~= s.take(0) + seq![x] + s.skip(0));
        }
    } else {
        assert(leq(s[0], x));
        let rest = s.drop_first();
        assert forall|i: int| 0 <= i < j - 1 implies leq(#[trigger] rest[i], x) by {
            assert(rest[i] == s[i + 1]);
        }
        assert(j - 1 < rest.len() ==> !leq(rest[j - 1], x));
        lemma_insert_sorted_position(x, rest, leq, j - 1);
        assert(seq![s[0]] + (rest.take(j - 1) + seq![x] + rest.skip(j - 1)) =~= s.take(j)
            + seq![x] + s.skip(j));
    }
}

} // verus!
